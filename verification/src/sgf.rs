//! Game records in the SGF format: writing them, reading them back, and replaying them.
use vstd::prelude::*;
use crate::game::{Stone, Play, Game, put_all, lemma_put_all_step};
use crate::text::{
    push_char, push_decimal, decimal, digit_char, digit_to_char, chars_of, find_char, slice_chars,
    trim_chars, parse_number, parse_komi, parse_unsigned, parse_tenths, position_of, trim,
};

verus! {

/// A game record: board size, komi in tenths of a point, player names, result, the stones set
/// up before the first move, and the moves.
pub struct Record {
    pub size: usize,
    pub komi: i32,
    pub black_name: String,
    pub white_name: String,
    pub result: String,
    pub setup_black: Vec<usize>,
    pub setup_white: Vec<usize>,
    pub plays: Vec<(Stone, Play)>,
}

/// A game record as plain values.
pub struct RecordModel {
    pub size: int,
    pub komi: int,
    pub black_name: Seq<char>,
    pub white_name: Seq<char>,
    pub result: Seq<char>,
    pub setup_black: Seq<usize>,
    pub setup_white: Seq<usize>,
    pub plays: Seq<(Stone, Play)>,
}

impl View for Record {
    type V = RecordModel;

    open spec fn view(&self) -> RecordModel {
        RecordModel {
            size: self.size as int,
            komi: self.komi as int,
            black_name: self.black_name@,
            white_name: self.white_name@,
            result: self.result@,
            setup_black: self.setup_black@,
            setup_white: self.setup_white@,
            plays: self.plays@,
        }
    }
}

/// The record that `Record::new` makes.
pub open spec fn new_model(size: int, komi: int) -> RecordModel {
    RecordModel {
        size,
        komi,
        black_name: "Black"@,
        white_name: "White"@,
        result: Seq::empty(),
        setup_black: Seq::empty(),
        setup_white: Seq::empty(),
        plays: Seq::empty(),
    }
}

impl Record {
    /// An empty record for a board `size` wide, with players named Black and White.
    pub fn new(size: usize, komi: i32) -> (r: Record)
        ensures
            r.size == size,
            r.komi == komi,
            r.black_name@ == "Black"@,
            r.white_name@ == "White"@,
            r.result@ == Seq::<char>::empty(),
            r.setup_black@ == Seq::<usize>::empty(),
            r.setup_white@ == Seq::<usize>::empty(),
            r.plays@ == Seq::<(Stone, Play)>::empty(),
    {
        Record {
            size,
            komi,
            black_name: String::from_str("Black"),
            white_name: String::from_str("White"),
            result: String::new(),
            setup_black: Vec::new(),
            setup_white: Vec::new(),
            plays: Vec::new(),
        }
    }
}

/// The SGF letter for coordinate `i`: `a` for 0 up to `z` for 25, and `a` past that.
pub open spec fn sgf_letter(i: int) -> char {
    if 0 <= i < 26 {
        (97 + i) as char
    } else {
        'a'
    }
}

/// The SGF name of point `p`: its column letter, then its row letter.
pub open spec fn sgf_point_text(p: int, size: int) -> Seq<char> {
    seq![sgf_letter(p % size), sgf_letter(p / size)]
}

/// Komi in tenths of a point, written as a number with a fraction only when it has one.
pub open spec fn komi_text(k: int) -> Seq<char> {
    let a = if k < 0 { -k } else { k };
    let sign = if k < 0 { seq!['-'] } else { Seq::<char>::empty() };
    let fraction = if a % 10 == 0 { Seq::<char>::empty() } else { seq!['.', digit_char(a % 10)] };
    sign + decimal((a / 10) as nat) + fraction
}

/// The points `pts`, each in brackets.
pub open spec fn point_list_text(pts: Seq<usize>, size: int) -> Seq<char>
    decreases pts.len(),
{
    if pts.len() == 0 {
        Seq::empty()
    } else {
        point_list_text(pts.drop_last(), size) + seq!['['] + sgf_point_text(pts.last() as int, size)
            + seq![']']
    }
}

/// A property: its name, then its value in brackets.
pub open spec fn tok(key: Seq<char>, value: Seq<char>) -> Seq<char> {
    key + seq!['['] + value + seq![']']
}

/// The first `k` moves: `;B[..]` or `;W[..]`, an empty value for a pass, a new line after
/// every twelfth move.
pub open spec fn moves_text(plays: Seq<(Stone, Play)>, size: int, k: int) -> Seq<char>
    decreases k,
{
    if k <= 0 {
        Seq::empty()
    } else {
        let (color, play) = plays[k - 1];
        let letter = if color == Stone::Black {
            'B'
        } else {
            'W'
        };
        let spot = match play {
            Play::Point(p) => sgf_point_text(p as int, size),
            Play::Pass => Seq::empty(),
        };
        let line = if (k - 1) % 12 == 11 {
            seq!['\n']
        } else {
            Seq::<char>::empty()
        };
        moves_text(plays, size, k - 1) + seq![';'] + tok(seq![letter], spot) + line
    }
}

/// The start of a record in SGF: the game, the format, the size, komi and the players.
pub open spec fn head_text(r: RecordModel) -> Seq<char> {
    seq!['(', ';'] + tok("GM"@, "1"@) + tok("FF"@, "4"@) + tok("CA"@, "UTF-8"@) + tok(
        "AP"@,
        "go-tui"@,
    ) + tok("SZ"@, decimal(r.size as nat)) + tok("KM"@, komi_text(r.komi)) + tok(
        "PB"@,
        r.black_name,
    ) + tok("PW"@, r.white_name)
}

/// The result, when there is one.
pub open spec fn result_text(r: RecordModel) -> Seq<char> {
    if r.result.len() == 0 {
        Seq::empty()
    } else {
        tok("RE"@, r.result)
    }
}

/// The handicap and the black set-up stones, when there are any.
pub open spec fn black_text(r: RecordModel) -> Seq<char> {
    if r.setup_black.len() == 0 {
        Seq::empty()
    } else {
        tok("HA"@, decimal(r.setup_black.len())) + "AB"@ + point_list_text(r.setup_black, r.size)
    }
}

/// The white set-up stones, when there are any.
pub open spec fn white_text(r: RecordModel) -> Seq<char> {
    if r.setup_white.len() == 0 {
        Seq::empty()
    } else {
        "AW"@ + point_list_text(r.setup_white, r.size)
    }
}

/// The whole record in SGF.
pub open spec fn record_text(r: RecordModel) -> Seq<char> {
    head_text(r) + result_text(r) + black_text(r) + white_text(r) + seq!['\n'] + moves_text(
        r.plays,
        r.size,
        r.plays.len() as int,
    ) + seq![')', '\n']
}

/// The SGF letter for coordinate `i`.
fn sgf_char(i: usize) -> (c: char)
    ensures
        c == sgf_letter(i as int),
{
    if i < 26 {
        (97u8 + i as u8) as char
    } else {
        'a'
    }
}

/// Appends the SGF name of point `p`.
fn push_point(text: &mut String, p: usize, size: usize)
    requires
        size > 0,
    ensures
        final(text)@ == old(text)@ + sgf_point_text(p as int, size as int),
{
    push_char(text, sgf_char(p % size));
    push_char(text, sgf_char(p / size));
    proof {
        assert(final(text)@ =~= old(text)@ + sgf_point_text(p as int, size as int));
    }
}

/// Appends komi, in tenths of a point.
pub(crate) fn push_komi(text: &mut String, komi: i32)
    ensures
        final(text)@ == old(text)@ + komi_text(komi as int),
{
    let a: u64 = if komi < 0 { (-(komi as i64)) as u64 } else { komi as u64 };
    let ghost before = text@;
    if komi < 0 {
        push_char(text, '-');
    }
    let ghost signed = text@;
    push_decimal(text, a / 10);
    let ghost whole = text@;
    if a % 10 != 0 {
        push_char(text, '.');
        push_char(text, digit_to_char(a % 10));
    }
    proof {
        let sign = if komi < 0 { seq!['-'] } else { Seq::<char>::empty() };
        assert(signed =~= before + sign);
        assert(text@ =~= old(text)@ + komi_text(komi as int));
    }
}

/// Appends the points `pts`, each in brackets.
fn push_point_list(text: &mut String, pts: &Vec<usize>, size: usize)
    requires
        size > 0,
    ensures
        final(text)@ == old(text)@ + point_list_text(pts@, size as int),
{
    let mut k: usize = 0;
    while k < pts.len()
        invariant
            size > 0,
            0 <= k <= pts@.len(),
            text@ == old(text)@ + point_list_text(pts@.take(k as int), size as int),
        decreases pts@.len() - k,
    {
        let ghost before = text@;
        push_char(text, '[');
        push_point(text, pts[k], size);
        push_char(text, ']');
        proof {
            let t1 = pts@.take(k as int + 1);
            assert(t1.drop_last() =~= pts@.take(k as int));
            assert(t1.last() == pts@[k as int]);
            assert(text@ =~= old(text)@ + point_list_text(t1, size as int));
        }
        k += 1;
    }
    proof {
        assert(pts@.take(pts@.len() as int) =~= pts@);
    }
}

/// Appends the property `key` with the value `value`.
fn push_token(text: &mut String, key: &str, value: &str)
    ensures
        final(text)@ == old(text)@ + tok(key@, value@),
{
    text.append(key);
    push_char(text, '[');
    text.append(value);
    push_char(text, ']');
    proof {
        assert(final(text)@ =~= old(text)@ + tok(key@, value@));
    }
}

/// Appends the start of the record: see `head_text`.
fn push_head(text: &mut String, record: &Record)
    ensures
        final(text)@ == old(text)@ + head_text(record@),
{
    let ghost r = record@;
    let ghost start = text@;
    push_char(text, '(');
    push_char(text, ';');
    proof {
        assert(text@ =~= start + seq!['(', ';']);
    }
    push_token(text, "GM", "1");
    push_token(text, "FF", "4");
    push_token(text, "CA", "UTF-8");
    push_token(text, "AP", "go-tui");
    let ghost at_size = text@;
    text.append("SZ");
    push_char(text, '[');
    push_decimal(text, record.size as u64);
    push_char(text, ']');
    proof {
        assert(text@ =~= at_size + tok("SZ"@, decimal(r.size as nat)));
    }
    let ghost at_komi = text@;
    text.append("KM");
    push_char(text, '[');
    push_komi(text, record.komi);
    push_char(text, ']');
    proof {
        assert(text@ =~= at_komi + tok("KM"@, komi_text(r.komi)));
    }
    push_token(text, "PB", record.black_name.as_str());
    push_token(text, "PW", record.white_name.as_str());
    proof {
        assert(text@ =~= start + head_text(r));
    }
}

/// Whether record `r` names no point: no set-up stones and only passes.
pub open spec fn names_no_point(r: RecordModel) -> bool {
    &&& r.setup_black.len() == 0
    &&& r.setup_white.len() == 0
    &&& forall|i: int| 0 <= i < r.plays.len() ==> (#[trigger] r.plays[i]).1 == Play::Pass
}

/// The record in SGF. A point is written by its column and row, so a record that names one
/// must be on a board at least one point wide.
#[verifier::spinoff_prover]
#[verifier::rlimit(40)]
pub fn write(record: &Record) -> (text: String)
    requires
        record.size > 0 || names_no_point(record@),
    ensures
        text@ == record_text(record@),
{
    let ghost r = record@;
    let size = record.size;
    let mut text = String::new();
    push_head(&mut text, record);
    proof {
        assert(text@ =~= head_text(r));
    }
    let ghost head = text@;
    if record.result.as_str().unicode_len() != 0 {
        push_token(&mut text, "RE", record.result.as_str());
    }
    proof {
        assert(text@ =~= head + result_text(r));
    }
    let ghost with_result = text@;
    if record.setup_black.len() != 0 {
        text.append("HA");
        push_char(&mut text, '[');
        push_decimal(&mut text, record.setup_black.len() as u64);
        push_char(&mut text, ']');
        text.append("AB");
        push_point_list(&mut text, &record.setup_black, size);
        proof {
            assert(text@ =~= with_result + (tok("HA"@, decimal(r.setup_black.len())) + "AB"@
                + point_list_text(r.setup_black, size as int)));
        }
    }
    proof {
        assert(text@ =~= with_result + black_text(r));
    }
    let ghost with_black = text@;
    if record.setup_white.len() != 0 {
        text.append("AW");
        push_point_list(&mut text, &record.setup_white, size);
    }
    proof {
        assert(text@ =~= with_black + white_text(r));
    }
    push_char(&mut text, '\n');
    let ghost before_moves = text@;
    let mut k: usize = 0;
    proof {
        assert(before_moves =~= before_moves + moves_text(r.plays, size as int, 0));
    }
    while k < record.plays.len()
        invariant
            size == record.size,
            size > 0 || names_no_point(record@),
            0 <= k <= record.plays@.len(),
            text@ == before_moves + moves_text(record.plays@, size as int, k as int),
        decreases record.plays@.len() - k,
    {
        let (color, play) = record.plays[k];
        let letter = if color == Stone::Black {
            'B'
        } else {
            'W'
        };
        push_char(&mut text, ';');
        push_char(&mut text, letter);
        push_char(&mut text, '[');
        match play {
            Play::Point(p) => {
                proof {
                    assert(record.plays@[k as int].1 == Play::Point(p));
                }
                push_point(&mut text, p, size);
            },
            Play::Pass => {},
        }
        push_char(&mut text, ']');
        if k % 12 == 11 {
            push_char(&mut text, '\n');
        }
        proof {
            assert(text@ =~= before_moves + moves_text(record.plays@, size as int, k as int + 1));
        }
        k += 1;
    }
    let ghost after_moves = text@;
    push_char(&mut text, ')');
    push_char(&mut text, '\n');
    proof {
        assert(text@ =~= after_moves + seq![')', '\n']);
    }
    text
}

/// Whether `c` is an upper-case ASCII letter.
pub open spec fn is_upper(c: char) -> bool {
    'A' <= c && c <= 'Z'
}

/// Whether `c` is an upper-case ASCII letter.
pub fn upper(c: char) -> (r: bool)
    ensures
        r == is_upper(c),
{
    'A' <= c && c <= 'Z'
}

/// How many characters at the front of `s` are upper-case ASCII letters.
pub open spec fn upper_run(s: Seq<char>) -> nat
    decreases s.len(),
{
    if s.len() > 0 && is_upper(s[0]) {
        1 + upper_run(s.drop_first())
    } else {
        0
    }
}

/// A run of upper-case letters lies within the text, and is not empty when the text starts
/// with one.
pub proof fn lemma_upper_run(s: Seq<char>)
    ensures
        upper_run(s) <= s.len(),
        s.len() > 0 && is_upper(s[0]) ==> upper_run(s) >= 1,
        forall|j: int| 0 <= j < upper_run(s) ==> is_upper(#[trigger] s[j]),
    decreases s.len(),
{
    if s.len() > 0 && is_upper(s[0]) {
        lemma_upper_run(s.drop_first());
        assert forall|j: int| 0 <= j < upper_run(s) implies is_upper(#[trigger] s[j]) by {
            if j > 0 {
                assert(s[j] == s.drop_first()[j - 1]);
            }
        }
    }
}

/// The value that starts at the front of `s`, just after an opening bracket, up to the closing
/// bracket or the end of the text: a backslash takes the character after it as it is. Also
/// how many characters of `s` the value spans.
pub open spec fn bracket_value(s: Seq<char>) -> (Seq<char>, nat)
    decreases s.len(),
{
    if s.len() == 0 || s[0] == ']' {
        (Seq::empty(), 0)
    } else if s[0] == '\\' && s.len() > 1 {
        let (v, n) = bracket_value(s.skip(2));
        (seq![s[1]] + v, n + 2)
    } else {
        let (v, n) = bracket_value(s.drop_first());
        (seq![s[0]] + v, n + 1)
    }
}

/// The span of a value lies within the text.
pub proof fn lemma_bracket_value(s: Seq<char>)
    ensures
        bracket_value(s).1 <= s.len(),
        bracket_value(s).1 < s.len() ==> s[bracket_value(s).1 as int] == ']',
    decreases s.len(),
{
    if s.len() == 0 || s[0] == ']' {
    } else if s[0] == '\\' && s.len() > 1 {
        lemma_bracket_value(s.skip(2));
        let n = bracket_value(s.skip(2)).1;
        if n < s.skip(2).len() {
            assert(s[n + 2int] == s.skip(2)[n as int]);
        }
    } else {
        lemma_bracket_value(s.drop_first());
        let n = bracket_value(s.drop_first()).1;
        if n < s.drop_first().len() {
            assert(s[n + 1int] == s.drop_first()[n as int]);
        }
    }
}

/// The text after a value that starts at the front of `s` and its closing bracket.
pub open spec fn after_value(s: Seq<char>) -> Seq<char> {
    let n = bracket_value(s).1;
    if n + 1 <= s.len() {
        s.skip(n + 1int)
    } else {
        Seq::empty()
    }
}

/// The properties of SGF text `s`, in order, as pairs of a name and a value. A run of
/// upper-case letters names the properties whose values follow it in brackets; other
/// characters between them are passed over, and a value before any name is dropped.
/// `key` is the name read last.
pub open spec fn props(s: Seq<char>, key: Seq<char>) -> Seq<(Seq<char>, Seq<char>)>
    decreases s.len(),
{
    if s.len() == 0 {
        Seq::empty()
    } else if is_upper(s[0]) {
        let n = upper_run(s);
        proof {
            lemma_upper_run(s);
        }
        props(s.skip(n as int), s.take(n as int))
    } else if s[0] == '[' {
        let t = s.drop_first();
        let v = bracket_value(t).0;
        proof {
            lemma_bracket_value(t);
        }
        if key.len() > 0 {
            seq![(key, v)] + props(after_value(t), key)
        } else {
            props(after_value(t), key)
        }
    } else {
        props(s.drop_first(), key)
    }
}

/// A property list as plain character sequences.
pub open spec fn pairs_view(v: Seq<(String, String)>) -> Seq<(Seq<char>, Seq<char>)> {
    v.map_values(|p: (String, String)| (p.0@, p.1@))
}

/// The properties of SGF text `text`, in order: see `props`.
pub fn properties(text: &str) -> (found: Vec<(String, String)>)
    ensures
        pairs_view(found@) == props(text@, Seq::empty()),
{
    let chars = chars_of(text);
    let ghost s = chars@;
    let len = chars.len();
    let mut found: Vec<(String, String)> = Vec::new();
    let mut key = String::new();
    let mut i: usize = 0;
    proof {
        assert(s.skip(0) =~= s);
        assert(pairs_view(found@) =~= Seq::empty());
    }
    while i < len
        invariant
            len == s.len(),
            chars@ == s,
            s == text@,
            0 <= i <= len,
            props(s, Seq::empty()) == pairs_view(found@) + props(s.skip(i as int), key@),
        decreases len - i,
    {
        let ghost rest = s.skip(i as int);
        let ghost before = pairs_view(found@);
        if upper(chars[i]) {
            let start = i;
            let mut name = String::new();
            proof {
                assert(s.skip(start as int).take(0) =~= Seq::<char>::empty());
            }
            while i < len && upper(chars[i])
                invariant
                    len == s.len(),
                    chars@ == s,
                    start <= i <= len,
                    name@ == s.skip(start as int).take(i - start),
                    upper_run(s.skip(start as int)) == (i - start) + upper_run(s.skip(i as int)),
                decreases len - i,
            {
                proof {
                    assert(s.skip(i as int).drop_first() =~= s.skip(i as int + 1));
                    assert(s.skip(start as int).take(i - start + 1) =~= s.skip(start as int).take(
                        i - start,
                    ).push(s[i as int]));
                }
                push_char(&mut name, chars[i]);
                i += 1;
            }
            proof {
                if i < len {
                    assert(s.skip(i as int)[0] == s[i as int]);
                }
                assert(upper_run(s.skip(i as int)) == 0);
                assert(rest.skip(i - start) =~= s.skip(i as int));
            }
            key = name;
        } else if chars[i] == '[' {
            i += 1;
            let start = i;
            let ghost t = s.skip(start as int);
            let mut value = String::new();
            proof {
                assert(rest.drop_first() =~= t);
                lemma_bracket_value(t);
                assert(s.skip(start as int) =~= t);
            }
            while i < len && chars[i] != ']'
                invariant
                    len == s.len(),
                    chars@ == s,
                    start <= i <= len,
                    t == s.skip(start as int),
                    bracket_value(t).0 == value@ + bracket_value(s.skip(i as int)).0,
                    bracket_value(t).1 == (i - start) + bracket_value(s.skip(i as int)).1,
                decreases len - i,
            {
                let ghost here = s.skip(i as int);
                proof {
                    assert(here[0] == s[i as int]);
                }
                if chars[i] == '\\' && i + 1 < len {
                    proof {
                        assert(here.skip(2) =~= s.skip(i as int + 2));
                        assert(here[1] == s[i as int + 1]);
                    }
                    i += 1;
                    push_char(&mut value, chars[i]);
                    i += 1;
                } else {
                    proof {
                        assert(here.drop_first() =~= s.skip(i as int + 1));
                    }
                    push_char(&mut value, chars[i]);
                    i += 1;
                }
            }
            proof {
                if i < len {
                    assert(s.skip(i as int)[0] == s[i as int]);
                }
                assert(bracket_value(s.skip(i as int)) == (Seq::<char>::empty(), 0nat));
                assert(value@ =~= bracket_value(t).0);
            }
            if i < len {
                i += 1;
            }
            proof {
                assert(after_value(t) =~= s.skip(i as int));
            }
            if key.as_str().unicode_len() != 0 {
                let k = key.clone();
                found.push((k, value));
                proof {
                    assert(pairs_view(found@) =~= before + seq![(key@, bracket_value(t).0)]);
                }
            }
        } else {
            proof {
                assert(rest.drop_first() =~= s.skip(i as int + 1));
            }
            i += 1;
        }
    }
    proof {
        assert(s.skip(len as int) =~= Seq::<char>::empty());
    }
    found
}

/// The index of letter `c` in `a` to `z`, if it is one of them.
pub open spec fn letter_index(c: char) -> Option<int> {
    if 'a' <= c && c <= 'z' {
        Some(c as int - 'a' as int)
    } else {
        None
    }
}

/// The point that SGF value `v` names on a board `size` wide: a column letter and a row
/// letter from `a`; `tt` is a pass on boards up to 19 wide, and so is anything else that
/// names no point of the board.
pub open spec fn sgf_point(v: Seq<char>, size: int) -> Option<int> {
    if v.len() < 2 {
        None
    } else if v == seq!['t', 't'] && size <= 19 {
        None
    } else {
        match (letter_index(v[0]), letter_index(v[1])) {
            (Some(col), Some(row)) => if col < size && row < size {
                Some(row * size + col)
            } else {
                None
            },
            _ => None,
        }
    }
}

/// The index of letter `c` in `a` to `z`, if it is one of them.
fn letter_at(c: char) -> (r: Option<usize>)
    ensures
        r matches Some(i) ==> letter_index(c) == Some(i as int),
        r is None ==> letter_index(c) is None,
{
    if 'a' <= c && c <= 'z' {
        Some((c as u32 - 'a' as u32) as usize)
    } else {
        None
    }
}

/// The point that SGF value `value` names on a board `size` wide, if any: see `sgf_point`.
pub fn sgf_to_point(value: &str, size: usize) -> (r: Option<usize>)
    requires
        26 * size <= usize::MAX,
    ensures
        r matches Some(p) ==> sgf_point(value@, size as int) == Some(p as int),
        r is None ==> sgf_point(value@, size as int) is None,
{
    let v = chars_of(value);
    if v.len() < 2 {
        return None;
    }
    if v.len() == 2 && v[0] == 't' && v[1] == 't' && size <= 19 {
        proof {
            assert(v@ =~= seq!['t', 't']);
        }
        return None;
    }
    proof {
        if v@ =~= seq!['t', 't'] {
            assert(v@.len() == 2 && v@[0] == 't' && v@[1] == 't');
        }
    }
    let col = match letter_at(v[0]) {
        Some(c) => c,
        None => return None,
    };
    let row = match letter_at(v[1]) {
        Some(r) => r,
        None => return None,
    };
    if col >= size || row >= size {
        return None;
    }
    proof {
        assert(row * size + col <= 26 * size) by (nonlinear_arith)
            requires
                row < size,
                row < 26,
                col < size,
                col < 26,
        ;
    }
    Some(row * size + col)
}

/// The SGF name of point `p` on a board `size` wide.
pub fn point_to_sgf(p: usize, size: usize) -> (r: String)
    requires
        size > 0,
    ensures
        r@ == sgf_point_text(p as int, size as int),
{
    let mut text = String::new();
    push_point(&mut text, p, size);
    proof {
        assert(text@ =~= sgf_point_text(p as int, size as int));
    }
    text
}

/// The value of the first property named `name`, if there is one.
pub open spec fn first_value(ps: Seq<(Seq<char>, Seq<char>)>, name: Seq<char>) -> Option<Seq<char>>
    decreases ps.len(),
{
    if ps.len() == 0 {
        None
    } else if ps[0].0 == name {
        Some(ps[0].1)
    } else {
        first_value(ps.drop_first(), name)
    }
}

/// The board size that properties `ps` give: the number before any colon in the first `SZ`
/// value, white space around it dropped; 19 when there is none.
pub open spec fn size_in(ps: Seq<(Seq<char>, Seq<char>)>) -> int {
    match first_value(ps, "SZ"@) {
        Some(v) => match parse_unsigned(trim(v.take(position_of(v, ':') as int)), usize::MAX as nat) {
            Some(n) => n as int,
            None => 19,
        },
        None => 19,
    }
}

/// The komi that properties `ps` give, in tenths of a point: the first `KM` value, white space
/// around it dropped; six and a half points when there is none.
pub open spec fn komi_in(ps: Seq<(Seq<char>, Seq<char>)>) -> int {
    match first_value(ps, "KM"@) {
        Some(v) => match parse_tenths(trim(v)) {
            Some(k) => k,
            None => 65,
        },
        None => 65,
    }
}

/// What one property does to a record being read: `PB`, `PW` and `RE` set the names and
/// the result, `AB` and `AW` add a set-up stone when they name a point, `B` and `W` add a
/// move, a pass when they name no point; other properties change nothing.
pub open spec fn apply_prop(m: RecordModel, key: Seq<char>, value: Seq<char>) -> RecordModel {
    if key == "PB"@ {
        RecordModel { black_name: value, ..m }
    } else if key == "PW"@ {
        RecordModel { white_name: value, ..m }
    } else if key == "RE"@ {
        RecordModel { result: value, ..m }
    } else if key == "AB"@ {
        match sgf_point(value, m.size) {
            Some(p) => RecordModel { setup_black: m.setup_black.push(p as usize), ..m },
            None => m,
        }
    } else if key == "AW"@ {
        match sgf_point(value, m.size) {
            Some(p) => RecordModel { setup_white: m.setup_white.push(p as usize), ..m },
            None => m,
        }
    } else if key == "B"@ || key == "W"@ {
        let color = if key == "B"@ {
            Stone::Black
        } else {
            Stone::White
        };
        let play = match sgf_point(value, m.size) {
            Some(p) => Play::Point(p as usize),
            None => Play::Pass,
        };
        RecordModel { plays: m.plays.push((color, play)), ..m }
    } else {
        m
    }
}

/// The record that properties `ps` make of `m`, one after the other.
pub open spec fn fold_props(m: RecordModel, ps: Seq<(Seq<char>, Seq<char>)>) -> RecordModel
    decreases ps.len(),
{
    if ps.len() == 0 {
        m
    } else {
        fold_props(apply_prop(m, ps[0].0, ps[0].1), ps.drop_first())
    }
}

/// The record that SGF text `text` holds: nothing when it has no properties, when its size is
/// outside 5 to 25, or when it has neither moves nor black set-up stones.
pub open spec fn read_model(text: Seq<char>) -> Option<RecordModel> {
    let ps = props(text, Seq::empty());
    let size = size_in(ps);
    if ps.len() == 0 || size < 5 || size > 25 {
        None
    } else {
        let m = fold_props(new_model(size, komi_in(ps)), ps);
        if m.plays.len() == 0 && m.setup_black.len() == 0 {
            None
        } else {
            Some(m)
        }
    }
}

/// Whether `key` is `name`.
fn is_name(key: &String, name: &str) -> (r: bool)
    ensures
        r == (key@ == name@),
{
    let other = String::from_str(name);
    *key == other
}

/// Where the first property named `name` stands in `ps`, if anywhere.
fn find_property(ps: &Vec<(String, String)>, name: &str) -> (r: Option<usize>)
    ensures
        r matches Some(i) ==> i < ps@.len() && first_value(pairs_view(ps@), name@) == Some(
            ps@[i as int].1@,
        ),
        r is None ==> first_value(pairs_view(ps@), name@) is None,
{
    let ghost pv = pairs_view(ps@);
    let mut i: usize = 0;
    proof {
        assert(pv.skip(0) =~= pv);
    }
    while i < ps.len()
        invariant
            0 <= i <= ps@.len(),
            pv == pairs_view(ps@),
            first_value(pv, name@) == first_value(pv.skip(i as int), name@),
        decreases ps@.len() - i,
    {
        proof {
            assert(pv.skip(i as int)[0] == pv[i as int]);
            assert(pv.skip(i as int).drop_first() =~= pv.skip(i as int + 1));
        }
        if is_name(&ps[i].0, name) {
            return Some(i);
        }
        i += 1;
    }
    None
}

/// The board size that properties `ps` give: see `size_in`.
fn size_from(ps: &Vec<(String, String)>) -> (r: usize)
    ensures
        r == size_in(pairs_view(ps@)),
{
    match find_property(ps, "SZ") {
        None => 19,
        Some(i) => {
            let v = chars_of(ps[i].1.as_str());
            let d = find_char(&v, ':');
            proof {
                crate::text::lemma_position_of(v@, ':');
            }
            let head = slice_chars(&v, 0, d);
            let t = trim_chars(&head);
            proof {
                assert(head@ =~= v@.take(d as int));
            }
            match parse_number(&t, usize::MAX as u64) {
                Some(n) => n as usize,
                None => 19,
            }
        },
    }
}

/// The komi that properties `ps` give: see `komi_in`.
fn komi_from(ps: &Vec<(String, String)>) -> (r: i32)
    ensures
        r == komi_in(pairs_view(ps@)),
{
    match find_property(ps, "KM") {
        None => 65,
        Some(i) => {
            let v = chars_of(ps[i].1.as_str());
            let t = trim_chars(&v);
            match parse_komi(&t) {
                Some(k) => k,
                None => 65,
            }
        },
    }
}

/// Reads a game record from SGF text: see `read_model` for what it holds and when there is
/// none.
pub fn read(text: &str) -> (r: Option<Record>)
    ensures
        r matches Some(rec) ==> read_model(text@) == Some(rec@),
        r is None ==> read_model(text@) is None,
{
    let ps = properties(text);
    let ghost pv = pairs_view(ps@);
    if ps.len() == 0 {
        return None;
    }
    let size = size_from(&ps);
    if size < 5 || size > 25 {
        return None;
    }
    let komi = komi_from(&ps);
    let mut record = Record::new(size, komi);
    let ghost start = new_model(size as int, komi as int);
    proof {
        assert(record@ == start);
        assert(pv.skip(0) =~= pv);
    }
    let mut i: usize = 0;
    while i < ps.len()
        invariant
            0 <= i <= ps@.len(),
            pv == pairs_view(ps@),
            5 <= size <= 25,
            record.size == size,
            fold_props(start, pv) == fold_props(record@, pv.skip(i as int)),
        decreases ps@.len() - i,
    {
        let ghost before = record@;
        let key = &ps[i].0;
        let value = &ps[i].1;
        proof {
            assert(pv.skip(i as int)[0] == (key@, value@));
            assert(pv.skip(i as int).drop_first() =~= pv.skip(i as int + 1));
        }
        if is_name(key, "PB") {
            record.black_name = value.clone();
        } else if is_name(key, "PW") {
            record.white_name = value.clone();
        } else if is_name(key, "RE") {
            record.result = value.clone();
        } else if is_name(key, "AB") {
            match sgf_to_point(value.as_str(), size) {
                Some(p) => record.setup_black.push(p),
                None => {},
            }
        } else if is_name(key, "AW") {
            match sgf_to_point(value.as_str(), size) {
                Some(p) => record.setup_white.push(p),
                None => {},
            }
        } else if is_name(key, "B") || is_name(key, "W") {
            let color = if is_name(key, "B") {
                Stone::Black
            } else {
                Stone::White
            };
            let play = match sgf_to_point(value.as_str(), size) {
                Some(p) => Play::Point(p),
                None => Play::Pass,
            };
            record.plays.push((color, play));
        }
        proof {
            assert(record@ == apply_prop(before, key@, value@));
        }
        i += 1;
    }
    proof {
        assert(pv.skip(ps@.len() as int) =~= Seq::<(Seq<char>, Seq<char>)>::empty());
    }
    if record.plays.len() == 0 && record.setup_black.len() == 0 {
        return None;
    }
    Some(record)
}

/// The stones a record starts with: its black, then its white set-up stones on an empty board.
pub open spec fn setup_cells(r: RecordModel) -> Seq<Stone> {
    let empty = Seq::new((r.size * r.size) as nat, |i: int| Stone::Empty);
    put_all(put_all(empty, r.setup_black, Stone::Black), r.setup_white, Stone::White)
}

/// Whether `g` is the position record `r` starts from: its set-up stones on the board, komi
/// from the record, and, when there are black set-up stones, White to move with the handicap
/// counted (in a byte, as a handicap is kept).
pub open spec fn is_setup_position(r: RecordModel, g: Game) -> bool {
    &&& g.board.width() == r.size
    &&& g.board@ == setup_cells(r)
    &&& g.turn == if r.setup_black.len() > 0 {
        Stone::White
    } else {
        Stone::Black
    }
    &&& g.handicap == if r.setup_black.len() > 0 {
        r.setup_black.len() as u8
    } else {
        0u8
    }
    &&& g.captured == [0usize, 0usize]
    &&& g.passes == 0
    &&& !g.finished
    &&& g.winner is None
    &&& g.komi == r.komi
    &&& g.ko is None
    &&& g.move_number == 0
}

/// Position `g` with `color` to move and the game open again.
pub open spec fn ready_for(g: Game, color: Stone) -> Game {
    Game { turn: color, finished: false, ..g }
}

/// Whether every point that record `r` names lies on its board.
pub open spec fn points_on_board(r: RecordModel) -> bool {
    &&& forall|i: int| 0 <= i < r.setup_black.len() ==> r.setup_black[i] < r.size * r.size
    &&& forall|i: int| 0 <= i < r.setup_white.len() ==> r.setup_white[i] < r.size * r.size
    &&& forall|i: int|
        0 <= i < r.plays.len() ==> ((#[trigger] r.plays[i]).1 matches Play::Point(p) ==> p < r.size
            * r.size)
}

/// The positions of a record, one before each move and one after the last: the set-up
/// position, then each move made with its own colour to move, as `Game::make` makes it.
pub fn positions(record: &Record) -> (games: Vec<Game>)
    requires
        record.size * record.size <= usize::MAX,
        (record.plays@.len() + 1) * (record.size * record.size) <= usize::MAX,
        points_on_board(record@),
    ensures
        games@.len() == record.plays@.len() + 1,
        forall|i: int| 0 <= i < games@.len() ==> (#[trigger] games@[i]).wf(),
        is_setup_position(record@, games@[0]),
        forall|k: int|
            0 <= k < record.plays@.len() ==> ready_for(games@[k], record.plays@[k].0).after_make(
                record.plays@[k].1,
                &games@[k + 1],
            ),
{
    let size = record.size;
    let ghost len = size * size;
    let ghost r = record@;
    assert(len == r.size * r.size);
    let mut game = Game::new(size, record.komi);
    let ghost empty = game.board@;
    proof {
        game.board.lemma_wf();
        assert(empty =~= Seq::new((r.size * r.size) as nat, |i: int| Stone::Empty));
        assert(put_all(empty, r.setup_black.take(0), Stone::Black) =~= empty);
    }
    let mut k: usize = 0;
    if record.setup_black.len() == 0 {
        proof {
            assert(r.setup_black.take(0) =~= r.setup_black);
        }
    }
    while k < record.setup_black.len()
        invariant
            game.wf(),
            game.board@.len() == len,
            len == size * size,
            len == r.size * r.size,
            len <= usize::MAX,
            empty.len() == len,
            r == record@,
            points_on_board(r),
            0 <= k <= r.setup_black.len(),
            game.board.width() == size,
            game.board@ == put_all(empty, r.setup_black.take(k as int), Stone::Black),
            game.turn == Stone::Black,
            game.captured == [0usize, 0usize],
            game.passes == 0,
            !game.finished,
            game.winner is None,
            game.komi == r.komi,
            game.ko is None,
            game.move_number == 0,
            game.handicap == 0,
        decreases r.setup_black.len() - k,
    {
        let p = record.setup_black[k];
        proof {
            assert(r.setup_black[k as int] < r.size * r.size);
            lemma_put_all_step(empty, r.setup_black, k as int, Stone::Black);
        }
        game.board.put(p, Stone::Black);
        k += 1;
    }
    let ghost black = game.board@;
    proof {
        assert(r.setup_black.take(r.setup_black.len() as int) =~= r.setup_black);
        assert(put_all(black, r.setup_white.take(0), Stone::White) =~= black);
    }
    let mut k: usize = 0;
    if record.setup_white.len() == 0 {
        proof {
            assert(r.setup_white.take(0) =~= r.setup_white);
        }
    }
    while k < record.setup_white.len()
        invariant
            game.wf(),
            game.board@.len() == len,
            len == size * size,
            len == r.size * r.size,
            len <= usize::MAX,
            empty.len() == len,
            r == record@,
            points_on_board(r),
            black.len() == len,
            0 <= k <= r.setup_white.len(),
            game.board.width() == size,
            game.board@ == put_all(black, r.setup_white.take(k as int), Stone::White),
            game.turn == Stone::Black,
            game.captured == [0usize, 0usize],
            game.passes == 0,
            !game.finished,
            game.winner is None,
            game.komi == r.komi,
            game.ko is None,
            game.move_number == 0,
            game.handicap == 0,
        decreases r.setup_white.len() - k,
    {
        let p = record.setup_white[k];
        proof {
            assert(r.setup_white[k as int] < r.size * r.size);
            lemma_put_all_step(black, r.setup_white, k as int, Stone::White);
        }
        game.board.put(p, Stone::White);
        k += 1;
    }
    proof {
        assert(r.setup_white.take(r.setup_white.len() as int) =~= r.setup_white);
    }
    if record.setup_black.len() != 0 {
        game.handicap = #[verifier::truncate] (record.setup_black.len() as u8);
        game.turn = Stone::White;
    }
    let mut games: Vec<Game> = Vec::new();
    games.push(game.clone());
    let mut k: usize = 0;
    while k < record.plays.len()
        invariant
            game.wf(),
            game.board@.len() == len,
            game.board.width() == size,
            len == size * size,
            len == r.size * r.size,
            len <= usize::MAX,
            empty.len() == len,
            r == record@,
            points_on_board(r),
            (r.plays.len() + 1) * len <= usize::MAX,
            0 <= k <= r.plays.len(),
            games@.len() == k + 1,
            games@[k as int].same_as(&game),
            forall|i: int| 0 <= i < games@.len() ==> (#[trigger] games@[i]).wf(),
            is_setup_position(r, games@[0]),
            forall|j: int|
                0 <= j < k ==> ready_for(games@[j], r.plays[j].0).after_make(
                    r.plays[j].1,
                    &games@[j + 1],
                ),
            game.move_number <= k,
            game.passes <= k,
            game.captured[0] <= k * len,
            game.captured[1] <= k * len,
        decreases r.plays.len() - k,
    {
        let (color, play) = record.plays[k];
        let ghost before = games@[k as int];
        proof {
            assert((k + 1) * len <= (r.plays.len() + 1) * len) by (nonlinear_arith)
                requires
                    k < r.plays.len(),
                    0 <= len,
            ;
            assert(r.plays[k as int] == (color, play));
            if let Play::Point(p) = play {
                assert(p < r.size * r.size);
            }
            assert((k + 1) * len == k * len + len) by (nonlinear_arith);
        }
        game.turn = color;
        game.finished = false;
        let ghost ready = game;
        proof {
            assert(ready.same_as(&ready_for(before, color)));
        }
        game.make(play);
        proof {
            game.board.lemma_wf();
            assert(ready_for(before, color).after_make(play, &game));
        }
        games.push(game.clone());
        proof {
            assert(ready_for(before, color).after_make(play, &games@[k as int + 1]));
        }
        k += 1;
    }
    games
}

} // verus!
