//! Talking to a go engine over GTP: the commands sent to it, and what its replies mean.
use vstd::prelude::*;
use crate::game::{Stone, Play, coord_text, coord_of_upper, uppercase, to_upper, coord_name, parse_coord};
use crate::sgf::{komi_text, push_komi};
use crate::text::{
    chars_of, trim_chars, string_of, trim, parse_tenths, parse_komi, position_of, find_char,
    slice_chars, push_char, is_white, decimal, push_decimal,
};

verus! {

/// The letter GTP uses for a colour: `W` for White, `B` for anything else.
pub fn letter(color: Stone) -> (c: char)
    ensures
        c == (if color == Stone::White {
            'W'
        } else {
            'B'
        }),
{
    match color {
        Stone::White => 'W',
        _ => 'B',
    }
}

/// `s` with its spaces taken out.
pub open spec fn without_spaces(s: Seq<char>) -> Seq<char>
    decreases s.len(),
{
    if s.len() == 0 {
        s
    } else if s.last() == ' ' {
        without_spaces(s.drop_last())
    } else {
        without_spaces(s.drop_last()).push(s.last())
    }
}

/// Whether `c` is a decimal digit or a decimal point.
pub open spec fn is_number_char(c: char) -> bool {
    ('0' <= c && c <= '9') || c == '.'
}

/// How many characters at the front of `s` are digits or points.
pub open spec fn number_run(s: Seq<char>) -> nat
    decreases s.len(),
{
    if s.len() > 0 && is_number_char(s[0]) {
        1 + number_run(s.drop_first())
    } else {
        0
    }
}

/// How far Black leads, in tenths of a point, by an upper-case score without spaces such as
/// `B+12.5` or `W+3`: nothing for the winner's letter and plus sign, then the number; zero for a
/// score that starts with `0` or `DRAW`; nothing when the letter is neither `B` nor `W` or the
/// number cannot be read.
pub open spec fn score_of(u: Seq<char>) -> Option<int> {
    if u.len() > 0 && u[0] == '0' {
        Some(0)
    } else if u.len() >= 4 && u.take(4) == seq!['D', 'R', 'A', 'W'] {
        Some(0)
    } else if u.len() == 0 {
        None
    } else {
        let plus = position_of(u, '+');
        let after = if plus < u.len() {
            u.skip(plus + 1int)
        } else {
            Seq::empty()
        };
        match parse_tenths(after.take(number_run(after) as int)) {
            None => None,
            Some(t) => if u[0] == 'B' {
                Some(t)
            } else if u[0] == 'W' {
                Some(-t)
            } else {
                None
            },
        }
    }
}

/// `v` with its spaces taken out.
fn drop_spaces(v: &Vec<char>) -> (r: Vec<char>)
    ensures
        r@ == without_spaces(v@),
{
    let mut r: Vec<char> = Vec::new();
    let mut i: usize = 0;
    proof {
        assert(v@.take(0) =~= Seq::<char>::empty());
    }
    while i < v.len()
        invariant
            0 <= i <= v@.len(),
            r@ == without_spaces(v@.take(i as int)),
        decreases v@.len() - i,
    {
        proof {
            assert(v@.take(i as int + 1).drop_last() =~= v@.take(i as int));
            assert(v@.take(i as int + 1).last() == v@[i as int]);
        }
        if v[i] != ' ' {
            r.push(v[i]);
        }
        i += 1;
    }
    proof {
        assert(v@.take(v@.len() as int) =~= v@);
    }
    r
}

/// How far Black leads by a GTP score reply such as `B+12.5` or `W+ 3.0 (upper bound)`, in
/// tenths of a point: the reply is read without white space around it, in upper case and
/// without spaces, as `score_of` says.
pub fn parse_result(reply: &str) -> (r: Option<i64>)
    ensures
        r matches Some(v) ==> score_of(without_spaces(uppercase(trim(reply@)))) == Some(v as int),
        r is None ==> score_of(without_spaces(uppercase(trim(reply@)))) is None,
{
    let v = chars_of(reply);
    let t = trim_chars(&v);
    let trimmed = string_of(&t);
    let upper = to_upper(trimmed.as_str());
    score_from_upper(upper.as_str())
}

/// How far Black leads by the upper-case GTP score reply `upper`, in tenths of a point: the
/// reply is read without spaces, as `score_of` says.
pub fn score_from_upper(upper: &str) -> (r: Option<i64>)
    ensures
        r matches Some(v) ==> score_of(without_spaces(upper@)) == Some(v as int),
        r is None ==> score_of(without_spaces(upper@)) is None,
{
    let u0 = chars_of(upper);
    let u = drop_spaces(&u0);
    let ghost s = u@;
    let len = u.len();
    if len > 0 && u[0] == '0' {
        return Some(0);
    }
    if len >= 4 && u[0] == 'D' && u[1] == 'R' && u[2] == 'A' && u[3] == 'W' {
        proof {
            assert(s.take(4) =~= seq!['D', 'R', 'A', 'W']);
        }
        return Some(0);
    }
    proof {
        if s.len() >= 4 && s.take(4) == seq!['D', 'R', 'A', 'W'] {
            assert(s.take(4)[0] == s[0]);
            assert(s.take(4)[1] == s[1]);
            assert(s.take(4)[2] == s[2]);
            assert(s.take(4)[3] == s[3]);
        }
    }
    if len == 0 {
        return None;
    }
    let plus = find_char(&u, '+');
    proof {
        crate::text::lemma_position_of(s, '+');
    }
    let after = if plus < len {
        slice_chars(&u, plus + 1, len)
    } else {
        Vec::new()
    };
    let ghost a = after@;
    proof {
        if plus < len {
            assert(a =~= s.skip(plus + 1int));
        } else {
            assert(a =~= Seq::<char>::empty());
        }
    }
    let mut n: usize = 0;
    proof {
        assert(a.skip(0) =~= a);
    }
    while n < after.len() && (('0' <= after[n] && after[n] <= '9') || after[n] == '.')
        invariant
            a == after@,
            0 <= n <= a.len(),
            number_run(a) == n + number_run(a.skip(n as int)),
        decreases a.len() - n,
    {
        proof {
            assert(a.skip(n as int).drop_first() =~= a.skip(n as int + 1));
            assert(a.skip(n as int)[0] == a[n as int]);
        }
        n += 1;
    }
    proof {
        if n < a.len() {
            assert(a.skip(n as int)[0] == a[n as int]);
        }
    }
    let digits = slice_chars(&after, 0, n);
    proof {
        assert(digits@ =~= a.take(number_run(a) as int));
    }
    let t = match parse_komi(&digits) {
        Some(t) => t,
        None => return None,
    };
    if u[0] == 'B' {
        Some(t as i64)
    } else if u[0] == 'W' {
        Some(0 - (t as i64))
    } else {
        None
    }
}

/// The move an engine's reply names on a board `size` wide: a pass when there is no reply or
/// when the reply, without white space around it and in upper case, is empty, `PASS`,
/// `RESIGN`, or names no point (see `parse_coord`).
pub open spec fn play_of_reply(reply: Option<Seq<char>>, size: int) -> Play {
    match reply {
        None => Play::Pass,
        Some(t) => {
            let u = uppercase(trim(t));
            if u == "PASS"@ || u == "RESIGN"@ || u.len() == 0 {
                Play::Pass
            } else {
                match coord_of_upper(uppercase(trim(u)), size) {
                    Some(p) => Play::Point(p as usize),
                    None => Play::Pass,
                }
            }
        },
    }
}

/// The move an engine's reply names: see `play_of_reply`.
pub fn read_play(reply: Option<String>, size: usize) -> (play: Play)
    requires
        size * size <= usize::MAX,
    ensures
        play == play_of_reply(
            match reply {
                Some(s) => Some(s@),
                None => None,
            },
            size as int,
        ),
{
    match reply {
        None => Play::Pass,
        Some(text) => {
            let v = chars_of(text.as_str());
            let t = trim_chars(&v);
            let trimmed = string_of(&t);
            let upper = to_upper(trimmed.as_str());
            let pass = String::from_str("PASS");
            let resign = String::from_str("RESIGN");
            if upper == pass || upper == resign || upper.as_str().unicode_len() == 0 {
                Play::Pass
            } else {
                match parse_coord(upper.as_str(), size) {
                    Some(p) => Play::Point(p),
                    None => Play::Pass,
                }
            }
        },
    }
}

/// The answer in a GTP reply: what follows `=` at its start, white space around both dropped;
/// nothing when the reply does not start with `=`.
pub open spec fn answer_text(reply: Seq<char>) -> Option<Seq<char>> {
    let t = trim(reply);
    if t.len() > 0 && t[0] == '=' {
        Some(trim(t.drop_first()))
    } else {
        None
    }
}

/// The answer in a GTP reply: see `answer_text`.
pub fn answer_of(reply: &str) -> (r: Option<String>)
    ensures
        r matches Some(a) ==> answer_text(reply@) == Some(a@),
        r is None ==> answer_text(reply@) is None,
{
    let v = chars_of(reply);
    let t = trim_chars(&v);
    if t.len() > 0 && t[0] == '=' {
        let rest = slice_chars(&t, 1, t.len());
        proof {
            assert(rest@ =~= t@.drop_first());
        }
        let a = trim_chars(&rest);
        Some(string_of(&a))
    } else {
        None
    }
}

/// The commands that set an engine up for a game on a board `size` wide with `komi` tenths
/// of a point: `boardsize`, `clear_board`, and `komi` with komi written as in game records.
pub fn setup_commands(size: usize, komi: i32) -> (r: (String, String, String))
    ensures
        r.0@ == "boardsize "@ + decimal(size as nat),
        r.1@ == "clear_board"@,
        r.2@ == "komi "@ + komi_text(komi as int),
{
    let mut board = String::from_str("boardsize ");
    push_decimal(&mut board, size as u64);
    let clear = String::from_str("clear_board");
    let mut komi_line = String::from_str("komi ");
    push_komi(&mut komi_line, komi);
    (board, clear, komi_line)
}

/// What an engine is called: the name it answers with, and its version after a space when it
/// gives one; the program's own name when it gives no name.
pub open spec fn title_text(program: Seq<char>, name: Seq<char>, version: Seq<char>) -> Seq<char> {
    if name.len() == 0 {
        program
    } else if version.len() == 0 {
        name
    } else {
        name + seq![' '] + version
    }
}

/// What an engine is called: see `title_text`.
pub fn engine_title(program: &str, name: &str, version: &str) -> (r: String)
    ensures
        r@ == title_text(program@, name@, version@),
{
    if name.unicode_len() == 0 {
        String::from_str(program)
    } else if version.unicode_len() == 0 {
        String::from_str(name)
    } else {
        let mut text = String::from_str(name);
        push_char(&mut text, ' ');
        text.append(version);
        text
    }
}

/// The lines of a reply run together: each line without white space at its ends, followed
/// by a space.
pub open spec fn joined(lines: Seq<Seq<char>>) -> Seq<char>
    decreases lines.len(),
{
    if lines.len() == 0 {
        Seq::empty()
    } else {
        joined(lines.drop_last()) + trim(lines.last()).push(' ')
    }
}

/// The answer in a reply of several lines, read up to the empty line that ends it: see
/// `joined` and `answer_text`.
pub fn answer_of_lines(lines: &Vec<String>) -> (r: Option<String>)
    ensures
        r matches Some(a) ==> answer_text(joined(lines@.map_values(|l: String| l@))) == Some(a@),
        r is None ==> answer_text(joined(lines@.map_values(|l: String| l@))) is None,
{
    let ghost views = lines@.map_values(|l: String| l@);
    let mut reply = String::new();
    let mut k: usize = 0;
    while k < lines.len()
        invariant
            0 <= k <= lines@.len(),
            views == lines@.map_values(|l: String| l@),
            reply@ == joined(views.take(k as int)),
        decreases lines@.len() - k,
    {
        let v = chars_of(lines[k].as_str());
        let t = trim_chars(&v);
        let line = string_of(&t);
        reply.append(line.as_str());
        push_char(&mut reply, ' ');
        proof {
            assert(views.take(k as int + 1).drop_last() =~= views.take(k as int));
            assert(views[k as int] == lines@[k as int]@);
            assert(reply@ =~= joined(views.take(k as int + 1)));
        }
        k += 1;
    }
    proof {
        assert(views.take(lines@.len() as int) =~= views);
    }
    answer_of(reply.as_str())
}

/// The command that tells the engine about a move: `play`, the colour's letter, then the
/// point's name or `pass`.
pub open spec fn play_command_text(color: Stone, play: Play, size: int) -> Seq<char> {
    "play "@ + seq![if color == Stone::White { 'W' } else { 'B' }, ' '] + match play {
        Play::Point(p) => coord_text(p as int, size),
        Play::Pass => "pass"@,
    }
}

/// The command that tells the engine about a move: see `play_command_text`.
pub fn play_command(color: Stone, play: Play, size: usize) -> (r: String)
    requires
        play matches Play::Point(p) ==> size > 0 && p / size <= size,
    ensures
        r@ == play_command_text(color, play, size as int),
{
    let mut text = String::from_str("play ");
    push_char(&mut text, letter(color));
    push_char(&mut text, ' ');
    let ghost head = text@;
    match play {
        Play::Point(p) => {
            let name = coord_name(p, size);
            text.append(name.as_str());
        },
        Play::Pass => text.append("pass"),
    }
    proof {
        assert(head =~= "play "@ + seq![if color == Stone::White { 'W' } else { 'B' }, ' ']);
    }
    text
}

/// The command that asks the engine for a move of `color`: `genmove`, or `reg_genmove` when
/// the move is only wanted as advice and not to be played.
pub fn genmove_command(color: Stone, advice: bool) -> (r: String)
    ensures
        r@ == (if advice {
            "reg_genmove "@
        } else {
            "genmove "@
        }).push(if color == Stone::White {
            'W'
        } else {
            'B'
        }),
{
    let mut text = if advice {
        String::from_str("reg_genmove ")
    } else {
        String::from_str("genmove ")
    };
    push_char(&mut text, letter(color));
    text
}

} // verus!
