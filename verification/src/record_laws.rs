//! What reading gives back of what writing wrote: a game record survives a trip through SGF.
use vstd::prelude::*;
use crate::sgf::{
    is_upper, upper_run, lemma_upper_run, bracket_value, lemma_bracket_value, after_value, props,
    tok, sgf_letter, letter_index, sgf_point_text, sgf_point, point_list_text, moves_text,
};
use crate::game::{Stone, Play};
use crate::text::{
    decimal, digit_char, digit_value, digits_value, digits_or_zero, parse_unsigned, parse_tenths,
    position_of, trim, trim_start, trim_end, is_white,
};
use crate::sgf::{
    komi_text, head_text, result_text, black_text, white_text, record_text, RecordModel,
    apply_prop, fold_props, first_value, size_in, komi_in, read_model, new_model, points_on_board,
};

verus! {

/// Whether reading `s` with `key` as the last name ends outside any name or value: every
/// run of upper-case letters and every bracketed value closes within `s`.
pub open spec fn ends_top(s: Seq<char>, key: Seq<char>) -> bool
    decreases s.len(),
{
    if s.len() == 0 {
        true
    } else if is_upper(s[0]) {
        let n = upper_run(s);
        proof {
            lemma_upper_run(s);
        }
        n < s.len() && ends_top(s.skip(n as int), s.take(n as int))
    } else if s[0] == '[' {
        let t = s.drop_first();
        proof {
            lemma_bracket_value(t);
        }
        bracket_value(t).1 < t.len() && ends_top(after_value(t), key)
    } else {
        ends_top(s.drop_first(), key)
    }
}

/// The name read last after reading `s` with `key` as the last name.
pub open spec fn key_after(s: Seq<char>, key: Seq<char>) -> Seq<char>
    decreases s.len(),
{
    if s.len() == 0 {
        key
    } else if is_upper(s[0]) {
        let n = upper_run(s);
        proof {
            lemma_upper_run(s);
        }
        key_after(s.skip(n as int), s.take(n as int))
    } else if s[0] == '[' {
        let t = s.drop_first();
        proof {
            lemma_bracket_value(t);
        }
        key_after(after_value(t), key)
    } else {
        key_after(s.drop_first(), key)
    }
}

/// A run of upper-case letters that ends within `a` is not lengthened by what follows.
proof fn lemma_upper_run_append(a: Seq<char>, b: Seq<char>)
    requires
        upper_run(a) < a.len(),
    ensures
        upper_run(a + b) == upper_run(a),
    decreases a.len(),
{
    assert((a + b)[0] == a[0]);
    if is_upper(a[0]) {
        assert((a + b).drop_first() =~= a.drop_first() + b);
        lemma_upper_run_append(a.drop_first(), b);
    }
}

/// A value that closes within `t` is not changed by what follows.
proof fn lemma_bracket_append(t: Seq<char>, b: Seq<char>)
    requires
        bracket_value(t).1 < t.len(),
    ensures
        bracket_value(t + b) == bracket_value(t),
    decreases t.len(),
{
    assert((t + b)[0] == t[0]);
    if t[0] == ']' {
    } else if t[0] == '\\' && t.len() > 1 {
        assert((t + b)[1] == t[1]);
        assert((t + b).skip(2) =~= t.skip(2) + b);
        lemma_bracket_append(t.skip(2), b);
    } else {
        assert((t + b).drop_first() =~= t.drop_first() + b);
        lemma_bracket_append(t.drop_first(), b);
    }
}

/// Reading a text that ends outside any name or value, then more text, reads the two
/// parts one after the other.
pub proof fn lemma_props_append(a: Seq<char>, b: Seq<char>, key: Seq<char>)
    requires
        ends_top(a, key),
    ensures
        props(a + b, key) == props(a, key) + props(b, key_after(a, key)),
        ends_top(a + b, key) == ends_top(b, key_after(a, key)),
        key_after(a + b, key) == key_after(b, key_after(a, key)),
    decreases a.len(),
{
    if a.len() == 0 {
        assert(a + b =~= b);
        assert(props(a, key) =~= Seq::empty());
        assert(props(a, key) + props(b, key) =~= props(b, key));
    } else {
        let s = a + b;
        assert(s[0] == a[0]);
        if is_upper(a[0]) {
            let n = upper_run(a);
            lemma_upper_run(a);
            lemma_upper_run_append(a, b);
            assert(s.skip(n as int) =~= a.skip(n as int) + b);
            assert(s.take(n as int) =~= a.take(n as int));
            lemma_props_append(a.skip(n as int), b, a.take(n as int));
        } else if a[0] == '[' {
            let t = a.drop_first();
            lemma_bracket_value(t);
            assert(s.drop_first() =~= t + b);
            lemma_bracket_append(t, b);
            let m = bracket_value(t).1;
            assert(after_value(t + b) =~= after_value(t) + b);
            lemma_props_append(after_value(t), b, key);
            let v = bracket_value(t).0;
            if key.len() > 0 {
                assert(props(a + b, key) =~= seq![(key, v)] + props(after_value(t) + b, key));
                assert(props(a, key) =~= seq![(key, v)] + props(after_value(t), key));
                assert(props(a + b, key) =~= props(a, key) + props(b, key_after(a, key)));
            }
        } else {
            assert(s.drop_first() =~= a.drop_first() + b);
            lemma_props_append(a.drop_first(), b, key);
        }
    }
}

/// Whether `v` can stand in brackets as it is: it holds no closing bracket and no backslash.
pub open spec fn plain_value(v: Seq<char>) -> bool {
    forall|i: int| 0 <= i < v.len() ==> v[i] != ']' && v[i] != '\\'
}

/// Whether `k` can name a property: a non-empty run of upper-case letters.
pub open spec fn key_name(k: Seq<char>) -> bool {
    k.len() > 0 && forall|i: int| 0 <= i < k.len() ==> is_upper(k[i])
}

/// A plain value followed by its closing bracket reads back as itself.
proof fn lemma_plain_bracket(v: Seq<char>)
    requires
        plain_value(v),
    ensures
        bracket_value(v + seq![']']) == (v, v.len()),
    decreases v.len(),
{
    let t = v + seq![']'];
    if v.len() == 0 {
        assert(t[0] == ']');
    } else {
        assert(t[0] == v[0]);
        assert(t.drop_first() =~= v.drop_first() + seq![']']);
        lemma_plain_bracket(v.drop_first());
        assert(seq![v[0]] + v.drop_first() =~= v);
    }
}

/// A name followed by something that is not an upper-case letter is read as a whole.
proof fn lemma_upper_prefix(k: Seq<char>, rest: Seq<char>)
    requires
        forall|i: int| 0 <= i < k.len() ==> is_upper(k[i]),
        rest.len() > 0,
        !is_upper(rest[0]),
    ensures
        upper_run(k + rest) == k.len(),
    decreases k.len(),
{
    if k.len() == 0 {
        assert(k + rest =~= rest);
    } else {
        assert((k + rest)[0] == k[0]);
        assert((k + rest).drop_first() =~= k.drop_first() + rest);
        lemma_upper_prefix(k.drop_first(), rest);
    }
}

/// A bracketed plain value gives one property of the name read last.
pub proof fn lemma_value_piece(v: Seq<char>, key: Seq<char>)
    requires
        plain_value(v),
    ensures
        props(seq!['['] + v + seq![']'], key) == if key.len() > 0 {
            seq![(key, v)]
        } else {
            Seq::empty()
        },
        ends_top(seq!['['] + v + seq![']'], key),
        key_after(seq!['['] + v + seq![']'], key) == key,
{
    let s = seq!['['] + v + seq![']'];
    let t = s.drop_first();
    assert(s[0] == '[');
    assert(t =~= v + seq![']']);
    lemma_plain_bracket(v);
    assert(after_value(t) =~= Seq::<char>::empty());
    assert(props(after_value(t), key) == Seq::<(Seq<char>, Seq<char>)>::empty());
    assert(ends_top(after_value(t), key));
    assert(key_after(after_value(t), key) == key);
}

/// A property written out reads back as that one property.
pub proof fn lemma_tok_piece(k: Seq<char>, v: Seq<char>, key: Seq<char>)
    requires
        key_name(k),
        plain_value(v),
    ensures
        props(tok(k, v), key) == seq![(k, v)],
        ends_top(tok(k, v), key),
        key_after(tok(k, v), key) == k,
{
    let s = tok(k, v);
    let rest = seq!['['] + v + seq![']'];
    assert(s =~= k + rest);
    assert(rest[0] == '[');
    lemma_upper_prefix(k, rest);
    assert(s[0] == k[0]);
    assert(s.skip(k.len() as int) =~= rest);
    assert(s.take(k.len() as int) =~= k);
    lemma_value_piece(v, k);
}

/// Text with no upper-case letter and no opening bracket gives no property.
pub proof fn lemma_skip_piece(s: Seq<char>, key: Seq<char>)
    requires
        forall|i: int| 0 <= i < s.len() ==> !is_upper(s[i]) && s[i] != '[',
    ensures
        props(s, key) == Seq::<(Seq<char>, Seq<char>)>::empty(),
        ends_top(s, key),
        key_after(s, key) == key,
    decreases s.len(),
{
    if s.len() > 0 {
        assert(s[0] == s[0]);
        lemma_skip_piece(s.drop_first(), key);
    }
}

/// Coordinate letters are lower-case letters, and name their coordinate back.
pub proof fn lemma_sgf_letter(i: int)
    ensures
        'a' <= sgf_letter(i) <= 'z',
        0 <= i < 26 ==> letter_index(sgf_letter(i)) == Some(i),
{
}

/// The SGF name of a point on the board names it back, and can stand in brackets.
pub proof fn lemma_point_text(p: int, size: int)
    requires
        0 < size <= 25,
        0 <= p < size * size,
    ensures
        plain_value(sgf_point_text(p, size)),
        sgf_point(sgf_point_text(p, size), size) == Some(p),
{
    let t = sgf_point_text(p, size);
    lemma_sgf_letter(p % size);
    lemma_sgf_letter(p / size);
    assert(p / size < size) by (nonlinear_arith)
        requires
            0 < size,
            0 <= p < size * size,
    ;
    assert(p == (p / size) * size + p % size) by (nonlinear_arith)
        requires
            0 < size,
    ;
    assert(0 <= p % size < size) by (nonlinear_arith)
        requires
            0 < size,
    ;
    if t == seq!['t', 't'] && size <= 19 {
        assert(letter_index(t[0]) == Some(19int));
    }
}

/// The SGF name of any point can stand in brackets.
proof fn lemma_point_text_plain(p: int, size: int)
    ensures
        plain_value(sgf_point_text(p, size)),
{
    lemma_sgf_letter(p % size);
    lemma_sgf_letter(p / size);
}

/// The bracketed names of points `pts` as properties of the name `key`.
pub open spec fn point_pairs(pts: Seq<usize>, size: int, key: Seq<char>) -> Seq<(Seq<char>, Seq<char>)> {
    pts.map_values(|p: usize| (key, sgf_point_text(p as int, size)))
}

/// A list of bracketed points gives one property of the name read last for each.
pub proof fn lemma_point_list(pts: Seq<usize>, size: int, key: Seq<char>)
    requires
        key.len() > 0,
    ensures
        props(point_list_text(pts, size), key) == point_pairs(pts, size, key),
        ends_top(point_list_text(pts, size), key),
        key_after(point_list_text(pts, size), key) == key,
        pts.len() > 0 ==> point_list_text(pts, size)[0] == '[',
    decreases pts.len(),
{
    if pts.len() == 0 {
        assert(point_list_text(pts, size) =~= Seq::<char>::empty());
        assert(point_pairs(pts, size, key) =~= Seq::empty());
    } else {
        let a = point_list_text(pts.drop_last(), size);
        let v = sgf_point_text(pts.last() as int, size);
        let b = seq!['['] + v + seq![']'];
        assert(point_list_text(pts, size) =~= a + b);
        lemma_point_list(pts.drop_last(), size, key);
        lemma_point_text_plain(pts.last() as int, size);
        lemma_value_piece(v, key);
        lemma_props_append(a, b, key);
        assert(point_pairs(pts, size, key) =~= point_pairs(pts.drop_last(), size, key) + seq![
            (key, v),
        ]);
        if pts.drop_last().len() > 0 {
            assert((a + b)[0] == a[0]);
        } else {
            assert(a =~= Seq::<char>::empty());
            assert((a + b)[0] == b[0]);
        }
    }
}

/// A name followed by a list of bracketed points gives one property of that name for each.
pub proof fn lemma_keyed_list(k: Seq<char>, pts: Seq<usize>, size: int, key: Seq<char>)
    requires
        key_name(k),
        pts.len() > 0,
    ensures
        props(k + point_list_text(pts, size), key) == point_pairs(pts, size, k),
        ends_top(k + point_list_text(pts, size), key),
{
    let rest = point_list_text(pts, size);
    let s = k + rest;
    lemma_point_list(pts, size, k);
    lemma_upper_prefix(k, rest);
    assert(s[0] == k[0]);
    assert(s.skip(k.len() as int) =~= rest);
    assert(s.take(k.len() as int) =~= k);
}

/// The property that a move is written as: its colour's letter and its point, empty for a pass.
pub open spec fn move_pair(m: (Stone, Play), size: int) -> (Seq<char>, Seq<char>) {
    (
        seq![if m.0 == Stone::Black { 'B' } else { 'W' }],
        match m.1 {
            Play::Point(p) => sgf_point_text(p as int, size),
            Play::Pass => Seq::empty(),
        },
    )
}

/// The properties of the first `k` moves.
pub open spec fn move_pairs(plays: Seq<(Stone, Play)>, size: int, k: int) -> Seq<(Seq<char>, Seq<char>)> {
    plays.take(k).map_values(|m: (Stone, Play)| move_pair(m, size))
}

/// The moves written out give one property for each.
pub proof fn lemma_moves(plays: Seq<(Stone, Play)>, size: int, k: int, key: Seq<char>)
    requires
        0 <= k <= plays.len(),
    ensures
        props(moves_text(plays, size, k), key) == move_pairs(plays, size, k),
        ends_top(moves_text(plays, size, k), key),
    decreases k,
{
    if k == 0 {
        assert(moves_text(plays, size, k) =~= Seq::<char>::empty());
        assert(move_pairs(plays, size, k) =~= Seq::empty());
    } else {
        let (color, play) = plays[k - 1];
        let mp = move_pair(plays[k - 1], size);
        let a = moves_text(plays, size, k - 1);
        let semi = seq![';'];
        let t = tok(mp.0, mp.1);
        let line = if (k - 1) % 12 == 11 {
            seq!['\n']
        } else {
            Seq::<char>::empty()
        };
        assert(moves_text(plays, size, k) == a + semi + t + line);
        lemma_moves(plays, size, k - 1, key);
        let ka = key_after(a, key);
        lemma_skip_piece(semi, ka);
        lemma_props_append(a, semi, key);
        match play {
            Play::Point(p) => lemma_point_text_plain(p as int, size),
            Play::Pass => {},
        }
        assert(is_upper(mp.0[0]));
        lemma_tok_piece(mp.0, mp.1, ka);
        lemma_props_append(a + semi, t, key);
        lemma_skip_piece(line, mp.0);
        lemma_props_append(a + semi + t, line, key);
        assert(move_pairs(plays, size, k) =~= move_pairs(plays, size, k - 1) + seq![mp]);
        assert(props(semi, ka) =~= Seq::empty());
        assert(props(a + semi + t + line, key) =~= move_pairs(plays, size, k - 1) + seq![mp]);
    }
}

/// A digit's character reads back as the digit.
pub proof fn lemma_digit_char(d: int)
    requires
        0 <= d < 10,
    ensures
        digit_value(digit_char(d)) == Some(d as nat),
        '0' <= digit_char(d) <= '9',
{
}

/// A number written in decimal is a run of digits that reads back as the number.
pub proof fn lemma_decimal(n: nat)
    ensures
        decimal(n).len() >= 1,
        forall|i: int| 0 <= i < decimal(n).len() ==> '0' <= #[trigger] decimal(n)[i] <= '9',
        digits_value(decimal(n)) == Some(n),
    decreases n,
{
    if n < 10 {
        lemma_digit_char(n as int);
    } else {
        lemma_decimal(n / 10);
        lemma_digit_char((n % 10) as int);
        let s = decimal(n);
        assert(s.drop_last() =~= decimal(n / 10));
        assert forall|i: int| 0 <= i < s.len() implies '0' <= #[trigger] s[i] <= '9' by {
            if i < s.len() - 1 {
                assert(s[i] == decimal(n / 10)[i]);
            }
        }
    }
}

/// Digits can stand in brackets, have no white space around them and no colon or point.
pub proof fn lemma_decimal_text(n: nat)
    ensures
        plain_value(decimal(n)),
        trim(decimal(n)) == decimal(n),
        position_of(decimal(n), ':') == decimal(n).len(),
        position_of(decimal(n), '.') == decimal(n).len(),
{
    lemma_decimal(n);
    let s = decimal(n);
    assert(!is_white(s[0]));
    assert(!is_white(s.last()));
    assert(trim_start(s) == s);
    assert(trim_end(s) == s);
    lemma_position_none(s, ':');
    lemma_position_none(s, '.');
}

/// A character that does not occur stands past the end.
proof fn lemma_position_none(s: Seq<char>, c: char)
    requires
        forall|i: int| 0 <= i < s.len() ==> s[i] != c,
    ensures
        position_of(s, c) == s.len(),
    decreases s.len(),
{
    if s.len() > 0 {
        lemma_position_none(s.drop_first(), c);
    }
}

/// Looking past a part without the character looks into the rest.
proof fn lemma_position_append(a: Seq<char>, b: Seq<char>, c: char)
    requires
        forall|i: int| 0 <= i < a.len() ==> a[i] != c,
    ensures
        position_of(a + b, c) == a.len() + position_of(b, c),
    decreases a.len(),
{
    if a.len() == 0 {
        assert(a + b =~= b);
    } else {
        assert((a + b)[0] == a[0]);
        assert((a + b).drop_first() =~= a.drop_first() + b);
        lemma_position_append(a.drop_first(), b, c);
    }
}

/// A board size written in decimal reads back as the size.
pub proof fn lemma_size_text(n: nat)
    requires
        n <= usize::MAX,
    ensures
        parse_unsigned(trim(decimal(n).take(position_of(decimal(n), ':') as int)), usize::MAX as nat)
            == Some(n),
{
    lemma_decimal(n);
    lemma_decimal_text(n);
    let s = decimal(n);
    assert(s.take(s.len() as int) =~= s);
    assert(s[0] != '+');
}

/// Komi written out can stand in brackets and reads back as the same number of tenths.
pub proof fn lemma_komi_text(k: int)
    requires
        i32::MIN <= k <= i32::MAX,
    ensures
        plain_value(komi_text(k)),
        parse_tenths(trim(komi_text(k))) == Some(k),
{
    let a = if k < 0 {
        -k
    } else {
        k
    };
    let w = (a / 10) as nat;
    let dec = decimal(w);
    lemma_decimal(w);
    lemma_decimal_text(w);
    let sign = if k < 0 {
        seq!['-']
    } else {
        Seq::<char>::empty()
    };
    let fraction = if a % 10 == 0 {
        Seq::<char>::empty()
    } else {
        seq!['.', digit_char(a % 10)]
    };
    lemma_digit_char(a % 10);
    let s = komi_text(k);
    assert(s == sign + dec + fraction);
    let body = dec + fraction;
    assert(s =~= sign + body);
    assert forall|i: int| 0 <= i < s.len() implies s[i] != ']' && s[i] != '\\' by {
        if i < sign.len() {
        } else if i < sign.len() + dec.len() {
            assert(s[i] == dec[i - sign.len()]);
        } else {
            assert(s[i] == fraction[i - sign.len() - dec.len()]);
        }
    }
    assert(!is_white(s[0])) by {
        if k >= 0 {
            assert(s[0] == dec[0]);
        }
    }
    assert(!is_white(s.last())) by {
        if a % 10 == 0 {
            assert(s.last() == dec.last());
        }
    }
    assert(trim_start(s) == s);
    assert(trim_end(s) == s);
    if k < 0 {
        assert(s.drop_first() =~= body);
    } else {
        assert(s =~= body);
        assert(s[0] == dec[0]);
    }
    lemma_position_append(dec, fraction, '.');
    let d = position_of(body, '.');
    if a % 10 == 0 {
        assert(fraction =~= Seq::<char>::empty());
        assert(position_of(fraction, '.') == 0);
        assert(body.take(d as int) =~= dec);
    } else {
        assert(position_of(fraction, '.') == 0);
        assert(body.take(d as int) =~= dec);
        assert(body.skip(d + 1int) =~= seq![digit_char(a % 10)]);
        assert(digits_value(seq![digit_char(a % 10)]) == Some((a % 10) as nat));
    }
    assert(digits_or_zero(dec) == Some(w));
}

/// The properties at the start of a record.
pub open spec fn head_pairs(r: RecordModel) -> Seq<(Seq<char>, Seq<char>)> {
    seq![
        ("GM"@, "1"@),
        ("FF"@, "4"@),
        ("CA"@, "UTF-8"@),
        ("AP"@, "go-tui"@),
        ("SZ"@, decimal(r.size as nat)),
        ("KM"@, komi_text(r.komi)),
        ("PB"@, r.black_name),
        ("PW"@, r.white_name),
    ]
}

/// The properties of a whole record, in the order they are written.
pub open spec fn record_pairs(r: RecordModel) -> Seq<(Seq<char>, Seq<char>)> {
    let result = if r.result.len() == 0 {
        Seq::empty()
    } else {
        seq![("RE"@, r.result)]
    };
    let black = if r.setup_black.len() == 0 {
        Seq::empty()
    } else {
        seq![("HA"@, decimal(r.setup_black.len()))] + point_pairs(r.setup_black, r.size, "AB"@)
    };
    let white = if r.setup_white.len() == 0 {
        Seq::empty()
    } else {
        point_pairs(r.setup_white, r.size, "AW"@)
    };
    head_pairs(r) + result + black + white + move_pairs(r.plays, r.size, r.plays.len() as int)
}

/// A property written after text that ends outside any name or value is read after it.
proof fn lemma_cat_tok(a: Seq<char>, k: Seq<char>, v: Seq<char>, key: Seq<char>)
    requires
        ends_top(a, key),
        key_name(k),
        plain_value(v),
    ensures
        props(a + tok(k, v), key) == props(a, key) + seq![(k, v)],
        ends_top(a + tok(k, v), key),
        key_after(a + tok(k, v), key) == k,
{
    lemma_tok_piece(k, v, key_after(a, key));
    lemma_props_append(a, tok(k, v), key);
}

/// The names and fixed values that records are written with.
proof fn lemma_literals()
    ensures
        "GM"@ == seq!['G', 'M'],
        "FF"@ == seq!['F', 'F'],
        "CA"@ == seq!['C', 'A'],
        "AP"@ == seq!['A', 'P'],
        "SZ"@ == seq!['S', 'Z'],
        "KM"@ == seq!['K', 'M'],
        "PB"@ == seq!['P', 'B'],
        "PW"@ == seq!['P', 'W'],
        "RE"@ == seq!['R', 'E'],
        "HA"@ == seq!['H', 'A'],
        "AB"@ == seq!['A', 'B'],
        "AW"@ == seq!['A', 'W'],
        "B"@ == seq!['B'],
        "W"@ == seq!['W'],
        "1"@ == seq!['1'],
        "4"@ == seq!['4'],
        "UTF-8"@ == seq!['U', 'T', 'F', '-', '8'],
        "go-tui"@ == seq!['g', 'o', '-', 't', 'u', 'i'],
{
    reveal_strlit("GM");
    reveal_strlit("FF");
    reveal_strlit("CA");
    reveal_strlit("AP");
    reveal_strlit("SZ");
    reveal_strlit("KM");
    reveal_strlit("PB");
    reveal_strlit("PW");
    reveal_strlit("RE");
    reveal_strlit("HA");
    reveal_strlit("AB");
    reveal_strlit("AW");
    reveal_strlit("B");
    reveal_strlit("W");
    reveal_strlit("1");
    reveal_strlit("4");
    reveal_strlit("UTF-8");
    reveal_strlit("go-tui");
    assert("GM"@ =~= seq!['G', 'M']);
    assert("FF"@ =~= seq!['F', 'F']);
    assert("CA"@ =~= seq!['C', 'A']);
    assert("AP"@ =~= seq!['A', 'P']);
    assert("SZ"@ =~= seq!['S', 'Z']);
    assert("KM"@ =~= seq!['K', 'M']);
    assert("PB"@ =~= seq!['P', 'B']);
    assert("PW"@ =~= seq!['P', 'W']);
    assert("RE"@ =~= seq!['R', 'E']);
    assert("HA"@ =~= seq!['H', 'A']);
    assert("AB"@ =~= seq!['A', 'B']);
    assert("AW"@ =~= seq!['A', 'W']);
    assert("B"@ =~= seq!['B']);
    assert("W"@ =~= seq!['W']);
    assert("1"@ =~= seq!['1']);
    assert("4"@ =~= seq!['4']);
    assert("UTF-8"@ =~= seq!['U', 'T', 'F', '-', '8']);
    assert("go-tui"@ =~= seq!['g', 'o', '-', 't', 'u', 'i']);
}

/// The start of a record written out reads as its first properties.
proof fn lemma_head_props(r: RecordModel)
    requires
        r.size >= 0,
        i32::MIN <= r.komi <= i32::MAX,
        plain_value(r.black_name),
        plain_value(r.white_name),
    ensures
        props(head_text(r), Seq::empty()) == head_pairs(r),
        ends_top(head_text(r), Seq::empty()),
{
    let e = Seq::<char>::empty();
    lemma_literals();
    lemma_decimal_text(r.size as nat);
    lemma_komi_text(r.komi);
    assert(key_name("GM"@));
    assert(key_name("FF"@));
    assert(key_name("CA"@));
    assert(key_name("AP"@));
    assert(key_name("SZ"@));
    assert(key_name("KM"@));
    assert(key_name("PB"@));
    assert(key_name("PW"@));
    assert(plain_value("1"@));
    assert(plain_value("4"@));
    assert(plain_value("UTF-8"@));
    assert(plain_value("go-tui"@));
    let h0 = seq!['(', ';'];
    lemma_skip_piece(h0, e);
    let h1 = h0 + tok("GM"@, "1"@);
    lemma_cat_tok(h0, "GM"@, "1"@, e);
    let h2 = h1 + tok("FF"@, "4"@);
    lemma_cat_tok(h1, "FF"@, "4"@, e);
    let h3 = h2 + tok("CA"@, "UTF-8"@);
    lemma_cat_tok(h2, "CA"@, "UTF-8"@, e);
    let h4 = h3 + tok("AP"@, "go-tui"@);
    lemma_cat_tok(h3, "AP"@, "go-tui"@, e);
    let h5 = h4 + tok("SZ"@, decimal(r.size as nat));
    lemma_cat_tok(h4, "SZ"@, decimal(r.size as nat), e);
    let h6 = h5 + tok("KM"@, komi_text(r.komi));
    lemma_cat_tok(h5, "KM"@, komi_text(r.komi), e);
    let h7 = h6 + tok("PB"@, r.black_name);
    lemma_cat_tok(h6, "PB"@, r.black_name, e);
    let h8 = h7 + tok("PW"@, r.white_name);
    lemma_cat_tok(h7, "PW"@, r.white_name, e);
    assert(h8 == head_text(r));
    assert(props(h8, e) =~= head_pairs(r));
}

/// A record written out reads as its properties, in order, when its names and result can stand
/// in brackets.
pub proof fn lemma_record_props(r: RecordModel)
    requires
        r.size >= 0,
        i32::MIN <= r.komi <= i32::MAX,
        plain_value(r.black_name),
        plain_value(r.white_name),
        plain_value(r.result),
    ensures
        props(record_text(r), Seq::empty()) == record_pairs(r),
{
    let e = Seq::<char>::empty();
    lemma_head_props(r);
    let h8 = head_text(r);
    let x1 = h8 + result_text(r);
    if r.result.len() == 0 {
        assert(x1 =~= h8);
    } else {
        lemma_literals();
        assert(key_name("RE"@));
        lemma_cat_tok(h8, "RE"@, r.result, e);
    }
    let x2 = x1 + black_text(r);
    if r.setup_black.len() == 0 {
        assert(x2 =~= x1);
    } else {
        lemma_literals();
        assert(key_name("HA"@));
        assert(key_name("AB"@));
        let n = decimal(r.setup_black.len());
        lemma_decimal_text(r.setup_black.len());
        lemma_cat_tok(x1, "HA"@, n, e);
        let y = x1 + tok("HA"@, n);
        let list = "AB"@ + point_list_text(r.setup_black, r.size);
        assert(x2 =~= y + list);
        lemma_keyed_list("AB"@, r.setup_black, r.size, key_after(y, e));
        lemma_props_append(y, list, e);
    }
    let x3 = x2 + white_text(r);
    if r.setup_white.len() == 0 {
        assert(x3 =~= x2);
    } else {
        lemma_literals();
        assert(key_name("AW"@));
        let list = "AW"@ + point_list_text(r.setup_white, r.size);
        lemma_keyed_list("AW"@, r.setup_white, r.size, key_after(x2, e));
        lemma_props_append(x2, list, e);
    }
    let x4 = x3 + seq!['\n'];
    lemma_skip_piece(seq!['\n'], key_after(x3, e));
    lemma_props_append(x3, seq!['\n'], e);
    let mv = moves_text(r.plays, r.size, r.plays.len() as int);
    let x5 = x4 + mv;
    lemma_moves(r.plays, r.size, r.plays.len() as int, key_after(x4, e));
    lemma_props_append(x4, mv, e);
    let x6 = x5 + seq![')', '\n'];
    lemma_skip_piece(seq![')', '\n'], key_after(x5, e));
    lemma_props_append(x5, seq![')', '\n'], e);
    assert(x6 == record_text(r));
    assert(props(x6, e) =~= record_pairs(r));
}

/// Reading two runs of properties is reading one, then the other.
proof fn lemma_fold_append(
    m: RecordModel,
    a: Seq<(Seq<char>, Seq<char>)>,
    b: Seq<(Seq<char>, Seq<char>)>,
)
    ensures
        fold_props(m, a + b) == fold_props(fold_props(m, a), b),
    decreases a.len(),
{
    if a.len() == 0 {
        assert(a + b =~= b);
    } else {
        assert((a + b)[0] == a[0]);
        assert((a + b).drop_first() =~= a.drop_first() + b);
        lemma_fold_append(apply_prop(m, a[0].0, a[0].1), a.drop_first(), b);
    }
}

/// Reading one more property applies it last.
proof fn lemma_fold_push(m: RecordModel, a: Seq<(Seq<char>, Seq<char>)>, x: (Seq<char>, Seq<char>))
    ensures
        fold_props(m, a.push(x)) == apply_prop(fold_props(m, a), x.0, x.1),
{
    assert(a.push(x) =~= a + seq![x]);
    lemma_fold_append(m, a, seq![x]);
    let m1 = fold_props(m, a);
    let one = seq![x];
    assert(one[0] == x);
    assert(one.drop_first() =~= Seq::<(Seq<char>, Seq<char>)>::empty());
    assert(fold_props(m1, one) == fold_props(apply_prop(m1, x.0, x.1), one.drop_first()));
    assert(fold_props(apply_prop(m1, x.0, x.1), Seq::<(Seq<char>, Seq<char>)>::empty())
        == apply_prop(m1, x.0, x.1));
}

/// The first value of a name in two runs is found in the first run when it is there.
proof fn lemma_first_append(
    a: Seq<(Seq<char>, Seq<char>)>,
    b: Seq<(Seq<char>, Seq<char>)>,
    name: Seq<char>,
)
    ensures
        first_value(a + b, name) == match first_value(a, name) {
            Some(v) => Some(v),
            None => first_value(b, name),
        },
    decreases a.len(),
{
    if a.len() == 0 {
        assert(a + b =~= b);
    } else {
        assert((a + b)[0] == a[0]);
        assert((a + b).drop_first() =~= a.drop_first() + b);
        lemma_first_append(a.drop_first(), b, name);
    }
}

/// Reading the set-up points back adds them to the record's set-up stones.
proof fn lemma_fold_points(m: RecordModel, pts: Seq<usize>, black: bool)
    requires
        0 < m.size <= 25,
        forall|i: int| 0 <= i < pts.len() ==> pts[i] < m.size * m.size,
    ensures
        fold_props(m, point_pairs(pts, m.size, if black { "AB"@ } else { "AW"@ })) == (if black {
            RecordModel { setup_black: m.setup_black + pts, ..m }
        } else {
            RecordModel { setup_white: m.setup_white + pts, ..m }
        }),
    decreases pts.len(),
{
    let key = if black {
        "AB"@
    } else {
        "AW"@
    };
    lemma_literals();
    if pts.len() == 0 {
        assert(point_pairs(pts, m.size, key) =~= Seq::empty());
        assert(m.setup_black + pts =~= m.setup_black);
        assert(m.setup_white + pts =~= m.setup_white);
    } else {
        let last = pts.last();
        let x = (key, sgf_point_text(last as int, m.size));
        assert(point_pairs(pts, m.size, key) =~= point_pairs(pts.drop_last(), m.size, key).push(x));
        lemma_fold_points(m, pts.drop_last(), black);
        lemma_fold_push(m, point_pairs(pts.drop_last(), m.size, key), x);
        lemma_point_text(last as int, m.size);
        assert(m.setup_black + pts =~= (m.setup_black + pts.drop_last()).push(last));
        assert(m.setup_white + pts =~= (m.setup_white + pts.drop_last()).push(last));
        assert(key[0] == 'A');
    }
}

/// Reading the moves back adds them to the record's moves.
proof fn lemma_fold_moves(m: RecordModel, plays: Seq<(Stone, Play)>, k: int)
    requires
        0 < m.size <= 25,
        0 <= k <= plays.len(),
        forall|i: int|
            0 <= i < k ==> (#[trigger] plays[i]).0 != Stone::Empty && (plays[i].1 matches Play::Point(
                p,
            ) ==> p < m.size * m.size),
    ensures
        fold_props(m, move_pairs(plays, m.size, k)) == (RecordModel {
            plays: m.plays + plays.take(k),
            ..m
        }),
    decreases k,
{
    lemma_literals();
    if k == 0 {
        assert(move_pairs(plays, m.size, k) =~= Seq::empty());
        assert(m.plays + plays.take(k) =~= m.plays);
    } else {
        let mv = plays[k - 1];
        let x = move_pair(mv, m.size);
        assert(move_pairs(plays, m.size, k) =~= move_pairs(plays, m.size, k - 1).push(x));
        lemma_fold_moves(m, plays, k - 1);
        lemma_fold_push(m, move_pairs(plays, m.size, k - 1), x);
        let prev = fold_props(m, move_pairs(plays, m.size, k - 1));
        match mv.1 {
            Play::Point(p) => {
                lemma_point_text(p as int, m.size);
            },
            Play::Pass => {
                assert(sgf_point(x.1, prev.size) is None);
            },
        }
        assert(m.plays + plays.take(k) =~= (m.plays + plays.take(k - 1)).push(mv));
        assert(x.0.len() == 1);
        assert(x.0 != "PB"@ && x.0 != "PW"@ && x.0 != "RE"@ && x.0 != "AB"@ && x.0 != "AW"@);
        if mv.0 == Stone::Black {
            assert(x.0 == "B"@);
        } else {
            assert(x.0[0] == 'W');
            assert(x.0 != "B"@);
            assert(x.0 == "W"@);
        }
        assert(apply_prop(prev, x.0, x.1) == (RecordModel { plays: prev.plays.push(mv), ..prev }));
    }
}

/// A game record written in SGF reads back as the same record, when its board is 5 to 25
/// points wide, its points lie on the board, its moves are by Black or White, its names and
/// result hold no closing bracket and no backslash, and it has a move or a black set-up stone.
pub proof fn lemma_write_then_read(r: RecordModel)
    requires
        5 <= r.size <= 25,
        i32::MIN <= r.komi <= i32::MAX,
        points_on_board(r),
        forall|i: int| 0 <= i < r.plays.len() ==> (#[trigger] r.plays[i]).0 != Stone::Empty,
        plain_value(r.black_name),
        plain_value(r.white_name),
        plain_value(r.result),
        r.plays.len() > 0 || r.setup_black.len() > 0,
    ensures
        read_model(record_text(r)) == Some(r),
{
    lemma_literals();
    lemma_record_props(r);
    let ps = record_pairs(r);
    let hp = head_pairs(r);
    let rest = ps.subrange(8, ps.len() as int);
    assert(ps =~= hp + rest);
    lemma_first_append(hp, rest, "SZ"@);
    lemma_first_append(hp, rest, "KM"@);
    assert(first_value(hp, "SZ"@) == Some(decimal(r.size as nat))) by {
        reveal_with_fuel(first_value, 6);
    }
    assert(first_value(hp, "KM"@) == Some(komi_text(r.komi))) by {
        reveal_with_fuel(first_value, 7);
    }
    lemma_size_text(r.size as nat);
    lemma_komi_text(r.komi);
    assert(size_in(ps) == r.size);
    assert(komi_in(ps) == r.komi);
    let m0 = new_model(r.size, r.komi);
    let m1 = RecordModel { black_name: r.black_name, white_name: r.white_name, ..m0 };
    assert(fold_props(m0, hp) == m1) by {
        reveal_with_fuel(fold_props, 9);
    }
    let result = if r.result.len() == 0 {
        Seq::empty()
    } else {
        seq![("RE"@, r.result)]
    };
    let black = if r.setup_black.len() == 0 {
        Seq::empty()
    } else {
        seq![("HA"@, decimal(r.setup_black.len()))] + point_pairs(r.setup_black, r.size, "AB"@)
    };
    let white = if r.setup_white.len() == 0 {
        Seq::empty()
    } else {
        point_pairs(r.setup_white, r.size, "AW"@)
    };
    let moves = move_pairs(r.plays, r.size, r.plays.len() as int);
    assert(ps == hp + result + black + white + moves);
    lemma_fold_append(m0, hp, result);
    lemma_fold_append(m0, hp + result, black);
    lemma_fold_append(m0, hp + result + black, white);
    lemma_fold_append(m0, hp + result + black + white, moves);
    let m2 = RecordModel { result: r.result, ..m1 };
    assert(fold_props(m1, result) == m2) by {
        if r.result.len() == 0 {
            assert(m1.result =~= r.result);
        } else {
            reveal_with_fuel(fold_props, 2);
        }
    }
    let m3 = RecordModel { setup_black: r.setup_black, ..m2 };
    assert(fold_props(m2, black) == m3) by {
        if r.setup_black.len() == 0 {
            assert(m2.setup_black =~= r.setup_black);
        } else {
            let ha = seq![("HA"@, decimal(r.setup_black.len()))];
            lemma_fold_append(m2, ha, point_pairs(r.setup_black, r.size, "AB"@));
            assert(fold_props(m2, ha) == m2) by {
                reveal_with_fuel(fold_props, 2);
            }
            lemma_fold_points(m2, r.setup_black, true);
            assert(m2.setup_black + r.setup_black =~= r.setup_black);
        }
    }
    let m4 = RecordModel { setup_white: r.setup_white, ..m3 };
    assert(fold_props(m3, white) == m4) by {
        if r.setup_white.len() == 0 {
            assert(m3.setup_white =~= r.setup_white);
        } else {
            lemma_fold_points(m3, r.setup_white, false);
            assert(m3.setup_white + r.setup_white =~= r.setup_white);
        }
    }
    lemma_fold_moves(m4, r.plays, r.plays.len() as int);
    assert(m4.plays + r.plays.take(r.plays.len() as int) =~= r.plays);
    let m5 = RecordModel { plays: r.plays, ..m4 };
    assert(fold_props(m0, ps) == m5);
    assert(m5 == r);
}


/// A point that SGF text names lies on the board.
pub proof fn lemma_sgf_point_on_board(v: Seq<char>, size: int)
    requires
        size >= 1,
    ensures
        sgf_point(v, size) matches Some(p) ==> 0 <= p < size * size,
{
    if let Some(p) = sgf_point(v, size) {
        let col = letter_index(v[0]).unwrap();
        let row = letter_index(v[1]).unwrap();
        assert(0 <= row * size + col < size * size) by (nonlinear_arith)
            requires
                0 <= row < size,
                0 <= col < size,
        ;
    }
}

/// One property keeps the board size and keeps every named point on the board.
proof fn lemma_apply_on_board(m: RecordModel, key: Seq<char>, value: Seq<char>)
    requires
        m.size >= 1,
        points_on_board(m),
    ensures
        apply_prop(m, key, value).size == m.size,
        points_on_board(apply_prop(m, key, value)),
{
    lemma_sgf_point_on_board(value, m.size);
    let n = apply_prop(m, key, value);
    assert forall|i: int| 0 <= i < n.plays.len() implies ((#[trigger] n.plays[i]).1 matches Play::Point(
        p,
    ) ==> p < n.size * n.size) by {
        if i < m.plays.len() {
            assert(n.plays[i] == m.plays[i]);
        }
    }
}

/// Properties read one after the other keep the board size and every named point on it.
proof fn lemma_fold_on_board(m: RecordModel, ps: Seq<(Seq<char>, Seq<char>)>)
    requires
        m.size >= 1,
        points_on_board(m),
    ensures
        fold_props(m, ps).size == m.size,
        points_on_board(fold_props(m, ps)),
    decreases ps.len(),
{
    if ps.len() > 0 {
        lemma_apply_on_board(m, ps[0].0, ps[0].1);
        lemma_fold_on_board(apply_prop(m, ps[0].0, ps[0].1), ps.drop_first());
    }
}

/// A record read from text is for a board 5 to 25 wide, and every set-up stone and move it
/// holds lies on that board.
pub proof fn lemma_read_on_board(text: Seq<char>)
    ensures
        read_model(text) matches Some(m) ==> 5 <= m.size <= 25 && points_on_board(m),
{
    let ps = props(text, Seq::empty());
    let size = size_in(ps);
    if !(ps.len() == 0 || size < 5 || size > 25) {
        lemma_fold_on_board(new_model(size, komi_in(ps)), ps);
    }
}

} // verus!
