//! What reading gives back of the settings written out.
use vstd::prelude::*;
use crate::config::{ConfigModel, apply_line, apply_lines, config_text, default_config, lines_of};
use crate::record_laws::{lemma_decimal, lemma_komi_text};
use crate::sgf::komi_text;
use crate::text::{
    decimal, digit_char, is_white, parse_tenths, parse_unsigned, position_of, trim, trim_end,
    trim_start, lemma_position_of,
};

verus! {

/// Whether `s` holds no line break.
pub open spec fn one_line(s: Seq<char>) -> bool {
    forall|i: int| 0 <= i < s.len() ==> s[i] != '\n'
}

/// Whether `s` has no white space at either end.
pub open spec fn tight(s: Seq<char>) -> bool {
    s.len() == 0 || (!is_white(s[0]) && !is_white(s.last()))
}

/// Whether `name` can name a setting: one line, not empty, without `=`, not starting with
/// `#`, and without white space at its ends.
pub open spec fn setting_name(name: Seq<char>) -> bool {
    &&& name.len() > 0
    &&& one_line(name)
    &&& forall|i: int| 0 <= i < name.len() ==> name[i] != '='
    &&& name[0] != '#'
    &&& tight(name)
}

/// The first `c` in `s` stands at `k` when `s[k]` is `c` and nothing before is.
proof fn lemma_first_at(s: Seq<char>, c: char, k: int)
    requires
        0 <= k < s.len(),
        s[k] == c,
        forall|j: int| 0 <= j < k ==> s[j] != c,
    ensures
        position_of(s, c) == k,
{
    lemma_position_of(s, c);
    if position_of(s, c) < k {
        assert(s[position_of(s, c) as int] == c);
    }
    if position_of(s, c) > k {
        assert(s[k] != c);
    }
}

/// White space is not dropped from an end that has none.
proof fn lemma_trim_tight(s: Seq<char>)
    requires
        tight(s),
    ensures
        trim(s) == s,
        trim_start(s) == s,
        trim_end(s) == s,
{
}

/// A line `name = v` reads as the setting `name` with the value `v`.
proof fn lemma_setting_line(name: Seq<char>, v: Seq<char>)
    requires
        setting_name(name),
        one_line(v),
        tight(v),
    ensures
        ({
            let line = trim(name + " = "@ + v);
            let eq = position_of(line, '=');
            &&& line.len() > 0
            &&& line[0] != '#'
            &&& eq < line.len()
            &&& trim(line.take(eq as int)) == name
            &&& trim(line.skip(eq + 1int)) == v
        }),
{
    reveal_strlit(" = ");
    let raw = name + " = "@ + v;
    let head = name + seq![' ', '='];
    assert(raw[0] == name[0]);
    assert(trim_start(raw) == raw);
    if v.len() == 0 {
        assert(raw.drop_last() =~= head);
        assert(trim_end(head) == head);
    } else {
        assert(raw.last() == v.last());
        assert(trim_end(raw) == raw);
        assert(raw =~= head + seq![' '] + v);
    }
    let line = trim(raw);
    assert(line.len() >= head.len());
    assert forall|j: int| 0 <= j < head.len() implies line[j] == head[j] by {
        if v.len() == 0 {
            assert(line =~= head);
        }
    }
    let n = name.len() as int;
    assert forall|j: int| 0 <= j < n + 1 implies line[j] != '=' by {
        assert(line[j] == head[j]);
    }
    lemma_first_at(line, '=', n + 1);
    let key = line.take(n + 1);
    assert(key =~= name.push(' '));
    assert(key[0] == name[0]);
    assert(trim_start(key) == key);
    assert(key.drop_last() =~= name);
    assert(trim_end(key) == trim_end(name));
    lemma_trim_tight(name);
    let rest = line.skip(n + 2);
    if v.len() == 0 {
        assert(line =~= head);
        assert(rest =~= Seq::<char>::empty());
    } else {
        assert(line =~= head + seq![' '] + v);
        assert(rest =~= seq![' '] + v);
        assert(rest.drop_first() =~= v);
        assert(trim_start(rest) == trim_start(v));
        lemma_trim_tight(v);
    }
}

/// Lines split at the first line break.
proof fn lemma_lines_step(a: Seq<char>, b: Seq<char>)
    requires
        one_line(a),
    ensures
        lines_of(a + seq!['\n'] + b) == seq![a] + lines_of(b),
{
    let s = a + seq!['\n'] + b;
    assert forall|j: int| 0 <= j < a.len() implies s[j] != '\n' by {
        assert(s[j] == a[j]);
    }
    lemma_first_at(s, '\n', a.len() as int);
    assert(s.take(a.len() as int) =~= a);
    assert(s.skip(a.len() + 1int) =~= b);
}

/// Digits are no white space, no line break and no `=`.
proof fn lemma_decimal_line(n: nat)
    ensures
        one_line(decimal(n)),
        tight(decimal(n)),
        parse_unsigned(decimal(n), n) == Some(n),
{
    lemma_decimal(n);
    let s = decimal(n);
    assert(s[0] != '+');
}

/// Komi written out is one line without white space at its ends.
proof fn lemma_komi_line(k: int)
    requires
        i32::MIN <= k <= i32::MAX,
    ensures
        one_line(komi_text(k)),
        tight(komi_text(k)),
        parse_tenths(komi_text(k)) == Some(k),
{
    lemma_komi_text(k);
    let a = if k < 0 {
        -k
    } else {
        k
    };
    let w = (a / 10) as nat;
    lemma_decimal(w);
    let sign = if k < 0 {
        seq!['-']
    } else {
        Seq::<char>::empty()
    };
    let fraction = if a % 10 == 0 {
        Seq::<char>::empty()
    } else {
        seq!['.', digit_char(a % 10)]
    };
    let t = komi_text(k);
    assert(t =~= sign + decimal(w) + fraction);
    assert forall|i: int| 0 <= i < t.len() implies t[i] != '\n' && !is_white(t[i]) by {
        if i < sign.len() {
            assert(t[i] == '-');
        } else if i < sign.len() + decimal(w).len() {
            assert(t[i] == decimal(w)[i - sign.len()]);
        } else {
            assert(t[i] == fraction[i - sign.len() - decimal(w).len()]);
        }
    }
    assert(!is_white(t[0]));
    assert(!is_white(t[t.len() - 1]));
    lemma_trim_tight(t);
}

/// The line that gives setting `name` the value `v`.
pub open spec fn setting_line(name: Seq<char>, v: Seq<char>) -> Seq<char> {
    name + " = "@ + v
}

/// The value shown for whether the evaluation bar is shown.
pub open spec fn flag_text(b: bool) -> Seq<char> {
    if b {
        "true"@
    } else {
        "false"@
    }
}

/// The settings file holds one line for each setting, then nothing.
#[verifier::rlimit(100)]
proof fn lemma_text_lines(c: ConfigModel)
    requires
        one_line(c.engine_command),
    ensures
        lines_of(config_text(c)) == seq![
            setting_line("theme"@, decimal(c.theme as nat)),
            setting_line("board_size"@, decimal(c.board_size as nat)),
            setting_line("level"@, decimal(c.level as nat)),
            setting_line("komi"@, komi_text(c.komi as int)),
            setting_line("engine_command"@, c.engine_command),
            setting_line("show_eval"@, flag_text(c.show_eval)),
            Seq::<char>::empty(),
        ],
{
    reveal_strlit("theme");
    reveal_strlit("board_size");
    reveal_strlit("level");
    reveal_strlit("komi");
    reveal_strlit("engine_command");
    reveal_strlit("show_eval");
    reveal_strlit("true");
    reveal_strlit("false");
    reveal_strlit(" = ");
    reveal_strlit("theme = ");
    reveal_strlit("\nboard_size = ");
    reveal_strlit("\nlevel = ");
    reveal_strlit("\nkomi = ");
    reveal_strlit("\nengine_command = ");
    reveal_strlit("\nshow_eval = ");
    reveal_strlit("\n");
    let l1 = setting_line("theme"@, decimal(c.theme as nat));
    let l2 = setting_line("board_size"@, decimal(c.board_size as nat));
    let l3 = setting_line("level"@, decimal(c.level as nat));
    let l4 = setting_line("komi"@, komi_text(c.komi as int));
    let l5 = setting_line("engine_command"@, c.engine_command);
    let l6 = setting_line("show_eval"@, flag_text(c.show_eval));
    let nl = seq!['\n'];
    let e = Seq::<char>::empty();
    assert(config_text(c) =~= l1 + nl + (l2 + nl + (l3 + nl + (l4 + nl + (l5 + nl + (l6 + nl
        + e))))));
    lemma_decimal_line(c.theme as nat);
    lemma_decimal_line(c.board_size as nat);
    lemma_decimal_line(c.level as nat);
    lemma_komi_line(c.komi as int);
    assert(one_line(l1));
    assert(one_line(l2));
    assert(one_line(l3));
    assert(one_line(l4));
    assert(one_line(l5));
    assert(one_line(l6));
    lemma_lines_step(l6, e);
    lemma_lines_step(l5, l6 + nl + e);
    lemma_lines_step(l4, l5 + nl + (l6 + nl + e));
    lemma_lines_step(l3, l4 + nl + (l5 + nl + (l6 + nl + e)));
    lemma_lines_step(l2, l3 + nl + (l4 + nl + (l5 + nl + (l6 + nl + e))));
    lemma_lines_step(l1, l2 + nl + (l3 + nl + (l4 + nl + (l5 + nl + (l6 + nl + e)))));
    assert(lines_of(e) == seq![e]);
}

/// The line of a setting read over settings `x` sets that setting and nothing else.
proof fn lemma_each_line(x: ConfigModel, c: ConfigModel)
    requires
        one_line(c.engine_command),
        tight(c.engine_command),
    ensures
        apply_line(x, setting_line("theme"@, decimal(c.theme as nat))) == (ConfigModel {
            theme: c.theme,
            ..x
        }),
        apply_line(x, setting_line("board_size"@, decimal(c.board_size as nat))) == (ConfigModel {
            board_size: c.board_size,
            ..x
        }),
        apply_line(x, setting_line("level"@, decimal(c.level as nat))) == (ConfigModel {
            level: c.level,
            ..x
        }),
        apply_line(x, setting_line("komi"@, komi_text(c.komi as int))) == (ConfigModel {
            komi: c.komi,
            ..x
        }),
        apply_line(x, setting_line("engine_command"@, c.engine_command)) == (ConfigModel {
            engine_command: c.engine_command,
            ..x
        }),
        apply_line(x, setting_line("show_eval"@, flag_text(c.show_eval))) == (ConfigModel {
            show_eval: c.show_eval,
            ..x
        }),
        apply_line(x, Seq::empty()) == x,
{
    reveal_strlit("theme");
    reveal_strlit("board_size");
    reveal_strlit("level");
    reveal_strlit("komi");
    reveal_strlit("engine_command");
    reveal_strlit("show_eval");
    reveal_strlit("true");
    reveal_strlit("false");
    lemma_decimal_line(c.theme as nat);
    lemma_decimal_line(c.board_size as nat);
    lemma_decimal_line(c.level as nat);
    lemma_komi_line(c.komi as int);
    assert(setting_name("theme"@));
    assert(setting_name("board_size"@));
    assert(setting_name("level"@));
    assert(setting_name("komi"@));
    assert(setting_name("engine_command"@));
    assert(setting_name("show_eval"@));
    assert(one_line(flag_text(c.show_eval)) && tight(flag_text(c.show_eval)));
    lemma_setting_line("theme"@, decimal(c.theme as nat));
    lemma_setting_line("board_size"@, decimal(c.board_size as nat));
    lemma_setting_line("level"@, decimal(c.level as nat));
    lemma_setting_line("komi"@, komi_text(c.komi as int));
    lemma_setting_line("engine_command"@, c.engine_command);
    lemma_setting_line("show_eval"@, flag_text(c.show_eval));
    assert(parse_unsigned(decimal(c.theme as nat), usize::MAX as nat) == Some(c.theme as nat));
    assert(parse_unsigned(decimal(c.board_size as nat), usize::MAX as nat) == Some(
        c.board_size as nat,
    ));
    assert(parse_unsigned(decimal(c.level as nat), u8::MAX as nat) == Some(c.level as nat));
}

/// Settings written out and read back over the defaults are the same settings, when the
/// engine command is one line with no white space at its ends.
#[verifier::rlimit(100)]
pub proof fn lemma_save_then_load(c: ConfigModel)
    requires
        one_line(c.engine_command),
        tight(c.engine_command),
    ensures
        apply_lines(default_config(), lines_of(config_text(c))) == c,
{
    lemma_text_lines(c);
    let e = Seq::<char>::empty();
    let l1 = setting_line("theme"@, decimal(c.theme as nat));
    let l2 = setting_line("board_size"@, decimal(c.board_size as nat));
    let l3 = setting_line("level"@, decimal(c.level as nat));
    let l4 = setting_line("komi"@, komi_text(c.komi as int));
    let l5 = setting_line("engine_command"@, c.engine_command);
    let l6 = setting_line("show_eval"@, flag_text(c.show_eval));
    let c0 = default_config();
    let c1 = ConfigModel { theme: c.theme, ..c0 };
    let c2 = ConfigModel { board_size: c.board_size, ..c1 };
    let c3 = ConfigModel { level: c.level, ..c2 };
    let c4 = ConfigModel { komi: c.komi, ..c3 };
    let c5 = ConfigModel { engine_command: c.engine_command, ..c4 };
    let c6 = ConfigModel { show_eval: c.show_eval, ..c5 };
    lemma_each_line(c0, c);
    lemma_each_line(c1, c);
    lemma_each_line(c2, c);
    lemma_each_line(c3, c);
    lemma_each_line(c4, c);
    lemma_each_line(c5, c);
    lemma_each_line(c6, c);
    let s7 = seq![l1, l2, l3, l4, l5, l6, e];
    assert(s7.drop_first() =~= seq![l2, l3, l4, l5, l6, e]);
    assert(seq![l2, l3, l4, l5, l6, e].drop_first() =~= seq![l3, l4, l5, l6, e]);
    assert(seq![l3, l4, l5, l6, e].drop_first() =~= seq![l4, l5, l6, e]);
    assert(seq![l4, l5, l6, e].drop_first() =~= seq![l5, l6, e]);
    assert(seq![l5, l6, e].drop_first() =~= seq![l6, e]);
    assert(seq![l6, e].drop_first() =~= seq![e]);
    assert(seq![e].drop_first() =~= Seq::<Seq<char>>::empty());
    assert(apply_lines(c6, Seq::<Seq<char>>::empty()) == c6);
    assert(seq![e][0] == e);
    assert(apply_lines(c6, seq![e]) == c6);
    assert(apply_lines(c5, seq![l6, e]) == c6);
    assert(apply_lines(c4, seq![l5, l6, e]) == c6);
    assert(apply_lines(c3, seq![l4, l5, l6, e]) == c6);
    assert(apply_lines(c2, seq![l3, l4, l5, l6, e]) == c6);
    assert(apply_lines(c1, seq![l2, l3, l4, l5, l6, e]) == c6);
    assert(apply_lines(c0, s7) == c6);
}

} // verus!
