//! The settings kept between runs, and the text they are kept in.
use vstd::prelude::*;
use crate::text::{
    chars_of, trim_chars, string_of, trim, parse_tenths, parse_komi, parse_unsigned, parse_number,
    position_of, find_char, slice_chars, push_char, push_decimal, decimal,
};
use crate::sgf::{komi_text, push_komi};

verus! {

/// The settings: the colours, the board size, the engine's strength, komi in tenths of a
/// point, the command that starts an engine, and whether the evaluation bar is shown.
pub struct Config {
    pub theme: usize,
    pub board_size: usize,
    pub level: u8,
    pub komi: i32,
    pub engine_command: String,
    pub show_eval: bool,
}

/// The settings as plain values.
pub struct ConfigModel {
    pub theme: usize,
    pub board_size: usize,
    pub level: u8,
    pub komi: i32,
    pub engine_command: Seq<char>,
    pub show_eval: bool,
}

impl View for Config {
    type V = ConfigModel;

    open spec fn view(&self) -> ConfigModel {
        ConfigModel {
            theme: self.theme,
            board_size: self.board_size,
            level: self.level,
            komi: self.komi,
            engine_command: self.engine_command@,
            show_eval: self.show_eval,
        }
    }
}

/// The settings before anything is changed: the first colours, a 19 by 19 board, strength 8,
/// six and a half points of komi, GNU Go as the engine and the evaluation bar shown.
pub open spec fn default_config() -> ConfigModel {
    ConfigModel {
        theme: 0,
        board_size: 19,
        level: 8,
        komi: 65,
        engine_command: "gnugo --mode gtp"@,
        show_eval: true,
    }
}

impl Default for Config {
    fn default() -> (c: Config)
        ensures
            c@ == default_config(),
    {
        Config {
            theme: 0,
            board_size: 19,
            level: 8,
            komi: 65,
            engine_command: String::from_str("gnugo --mode gtp"),
            show_eval: true,
        }
    }
}

/// The lines of `s`: the pieces between line breaks, the last one after the last break.
pub open spec fn lines_of(s: Seq<char>) -> Seq<Seq<char>>
    decreases s.len(),
{
    let n = position_of(s, '\n');
    if n >= s.len() {
        seq![s]
    } else {
        seq![s.take(n as int)] + lines_of(s.skip(n + 1int))
    }
}

/// What one line of the settings file does to the settings `c`: a line that is empty or starts
/// with `#` after white space is dropped, and so is one without `=`; otherwise the name before
/// the first `=` and the value after it, white space around both dropped, set the setting of
/// that name when the value can be read, and change nothing otherwise.
pub open spec fn apply_line(c: ConfigModel, raw: Seq<char>) -> ConfigModel {
    let line = trim(raw);
    let eq = position_of(line, '=');
    if line.len() == 0 || line[0] == '#' || eq >= line.len() {
        c
    } else {
        let key = trim(line.take(eq as int));
        let value = trim(line.skip(eq + 1int));
        if key == "theme"@ {
            match parse_unsigned(value, usize::MAX as nat) {
                Some(v) => ConfigModel { theme: v as usize, ..c },
                None => c,
            }
        } else if key == "board_size"@ {
            match parse_unsigned(value, usize::MAX as nat) {
                Some(v) => ConfigModel { board_size: v as usize, ..c },
                None => c,
            }
        } else if key == "level"@ {
            match parse_unsigned(value, u8::MAX as nat) {
                Some(v) => ConfigModel { level: v as u8, ..c },
                None => c,
            }
        } else if key == "komi"@ {
            match parse_tenths(value) {
                Some(v) => ConfigModel { komi: v as i32, ..c },
                None => c,
            }
        } else if key == "engine_command"@ {
            ConfigModel { engine_command: value, ..c }
        } else if key == "show_eval"@ {
            ConfigModel { show_eval: value == "true"@, ..c }
        } else {
            c
        }
    }
}

/// The settings that lines `ls` make of `c`, one line after the other.
pub open spec fn apply_lines(c: ConfigModel, ls: Seq<Seq<char>>) -> ConfigModel
    decreases ls.len(),
{
    if ls.len() == 0 {
        c
    } else {
        apply_lines(apply_line(c, ls[0]), ls.drop_first())
    }
}

/// The settings file written out: one `name = value` line for each setting.
pub open spec fn config_text(c: ConfigModel) -> Seq<char> {
    "theme = "@ + decimal(c.theme as nat) + "\nboard_size = "@ + decimal(c.board_size as nat)
        + "\nlevel = "@ + decimal(c.level as nat) + "\nkomi = "@ + komi_text(c.komi as int)
        + "\nengine_command = "@ + c.engine_command + "\nshow_eval = "@ + (if c.show_eval {
        "true"@
    } else {
        "false"@
    }) + "\n"@
}

/// Whether `a` is `b`, character by character.
fn same_chars(a: &Vec<char>, b: &str) -> (r: bool)
    ensures
        r == (a@ == b@),
{
    let s = string_of(a);
    let t = String::from_str(b);
    s == t
}

impl Config {
    /// The settings that the text of a settings file gives, starting from the defaults: see
    /// `apply_line`.
    pub fn from_text(text: &str) -> (c: Config)
        ensures
            c@ == apply_lines(default_config(), lines_of(text@)),
    {
        let mut config = Config::default();
        let v = chars_of(text);
        let ghost s = v@;
        let mut start: usize = 0;
        proof {
            assert(s.skip(0) =~= s);
        }
        loop
            invariant
                v@ == s,
                s == text@,
                0 <= start <= s.len(),
                apply_lines(default_config(), lines_of(s)) == apply_lines(
                    config@,
                    lines_of(s.skip(start as int)),
                ),
            ensures
                apply_lines(default_config(), lines_of(s)) == config@,
            decreases s.len() - start,
        {
            let rest = slice_chars(&v, start, v.len());
            proof {
                assert(rest@ =~= s.skip(start as int));
            }
            let n = find_char(&rest, '\n');
            proof {
                crate::text::lemma_position_of(rest@, '\n');
            }
            let raw = slice_chars(&rest, 0, n);
            proof {
                assert(raw@ =~= rest@.take(n as int));
                let ls = lines_of(rest@);
                if n >= rest@.len() {
                    assert(ls == seq![rest@]);
                } else {
                    assert(ls == seq![rest@.take(n as int)] + lines_of(rest@.skip(n + 1int)));
                    assert(rest@.skip(n + 1int) =~= s.skip(start + n + 1));
                }
                assert(ls[0] == raw@);
            }
            let ghost before = config@;
            config.apply(&raw);
            proof {
                let ls = lines_of(rest@);
                assert(ls.drop_first() == if n >= rest@.len() {
                    Seq::<Seq<char>>::empty()
                } else {
                    lines_of(s.skip(start + n + 1))
                }) by {
                    if n >= rest@.len() {
                        assert(seq![rest@].drop_first() =~= Seq::<Seq<char>>::empty());
                    } else {
                        assert((seq![rest@.take(n as int)] + lines_of(rest@.skip(n + 1int))).drop_first()
                            =~= lines_of(rest@.skip(n + 1int)));
                    }
                }
            }
            if n >= rest.len() {
                proof {
                    let e = Seq::<Seq<char>>::empty();
                    assert(apply_lines(config@, e) == config@);
                }
                break;
            }
            start = start + n + 1;
        }
        config
    }

    /// Applies one line of a settings file: see `apply_line`.
    fn apply(&mut self, raw: &Vec<char>)
        ensures
            final(self)@ == apply_line(old(self)@, raw@),
    {
        let line = trim_chars(raw);
        let eq = find_char(&line, '=');
        if line.len() == 0 || line[0] == '#' || eq >= line.len() {
            return;
        }
        proof {
            crate::text::lemma_position_of(line@, '=');
        }
        let head = slice_chars(&line, 0, eq);
        let tail = slice_chars(&line, eq + 1, line.len());
        let key = trim_chars(&head);
        let value = trim_chars(&tail);
        proof {
            assert(head@ =~= line@.take(eq as int));
            assert(tail@ =~= line@.skip(eq + 1int));
        }
        if same_chars(&key, "theme") {
            match parse_number(&value, usize::MAX as u64) {
                Some(n) => self.theme = n as usize,
                None => {},
            }
        } else if same_chars(&key, "board_size") {
            match parse_number(&value, usize::MAX as u64) {
                Some(n) => self.board_size = n as usize,
                None => {},
            }
        } else if same_chars(&key, "level") {
            match parse_number(&value, 255) {
                Some(n) => self.level = n as u8,
                None => {},
            }
        } else if same_chars(&key, "komi") {
            match parse_komi(&value) {
                Some(k) => self.komi = k,
                None => {},
            }
        } else if same_chars(&key, "engine_command") {
            self.engine_command = string_of(&value);
        } else if same_chars(&key, "show_eval") {
            self.show_eval = same_chars(&value, "true");
        }
    }

    /// The text of the settings file: see `config_text`.
    pub fn to_text(&self) -> (r: String)
        ensures
            r@ == config_text(self@),
    {
        let mut text = String::from_str("theme = ");
        push_decimal(&mut text, self.theme as u64);
        text.append("\nboard_size = ");
        push_decimal(&mut text, self.board_size as u64);
        text.append("\nlevel = ");
        push_decimal(&mut text, self.level as u64);
        text.append("\nkomi = ");
        push_komi(&mut text, self.komi);
        text.append("\nengine_command = ");
        text.append(self.engine_command.as_str());
        text.append("\nshow_eval = ");
        if self.show_eval {
            text.append("true");
        } else {
            text.append("false");
        }
        text.append("\n");
        text
    }
}

} // verus!
