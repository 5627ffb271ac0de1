//! The terminal client's own decisions: the screens, the new-game settings and how they change,
//! moving through lists, and the short texts it shows.
use vstd::prelude::*;
use vstd::std_specs::cmp::PartialEqSpec;
use crate::game::Stone;
use crate::config::{Config, ConfigModel};
use crate::sgf::{komi_text, push_komi};
use crate::text::{decimal, push_decimal, push_char, digit_char, chars_of, is_white, trim_start};

verus! {

/// The screen on show.
#[derive(Clone, Copy, PartialEq, Eq, Debug, Structural)]
pub enum Screen {
    Menu,
    Setup,
    Playing,
    Review,
    Browser,
    Themes,
    Help,
}

/// Who plays against whom: the engine, or two people at one keyboard.
#[derive(Clone, Copy, PartialEq, Eq, Debug, Structural)]
pub enum Mode {
    Engine,
    Friend,
}

/// Which engine plays: the built-in one or an outside program.
#[derive(Clone, Copy, PartialEq, Eq, Debug, Structural)]
pub enum EngineChoice {
    Builtin,
    External,
}

/// How many rows the new-game screen has.
pub const SETUP_ROWS: usize = 12;

/// How many items the main menu has.
pub const MENU_LENGTH: usize = 5;

/// The label of row `row` of the new-game screen.
pub open spec fn setup_label_text(row: int) -> Seq<char> {
    if row == 0 {
        "Board"@
    } else if row == 1 {
        "Play against"@
    } else if row == 2 {
        "Engine"@
    } else if row == 3 {
        "Strength"@
    } else if row == 4 {
        "You play"@
    } else if row == 5 {
        "Handicap"@
    } else if row == 6 {
        "Komi"@
    } else if row == 7 {
        "Main time"@
    } else if row == 8 {
        "Increment"@
    } else if row == 9 {
        "Hints"@
    } else if row == 10 {
        "Undo"@
    } else {
        "Eval bar"@
    }
}

/// The label of row `row` of the new-game screen: see `setup_label_text`.
pub fn setup_label(row: usize) -> (r: &'static str)
    requires
        row < SETUP_ROWS,
    ensures
        r@ == setup_label_text(row as int),
{
    match row {
        0 => "Board",
        1 => "Play against",
        2 => "Engine",
        3 => "Strength",
        4 => "You play",
        5 => "Handicap",
        6 => "Komi",
        7 => "Main time",
        8 => "Increment",
        9 => "Hints",
        10 => "Undo",
        _ => "Eval bar",
    }
}

/// Item `index` of the main menu.
pub open spec fn menu_item_text(index: int) -> Seq<char> {
    if index == 0 {
        "Play a game"@
    } else if index == 1 {
        "Look at a saved game"@
    } else if index == 2 {
        "Change the look"@
    } else if index == 3 {
        "How to play"@
    } else {
        "Quit"@
    }
}

/// Item `index` of the main menu: see `menu_item_text`.
pub fn menu_item(index: usize) -> (r: &'static str)
    requires
        index < MENU_LENGTH,
    ensures
        r@ == menu_item_text(index as int),
{
    match index {
        0 => "Play a game",
        1 => "Look at a saved game",
        2 => "Change the look",
        3 => "How to play",
        _ => "Quit",
    }
}

/// The settings of a new game, with the row of the new-game screen that is picked. Komi is
/// counted in tenths of a point and the main time in seconds.
#[derive(Clone, Copy)]
pub struct Setup {
    pub board_size: usize,
    pub mode: Mode,
    pub engine: EngineChoice,
    pub level: u8,
    pub color: Stone,
    pub handicap: u8,
    pub komi: i32,
    pub main_time: Option<u64>,
    pub increment: u64,
    pub hints: u32,
    pub undo: bool,
    pub eval: bool,
    pub row: usize,
}

/// `on` or `off`.
pub open spec fn on_off_text(value: bool) -> Seq<char> {
    if value {
        "on"@
    } else {
        "off"@
    }
}

/// `on` or `off`.
pub fn on_off(value: bool) -> (r: String)
    ensures
        r@ == on_off_text(value),
{
    if value {
        String::from_str("on")
    } else {
        String::from_str("off")
    }
}

/// Which of the two clocks belongs to `color`: 0 for Black, 1 for anything else.
pub open spec fn side_of(color: Stone) -> int {
    if color == Stone::Black {
        0
    } else {
        1
    }
}

/// Which of the two clocks belongs to `color`: see `side_of`.
pub fn side_index(color: Stone) -> (r: usize)
    ensures
        r == side_of(color),
{
    if color == Stone::Black {
        0
    } else {
        1
    }
}

/// `value` one up, no higher than `high`, or one down, no lower than `low`.
pub fn step(value: u8, low: u8, high: u8, forward: bool) -> (r: u8)
    requires
        forward ==> value < u8::MAX,
    ensures
        r == (if forward {
            if value + 1 <= high {
                value + 1
            } else {
                high as int
            }
        } else {
            let down = if value >= 1 {
                value - 1
            } else {
                0
            };
            if down >= low {
                down
            } else {
                low as int
            }
        }),
{
    if forward {
        let up = value + 1;
        if up <= high {
            up
        } else {
            high
        }
    } else {
        let down = if value >= 1 {
            value - 1
        } else {
            0
        };
        if down >= low {
            down
        } else {
            low
        }
    }
}

/// The index after `at` among `count`, or before it, going round.
pub open spec fn round_index(at: int, count: int, forward: bool) -> int {
    if forward {
        (at + 1) % count
    } else {
        (at + count - 1) % count
    }
}

/// Where the first of `options` from `i` on that is equal to `current` stands, or 0 when none is.
pub open spec fn match_from<T: PartialEqSpec>(options: Seq<T>, current: T, i: int) -> int
    decreases options.len() - i,
{
    if i < 0 || i >= options.len() {
        0
    } else if options[i].eq_spec(&current) {
        i
    } else {
        match_from(options, current, i + 1)
    }
}

/// The option after the first one equal to `current`, or the one before it, going round; the
/// first option counts as the current one when none is equal.
pub open spec fn cycled<T: PartialEqSpec>(options: Seq<T>, current: T, forward: bool) -> T {
    options[round_index(match_from(options, current, 0), options.len() as int, forward)]
}

/// The option after the current one, or before it: see `cycled`.
pub fn cycle<T: Copy + PartialEq + PartialEqSpec>(options: &[T], current: T, forward: bool) -> (r: T)
    requires
        options@.len() > 0,
        T::obeys_eq_spec(),
    ensures
        r == cycled(options@, current, forward),
{
    let count = options.len();
    let mut i: usize = 0;
    while i < count && !(options[i] == current)
        invariant
            count == options@.len(),
            0 <= i <= count,
            T::obeys_eq_spec(),
            match_from(options@, current, 0) == match_from(options@, current, i as int),
        decreases count - i,
    {
        i += 1;
    }
    let at = if i < count {
        i
    } else {
        0
    };
    let next = if forward {
        (at + 1) % count
    } else if at == 0 {
        count - 1
    } else {
        at - 1
    };
    proof {
        assert(match_from(options@, current, 0) == at);
        let a = at as int;
        let c = count as int;
        if !forward {
            if at == 0 {
                assert((a + c - 1) % c == c - 1) by (nonlinear_arith)
                    requires
                        a == 0,
                        c > 0,
                ;
            } else {
                assert((a + c - 1) % c == a - 1) by (nonlinear_arith)
                    requires
                        0 < a < c,
                ;
            }
        }
        assert(next == round_index(a, c, forward));
    }
    options[next]
}

/// The settings of a new game from saved settings `c`: see `Setup::from_config`.
pub open spec fn setup_from(c: ConfigModel) -> Setup {
    Setup {
        board_size: c.board_size,
        mode: Mode::Engine,
        engine: EngineChoice::External,
        level: c.level,
        color: Stone::Black,
        handicap: 0,
        komi: c.komi,
        main_time: None,
        increment: 0,
        hints: 3,
        undo: true,
        eval: c.show_eval,
        row: 0,
    }
}

impl Setup {
    /// The settings of a new game from the saved settings: a game against the outside engine
    /// as Black, no handicap, no clock, three hints, undo on, the first row picked.
    pub fn from_config(config: &Config) -> (s: Setup)
        ensures
            s == setup_from(config@),
            s.board_size == config.board_size,
            s.mode == Mode::Engine,
            s.engine == EngineChoice::External,
            s.level == config.level,
            s.color == Stone::Black,
            s.handicap == 0,
            s.komi == config.komi,
            s.main_time is None,
            s.increment == 0,
            s.hints == 3,
            s.undo,
            s.eval == config.show_eval,
            s.row == 0,
    {
        Setup {
            board_size: config.board_size,
            mode: Mode::Engine,
            engine: EngineChoice::External,
            level: config.level,
            color: Stone::Black,
            handicap: 0,
            komi: config.komi,
            main_time: None,
            increment: 0,
            hints: 3,
            undo: true,
            eval: config.show_eval,
            row: 0,
        }
    }

    /// What row `row` of the new-game screen shows for these settings; `name` is the outside
    /// engine's name and `ready` whether it is installed.
    pub open spec fn value_text(&self, row: int, name: Seq<char>, ready: bool) -> Seq<char> {
        if row == 0 {
            decimal(self.board_size as nat) + "x"@ + decimal(self.board_size as nat)
        } else if row == 1 {
            if self.mode == Mode::Engine {
                "computer"@
            } else {
                "a friend, same keyboard"@
            }
        } else if row == 2 {
            if self.engine == EngineChoice::Builtin {
                "built-in"@
            } else if ready {
                name
            } else {
                name + " (not installed)"@
            }
        } else if row == 3 {
            decimal(self.level as nat) + " of 10"@
        } else if row == 4 {
            match self.color {
                Stone::Black => "Black"@,
                Stone::White => "White"@,
                Stone::Empty => "Nobody"@,
            }
        } else if row == 5 {
            if self.handicap == 0 {
                "none"@
            } else {
                decimal(self.handicap as nat) + " stones"@
            }
        } else if row == 6 {
            komi_text(self.komi as int)
        } else if row == 7 {
            match self.main_time {
                None => "no clock"@,
                Some(seconds) => decimal((seconds / 60) as nat) + " min"@,
            }
        } else if row == 8 {
            decimal(self.increment as nat) + " s"@
        } else if row == 9 {
            if self.hints == 0 {
                "off"@
            } else if self.hints == u32::MAX {
                "unlimited"@
            } else {
                decimal(self.hints as nat)
            }
        } else if row == 10 {
            on_off_text(self.undo)
        } else {
            on_off_text(self.eval)
        }
    }

    /// What row `row` of the new-game screen shows: see `value_text`.
    pub fn value(&self, row: usize, engine_name: &str, engine_ready: bool) -> (r: String)
        ensures
            r@ == self.value_text(row as int, engine_name@, engine_ready),
    {
        match row {
            0 => {
                let mut text = String::new();
                push_decimal(&mut text, self.board_size as u64);
                text.append("x");
                push_decimal(&mut text, self.board_size as u64);
                text
            },
            1 => match self.mode {
                Mode::Engine => String::from_str("computer"),
                Mode::Friend => String::from_str("a friend, same keyboard"),
            },
            2 => match self.engine {
                EngineChoice::Builtin => String::from_str("built-in"),
                EngineChoice::External => {
                    let mut text = String::from_str(engine_name);
                    if !engine_ready {
                        text.append(" (not installed)");
                    }
                    text
                },
            },
            3 => {
                let mut text = String::new();
                push_decimal(&mut text, self.level as u64);
                text.append(" of 10");
                text
            },
            4 => String::from_str(self.color.name()),
            5 => {
                if self.handicap == 0 {
                    String::from_str("none")
                } else {
                    let mut text = String::new();
                    push_decimal(&mut text, self.handicap as u64);
                    text.append(" stones");
                    text
                }
            },
            6 => {
                let mut text = String::new();
                push_komi(&mut text, self.komi);
                text
            },
            7 => match self.main_time {
                None => String::from_str("no clock"),
                Some(seconds) => {
                    let mut text = String::new();
                    push_decimal(&mut text, seconds / 60);
                    text.append(" min");
                    text
                },
            },
            8 => {
                let mut text = String::new();
                push_decimal(&mut text, self.increment);
                text.append(" s");
                text
            },
            9 => {
                if self.hints == 0 {
                    String::from_str("off")
                } else if self.hints == u32::MAX {
                    String::from_str("unlimited")
                } else {
                    let mut text = String::new();
                    push_decimal(&mut text, self.hints as u64);
                    text
                }
            },
            10 => on_off(self.undo),
            _ => on_off(self.eval),
        }
    }

    /// Whether row `row` can be changed: the engine, its strength, the hints and the colour
    /// only matter against the engine.
    pub fn active(&self, row: usize) -> (r: bool)
        ensures
            r == (if row == 2 || row == 3 || row == 9 || row == 4 {
                self.mode == Mode::Engine
            } else {
                true
            }),
    {
        match row {
            2 | 3 | 9 => self.mode == Mode::Engine,
            4 => self.mode == Mode::Engine,
            _ => true,
        }
    }

    /// `next` is these settings after the picked row changed forward or back: see `change`.
    pub open spec fn changed(&self, next: &Setup, forward: bool) -> bool {
        &&& next.row == self.row
        &&& self.row == 0 ==> next.board_size == cycled(
                seq![9usize, 13, 19],
                self.board_size,
                forward,
            )
        &&& self.row == 1 ==> next.mode == (if self.mode == Mode::Engine {
                Mode::Friend
            } else {
                Mode::Engine
            })
        &&& self.row == 2 ==> next.engine == (if self.engine
                == EngineChoice::Builtin {
                EngineChoice::External
            } else {
                EngineChoice::Builtin
            })
        &&& self.row == 3 ==> next.level == (if forward {
                if self.level + 1 <= 10 {
                    self.level + 1
                } else {
                    10
                }
            } else {
                let down = if self.level >= 1 {
                    self.level - 1
                } else {
                    0
                };
                if down >= 1 {
                    down
                } else {
                    1
                }
            })
        &&& self.row == 4 ==> next.color == crate::game::opposite(self.color)
        &&& self.row == 5 ==> next.handicap == cycled(
                seq![0u8, 2, 3, 4, 5, 6, 7, 8, 9],
                self.handicap,
                forward,
            )
        &&& self.row == 6 ==> next.komi == cycled(
                seq![0i32, 5, 55, 65, 75],
                self.komi,
                forward,
            )
        &&& self.row == 7 ==> next.main_time == cycled(
                seq![None, Some(180u64), Some(300u64), Some(600u64), Some(1200u64), Some(1800u64)],
                self.main_time,
                forward,
            )
        &&& self.row == 8 ==> next.increment == cycled(
                seq![0u64, 3, 5, 10, 30],
                self.increment,
                forward,
            )
        &&& self.row == 9 ==> next.hints == cycled(
                seq![0u32, 3, 5, 10, u32::MAX],
                self.hints,
                forward,
            )
        &&& self.row == 10 ==> next.undo == !self.undo
        &&& self.row > 10 ==> next.eval == !self.eval
        &&& self.row != 0 ==> next.board_size == self.board_size
        &&& self.row != 1 ==> next.mode == self.mode
        &&& self.row != 2 ==> next.engine == self.engine
        &&& self.row != 3 ==> next.level == self.level
        &&& self.row != 4 ==> next.color == self.color
        &&& self.row != 5 ==> next.handicap == self.handicap
        &&& self.row != 6 ==> next.komi == self.komi
        &&& self.row != 7 ==> next.main_time == self.main_time
        &&& self.row != 8 ==> next.increment == self.increment
        &&& self.row != 9 ==> next.hints == self.hints
        &&& self.row != 10 ==> next.undo == self.undo
        &&& self.row <= 10 ==> next.eval == self.eval
    }

    /// Changes the setting on the picked row: the next value of its list, or the one before it,
    /// going round; strength goes one up or down within 1 to 10; the others flip.
    pub fn change(&mut self, forward: bool)
        requires
            old(self).row == 3 ==> old(self).level < u8::MAX,
        ensures
            old(self).changed(final(self), forward),
    {
        match self.row {
            0 => {
                let options = [9usize, 13, 19];
                proof {
                    assert(options@ =~= seq![9usize, 13, 19]);
                }
                self.board_size = cycle(&options, self.board_size, forward);
            },
            1 => {
                self.mode = if self.mode == Mode::Engine {
                    Mode::Friend
                } else {
                    Mode::Engine
                };
            },
            2 => {
                self.engine = if self.engine == EngineChoice::Builtin {
                    EngineChoice::External
                } else {
                    EngineChoice::Builtin
                };
            },
            3 => self.level = step(self.level, 1, 10, forward),
            4 => self.color = self.color.other(),
            5 => {
                let options = [0u8, 2, 3, 4, 5, 6, 7, 8, 9];
                proof {
                    assert(options@ =~= seq![0u8, 2, 3, 4, 5, 6, 7, 8, 9]);
                }
                self.handicap = cycle(&options, self.handicap, forward);
            },
            6 => {
                let options = [0i32, 5, 55, 65, 75];
                proof {
                    assert(options@ =~= seq![0i32, 5, 55, 65, 75]);
                }
                self.komi = cycle(&options, self.komi, forward);
            },
            7 => {
                let options = [None, Some(180u64), Some(300u64), Some(600u64), Some(1200u64), Some(1800u64)];
                proof {
                    assert(options@ =~= seq![None, Some(180u64), Some(300u64), Some(600u64), Some(1200u64), Some(1800u64)]);
                }
                self.main_time = cycle(&options, self.main_time, forward);
            },
            8 => {
                let options = [0u64, 3, 5, 10, 30];
                proof {
                    assert(options@ =~= seq![0u64, 3, 5, 10, 30]);
                }
                self.increment = cycle(&options, self.increment, forward);
            },
            9 => {
                let options = [0u32, 3, 5, 10, u32::MAX];
                proof {
                    assert(options@ =~= seq![0u32, 3, 5, 10, u32::MAX]);
                }
                self.hints = cycle(&options, self.hints, forward);
            },
            10 => self.undo = !self.undo,
            _ => self.eval = !self.eval,
        }
    }

}


/// `value` kept within `low` to `high`.
pub open spec fn clamp_int(value: int, low: int, high: int) -> int {
    if value < low {
        low
    } else if value > high {
        high
    } else {
        value
    }
}

/// The saved games on show, the one picked, and a message about them.
pub struct Browser {
    pub files: Vec<String>,
    pub selected: usize,
    pub message: String,
}

/// The message shown over a list of saved games: a note when there are none.
pub open spec fn listing_message(count: nat) -> Seq<char> {
    if count == 0 {
        "no .sgf files in this folder"@
    } else {
        Seq::empty()
    }
}

/// Whether a file of this name is a saved game: its extension is `sgf`, that is, it ends in
/// `.sgf` with something before the dot.
pub open spec fn is_sgf_name(name: Seq<char>) -> bool {
    name.len() > 4 && name.subrange(name.len() - 4, name.len() as int) == ".sgf"@
}

/// The saved games among the files `entries` of a folder, each a name and the time it was
/// last changed, as (time, name), in the order of `entries`.
pub open spec fn sgf_found(entries: Seq<(String, u64)>) -> Seq<(u64, String)>
    decreases entries.len(),
{
    if entries.len() == 0 {
        Seq::empty()
    } else {
        let rest = sgf_found(entries.drop_last());
        let e = entries.last();
        if is_sgf_name(e.0@) {
            rest.push((e.1, e.0))
        } else {
            rest
        }
    }
}

/// `ranked` holds the saved games among `entries`, newest first.
pub open spec fn ranked_listing(entries: Seq<(String, u64)>, ranked: Seq<(u64, String)>) -> bool {
    &&& ranked.to_multiset() == sgf_found(entries).to_multiset()
    &&& forall|i: int, j: int| 0 <= i < j < ranked.len() ==> #[trigger] ranked[i].0 >= #[trigger] ranked[j].0
}

/// `files` are the names of the saved games among `entries`, newest first.
pub open spec fn listed(entries: Seq<(String, u64)>, files: Seq<String>) -> bool {
    exists|ranked: Seq<(u64, String)>|
        #[trigger] ranked_listing(entries, ranked) && files == ranked.map_values(
            |e: (u64, String)| e.1,
        )
}

/// Whether the name `name` ends in `.sgf` with something before the dot: see `is_sgf_name`.
pub fn sgf_name(name: &str) -> (r: bool)
    ensures
        r == is_sgf_name(name@),
{
    let n = name.unicode_len();
    if n <= 4 {
        return false;
    }
    let ending = ".sgf";
    proof {
        reveal_strlit(".sgf");
    }
    let mut k: usize = 0;
    while k < 4
        invariant
            n == name@.len(),
            n > 4,
            k <= 4,
            ending@ == ".sgf"@,
            forall|j: int| 0 <= j < k ==> name@[n - 4 + j] == ending@[j],
        decreases 4 - k,
    {
        proof {
            reveal_strlit(".sgf");
        }
        if name.get_char(n - 4 + k) != ending.get_char(k) {
            assert(name@.subrange(n - 4, n as int)[k as int] != ".sgf"@[k as int]);
            return false;
        }
        k += 1;
    }
    assert(name@.subrange(n - 4, n as int) =~= ".sgf"@);
    true
}

impl Browser {
    /// Whether this browser shows the saved games among the files `entries` of a folder (name,
    /// time last changed), newest first, with the first one picked and a note when there are
    /// none.
    pub open spec fn lists(&self, entries: Seq<(String, u64)>) -> bool {
        &&& listed(entries, self.files@)
        &&& self.selected == 0
        &&& self.message@ == listing_message(sgf_found(entries).len())
    }

    /// The saved games among the files `entries` of a folder (name, time last changed): see
    /// `lists`.
    pub fn new(entries: &Vec<(String, u64)>) -> (b: Browser)
        ensures
            b.lists(entries@),
    {
        let mut b = Browser { files: Vec::new(), selected: 0, message: String::new() };
        b.refresh(entries);
        b
    }

    /// Shows the saved games among the files `entries` of a folder afresh: see `lists`.
    pub fn refresh(&mut self, entries: &Vec<(String, u64)>)
        ensures
            final(self).lists(entries@),
    {
        let mut found: Vec<(u64, String)> = Vec::new();
        let mut i: usize = 0;
        while i < entries.len()
            invariant
                i <= entries@.len(),
                found@ == sgf_found(entries@.take(i as int)),
            decreases entries@.len() - i,
        {
            proof {
                assert(entries@.take(i as int + 1).drop_last() =~= entries@.take(i as int));
            }
            if sgf_name(entries[i].0.as_str()) {
                found.push((entries[i].1, entries[i].0.clone()));
            }
            i += 1;
        }
        proof {
            assert(entries@.take(entries@.len() as int) =~= entries@);
        }
        let ranked = newest_first(&found);
        let mut files: Vec<String> = Vec::new();
        let mut k: usize = 0;
        while k < ranked.len()
            invariant
                k <= ranked@.len(),
                files@ == ranked@.take(k as int).map_values(|e: (u64, String)| e.1),
            decreases ranked@.len() - k,
        {
            files.push(ranked[k].1.clone());
            proof {
                assert(ranked@.take(k as int + 1).map_values(|e: (u64, String)| e.1) =~= ranked@.take(
                    k as int,
                ).map_values(|e: (u64, String)| e.1).push(ranked@[k as int].1));
            }
            k += 1;
        }
        proof {
            assert(ranked@.take(ranked@.len() as int) =~= ranked@);
            assert(ranked_listing(entries@, ranked@));
            vstd::seq_lib::to_multiset_len(ranked@);
            vstd::seq_lib::to_multiset_len(found@);
        }
        let empty = files.len() == 0;
        self.files = files;
        self.selected = 0;
        self.message = if empty {
            String::from_str("no .sgf files in this folder")
        } else {
            String::new()
        };
    }

    /// Moves the pick `delta` places down the list (up when negative), staying on the list;
    /// nothing happens to an empty list.
    pub fn move_by(&mut self, delta: i32)
        requires
            old(self).files@.len() > 0 ==> old(self).files@.len() <= i32::MAX && old(self).selected
                <= i32::MAX && i32::MIN <= old(self).selected + delta <= i32::MAX,
        ensures
            *final(self) == (Browser { selected: final(self).selected, ..*old(self) }),
            final(self).selected == (if old(self).files@.len() == 0 {
                old(self).selected as int
            } else {
                clamp_int(old(self).selected + delta, 0, old(self).files@.len() - 1)
            }),
    {
        if self.files.len() == 0 {
            return;
        }
        let last = self.files.len() as i32 - 1;
        let moved = self.selected as i32 + delta;
        let at = if moved < 0 {
            0
        } else if moved > last {
            last
        } else {
            moved
        };
        self.selected = at as usize;
    }
}

/// The saved games `found`, each with the time it was last changed, newest first.
pub fn newest_first(found: &Vec<(u64, String)>) -> (r: Vec<(u64, String)>)
    ensures
        r@.to_multiset() == found@.to_multiset(),
        forall|i: int, j: int| 0 <= i < j < r@.len() ==> #[trigger] r@[i].0 >= #[trigger] r@[j].0,
{
    let mut ranked: Vec<(u64, String)> = Vec::new();
    let mut i: usize = 0;
    proof {
        assert(found@.take(0) =~= ranked@);
    }
    while i < found.len()
        invariant
            0 <= i <= found@.len(),
            ranked@.to_multiset() == found@.take(i as int).to_multiset(),
            forall|a: int, b: int|
                0 <= a < b < ranked@.len() ==> #[trigger] ranked@[a].0 >= #[trigger] ranked@[b].0,
        decreases found@.len() - i,
    {
        let item = (found[i].0, found[i].1.clone());
        proof {
            assert(item == found@[i as int]);
        }
        let mut at: usize = 0;
        while at < ranked.len() && ranked[at].0 >= item.0
            invariant
                0 <= at <= ranked@.len(),
                forall|a: int| 0 <= a < at ==> ranked@[a].0 >= item.0,
            decreases ranked@.len() - at,
        {
            at += 1;
        }
        let ghost before = ranked@;
        ranked.insert(at, item);
        proof {
            let t0 = found@.take(i as int);
            let t1 = found@.take(i as int + 1);
            assert(t1 =~= t0.push(item));
            assert(ranked@ =~= before.insert(at as int, item));
            vstd::seq_lib::to_multiset_insert(before, at as int, item);
            vstd::seq_lib::to_multiset_build(t0, item);
            assert(ranked@.to_multiset() =~= t1.to_multiset());
            assert forall|a: int, b: int|
                0 <= a < b < ranked@.len() implies #[trigger] ranked@[a].0 >= #[trigger] ranked@[b].0 by {
                if b < at {
                } else if a < at && b == at {
                    assert(before[a].0 >= item.0);
                } else if a < at {
                    assert(ranked@[b] == before[b - 1]);
                    assert(ranked@[a] == before[a]);
                } else if a == at {
                    assert(ranked@[b] == before[b - 1]);
                    assert(before[at as int].0 < item.0);
                } else {
                    assert(ranked@[b] == before[b - 1]);
                    assert(ranked@[a] == before[a - 1]);
                }
            }
        }
        i += 1;
    }
    proof {
        assert(found@.take(found@.len() as int) =~= found@);
    }
    ranked
}

/// Position `at` moved `delta` places, kept within 0 to `last`: the review's move counter and
/// the cursor's row and column move this way.
pub fn moved_within(at: usize, delta: i32, last: i32) -> (r: usize)
    requires
        0 <= last,
        at <= i32::MAX,
        i32::MIN <= at + delta <= i32::MAX,
    ensures
        r == clamp_int(at + delta, 0, last as int),
{
    let moved = at as i32 + delta;
    let kept = if moved < 0 {
        0
    } else if moved > last {
        last
    } else {
        moved
    };
    kept as usize
}

/// The cursor on a board `size` wide moved `rows` down and `cols` right, staying on the board.
pub fn move_cursor(size: usize, cursor: usize, rows: i32, cols: i32) -> (r: usize)
    requires
        0 < size <= 46340,
        cursor < size * size,
        i32::MIN <= cursor / size + rows <= i32::MAX,
        i32::MIN <= cursor % size + cols <= i32::MAX,
    ensures
        r == clamp_int(cursor / size + rows, 0, size - 1) * size + clamp_int(
            cursor % size + cols,
            0,
            size - 1,
        ),
        r < size * size,
{
    let row = cursor / size;
    let col = cursor % size;
    proof {
        assert(row < size) by (nonlinear_arith)
            requires
                cursor < size * size,
                row == cursor / size,
                size > 0,
        ;
    }
    let last = (size - 1) as i32;
    let r = moved_within(row, rows, last);
    let c = moved_within(col, cols, last);
    proof {
        assert(last as int == size - 1);
        assert(r < size && c < size);
        assert(r * size + c < size * size) by (nonlinear_arith)
            requires
                r < size,
                c < size,
        ;
        assert(size * size <= 46340 * 46340) by (nonlinear_arith)
            requires
                0 < size <= 46340,
        ;
    }
    r * size + c
}

/// The next colour scheme after `theme`, or the one before it, going round `count` schemes.
pub fn next_theme(theme: usize, count: usize, forward: bool) -> (r: usize)
    requires
        count > 0,
        theme + count <= usize::MAX,
    ensures
        r == round_index(theme as int, count as int, forward),
{
    if forward {
        (theme + 1) % count
    } else {
        (theme + count - 1) % count
    }
}

/// The first word of `s`: the characters after any white space at its start, up to the next
/// white space.
pub open spec fn first_word(s: Seq<char>) -> Seq<char> {
    let t = trim_start(s);
    t.take(white_at(t) as int)
}

/// How many characters at the front of `s` are not white space.
pub open spec fn white_at(s: Seq<char>) -> nat
    decreases s.len(),
{
    if s.len() == 0 || is_white(s[0]) {
        0
    } else {
        1 + white_at(s.drop_first())
    }
}

/// What the engine is called in menus: the program named first in its command, or `engine`
/// when the command is blank.
pub fn engine_label(command: &str) -> (r: String)
    ensures
        r@ == (if first_word(command@).len() == 0 {
            "engine"@
        } else {
            first_word(command@)
        }),
{
    let v = chars_of(command);
    let ghost s = v@;
    let mut a: usize = 0;
    proof {
        assert(s.skip(0) =~= s);
    }
    while a < v.len() && crate::text::white(v[a])
        invariant
            0 <= a <= s.len(),
            v@ == s,
            trim_start(s) == trim_start(s.skip(a as int)),
        decreases s.len() - a,
    {
        proof {
            assert(s.skip(a as int).drop_first() =~= s.skip(a as int + 1));
            assert(s.skip(a as int)[0] == s[a as int]);
        }
        a += 1;
    }
    proof {
        if a < s.len() {
            assert(s.skip(a as int)[0] == s[a as int]);
        }
        assert(trim_start(s.skip(a as int)) == s.skip(a as int));
    }
    let ghost t = s.skip(a as int);
    let mut b: usize = a;
    proof {
        assert(t.skip(0) =~= t);
    }
    while b < v.len() && !crate::text::white(v[b])
        invariant
            a <= b <= s.len(),
            v@ == s,
            t == s.skip(a as int),
            white_at(t) == (b - a) + white_at(s.skip(b as int)),
        decreases s.len() - b,
    {
        proof {
            assert(s.skip(b as int).drop_first() =~= s.skip(b as int + 1));
            assert(s.skip(b as int)[0] == s[b as int]);
        }
        b += 1;
    }
    proof {
        if b < s.len() {
            assert(s.skip(b as int)[0] == s[b as int]);
        }
    }
    if b == a {
        return String::from_str("engine");
    }
    let word = crate::text::slice_chars(&v, a, b);
    proof {
        assert(word@ =~= t.take(white_at(t) as int));
    }
    crate::text::string_of(&word)
}

/// `n` in decimal, with a leading zero when it has one digit.
pub open spec fn two_digits(n: nat) -> Seq<char> {
    if n < 10 {
        seq!['0'] + decimal(n)
    } else {
        decimal(n)
    }
}

/// What a clock shows with `left` whole seconds on it, minutes and seconds with two digits
/// each; `--:--` when there is no clock.
pub open spec fn clock_view(left: Option<u64>) -> Seq<char> {
    match left {
        None => "--:--"@,
        Some(s) => two_digits((s / 60) as nat) + seq![':'] + two_digits((s % 60) as nat),
    }
}

/// Appends `n` with at least two digits.
fn push_two_digits(text: &mut String, n: u64)
    ensures
        final(text)@ == old(text)@ + two_digits(n as nat),
{
    if n < 10 {
        push_char(text, '0');
    }
    push_decimal(text, n);
    proof {
        assert(final(text)@ =~= old(text)@ + two_digits(n as nat));
    }
}

/// What a clock shows: see `clock_view`.
pub fn clock_text(left: Option<u64>) -> (r: String)
    ensures
        r@ == clock_view(left),
{
    match left {
        None => String::from_str("--:--"),
        Some(seconds) => {
            let mut text = String::new();
            push_two_digits(&mut text, seconds / 60);
            push_char(&mut text, ':');
            push_two_digits(&mut text, seconds % 60);
            proof {
                assert(text@ =~= clock_view(left));
            }
            text
        },
    }
}

/// A number of tenths written with one decimal, such as `6.5` or `7.0`.
pub open spec fn tenths_text(t: nat) -> Seq<char> {
    decimal(t / 10) + seq!['.', digit_char((t % 10) as int)]
}

/// Appends a number of tenths with one decimal.
fn push_tenths(text: &mut String, t: u64)
    ensures
        final(text)@ == old(text)@ + tenths_text(t as nat),
{
    push_decimal(text, t / 10);
    push_char(text, '.');
    push_char(text, crate::text::digit_to_char(t % 10));
    proof {
        assert(final(text)@ =~= old(text)@ + tenths_text(t as nat));
    }
}

/// The score as shown during a game, by Black's lead in tenths of a point: `B+6.5`, `W+0.5`,
/// or `even`.
pub open spec fn score_view(lead: int) -> Seq<char> {
    if lead > 0 {
        "B+"@ + tenths_text(lead as nat)
    } else if lead < 0 {
        "W+"@ + tenths_text((-lead) as nat)
    } else {
        "even"@
    }
}

/// The score as shown during a game: see `score_view`.
pub fn score_text(lead: i64) -> (r: String)
    requires
        lead > i64::MIN,
    ensures
        r@ == score_view(lead as int),
{
    if lead > 0 {
        let mut text = String::from_str("B+");
        push_tenths(&mut text, lead as u64);
        text
    } else if lead < 0 {
        let mut text = String::from_str("W+");
        push_tenths(&mut text, (0 - lead) as u64);
        text
    } else {
        String::from_str("even")
    }
}

/// The result of a game played out, by Black's lead in tenths of a point.
pub open spec fn result_view(lead: int) -> Seq<char> {
    if lead > 0 {
        "Black wins by "@ + tenths_text(lead as nat)
    } else if lead < 0 {
        "White wins by "@ + tenths_text((-lead) as nat)
    } else {
        "the game is a draw"@
    }
}

/// The result of a game played out: see `result_view`.
pub fn result_text(lead: i64) -> (r: String)
    requires
        lead > i64::MIN,
    ensures
        r@ == result_view(lead as int),
{
    if lead > 0 {
        let mut text = String::from_str("Black wins by ");
        push_tenths(&mut text, lead as u64);
        text
    } else if lead < 0 {
        let mut text = String::from_str("White wins by ");
        push_tenths(&mut text, (0 - lead) as u64);
        text
    } else {
        String::from_str("the game is a draw")
    }
}

/// How many moves an undo takes back, given who was to move in each position so far: one
/// between two friends; against the engine, back to the latest earlier position where the
/// human is to move, or to the first position when there is none.
pub fn undo_steps(turns: &Vec<Stone>, friend: bool, human: Stone) -> (r: usize)
    requires
        turns@.len() >= 2,
    ensures
        1 <= r < turns@.len(),
        friend ==> r == 1,
        !friend ==> turns@[turns@.len() - 1 - r] == human || r == turns@.len() - 1,
        !friend ==> forall|i: int|
            turns@.len() - 1 - r < i < turns@.len() - 1 ==> #[trigger] turns@[i] != human,
{
    let last = turns.len() - 1;
    let mut removed: usize = 1;
    if friend {
        return 1;
    }
    while removed < last && turns[last - removed] != human
        invariant
            last == turns@.len() - 1,
            1 <= removed <= last,
            forall|i: int| last - removed < i < last ==> #[trigger] turns@[i] != human,
        decreases last - removed,
    {
        removed += 1;
    }
    removed
}

} // verus!
