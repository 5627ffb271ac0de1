//! What the client does with each key on each screen, and the state it does it to: the screen
//! on show, the new-game settings, the game being played or gone through, the saved games and
//! the saved settings. What needs the world outside (files, the engine, the clock) comes back
//! as an effect for the terminal to carry out.
use vstd::prelude::*;
use crate::app::{
    Screen, EngineChoice, Setup, Browser, SETUP_ROWS, MENU_LENGTH, next_theme, round_index,
    setup_from, clamp_int, engine_label, first_word,
};
use crate::analysis::Analysis;
use crate::config::Config;
use crate::session::{Session, Follow};
use crate::review::{Review, review_of_text, read_review, fits};
use crate::sgf::read_model;

verus! {

/// A key, as the client tells keys apart.
#[derive(Clone, Copy, PartialEq, Eq, Debug, Structural)]
pub enum Key {
    Up,
    Down,
    Left,
    Right,
    Enter,
    Esc,
    Tab,
    Home,
    End,
    Char(char),
    Other,
}

/// Work that a key leaves for the terminal, which reaches files, the engine and the clock.
#[derive(Clone, Copy, PartialEq, Eq, Debug, Structural)]
pub enum Effect {
    /// Nothing to do.
    Nothing,
    /// List the files of the folder and show the saved games among them (`Browser::refresh`).
    ListFiles,
    /// Read the picked saved game and open it (`App::open_selected_file`).
    OpenFile,
    /// Start the outside engine when one is wanted, then the game (`App::start_game`).
    StartGame,
    /// Write the saved settings.
    SaveConfig,
    /// Write the game's record to a file.
    SaveGame,
    /// A person moved, and this follows: tell an outside engine, ask for the chance to win,
    /// let the engine move.
    Moved(Follow),
    /// An outside engine takes back as many moves.
    TookBack(usize),
    /// Look for a hint.
    Hint,
    /// Ask for the chance to win, when it is wanted (`Session::eval_wanted`).
    Eval,
    /// Go through the game under review, spending this many milliseconds on each position.
    Analyse(u64),
    /// Stop going through the game under review.
    StopAnalysis,
}

/// Up, or `k`.
pub open spec fn upward(k: Key) -> bool {
    k == Key::Up || k == Key::Char('k')
}

/// Down, or `j`.
pub open spec fn downward(k: Key) -> bool {
    k == Key::Down || k == Key::Char('j')
}

/// Left, or `h`.
pub open spec fn leftward(k: Key) -> bool {
    k == Key::Left || k == Key::Char('h')
}

/// Right, or `l`.
pub open spec fn rightward(k: Key) -> bool {
    k == Key::Right || k == Key::Char('l')
}

/// The whole client: the screen on show, the new-game settings, the game being played, the
/// game under review, the saved games, the pick on the main menu, the saved settings, whether
/// the outside engine is installed, and whether to quit.
pub struct App {
    pub screen: Screen,
    pub setup: Setup,
    pub session: Option<Session>,
    pub review: Option<Review>,
    pub browser: Browser,
    pub menu: usize,
    pub config: Config,
    pub engine_ready: bool,
    pub quit: bool,
}

/// `n` one down, but not below zero.
pub open spec fn one_less(n: usize) -> usize {
    if n == 0 {
        0
    } else {
        (n - 1) as usize
    }
}

/// `n` one up, but not past `last`.
pub open spec fn one_more(n: usize, last: usize) -> usize {
    if n + 1 <= last {
        (n + 1) as usize
    } else {
        last
    }
}

impl App {
    /// The client hangs together: the game played and the game under review are sound, and
    /// the picks on the menus are on them.
    pub open spec fn wf(&self) -> bool {
        &&& self.session matches Some(s) ==> s.wf()
        &&& self.review matches Some(r) ==> r.wf()
        &&& self.setup.row < SETUP_ROWS
        &&& self.menu < MENU_LENGTH
    }

    /// The client as it opens, on the main menu, from the saved settings `config`; the
    /// built-in engine is picked when the outside one, `engine_ready` tells, is not installed;
    /// the browser lists the saved games among the files `entries` of the folder (see
    /// `Browser::lists`).
    pub fn new(config: Config, engine_ready: bool, entries: &Vec<(String, u64)>) -> (app: App)
        ensures
            app.wf(),
            app.screen == Screen::Menu,
            app.setup == (if engine_ready {
                setup_from(config@)
            } else {
                Setup { engine: EngineChoice::Builtin, ..setup_from(config@) }
            }),
            app.session is None,
            app.review is None,
            app.browser.lists(entries@),
            app.menu == 0,
            app.config == config,
            app.engine_ready == engine_ready,
            !app.quit,
    {
        let mut setup = Setup::from_config(&config);
        if !engine_ready {
            setup.engine = EngineChoice::Builtin;
        }
        App {
            screen: Screen::Menu,
            setup,
            session: None,
            review: None,
            browser: Browser::new(entries),
            menu: 0,
            config,
            engine_ready,
            quit: false,
        }
    }

    /// What the outside engine is called in menus: see `engine_label`.
    pub fn engine_label(&self) -> (r: String)
        ensures
            r@ == (if first_word(self.config.engine_command@).len() == 0 {
                "engine"@
            } else {
                first_word(self.config.engine_command@)
            }),
    {
        engine_label(self.config.engine_command.as_str())
    }

    /// Starts a game from the settings against `engine_name` (`external` tells whether it is
    /// an outside program), forgets the game under review, keeps the settings to save, and
    /// shows the board. Gives what follows: Black's chance to win in the first position to ask
    /// for when the bar is shown, and the engine to set looking for its move when it moves
    /// first.
    pub fn start_game(&mut self, engine_name: String, external: bool) -> (f: Follow)
        requires
            old(self).wf(),
            0 < old(self).setup.board_size <= 46340,
        ensures
            final(self).wf(),
            final(self).session matches Some(s) && s.started(old(self).setup, engine_name, external)
                && f == (Follow {
                tell: false,
                ask: if s.show_eval {
                    Some(0usize)
                } else {
                    None
                },
                think: s.thinking,
            }),
            final(self).config == (Config {
                board_size: old(self).setup.board_size,
                level: old(self).setup.level,
                komi: old(self).setup.komi,
                show_eval: old(self).setup.eval,
                ..old(self).config
            }),
            *final(self) == (App {
                session: final(self).session,
                review: None,
                config: final(self).config,
                screen: Screen::Playing,
                ..*old(self)
            }),
    {
        self.review = None;
        let s = Session::new(&self.setup, engine_name, external);
        let ask = if s.show_eval {
            Some(0)
        } else {
            None
        };
        let think = s.thinking;
        self.session = Some(s);
        self.config.board_size = self.setup.board_size;
        self.config.level = self.setup.level;
        self.config.komi = self.setup.komi;
        self.config.show_eval = self.setup.eval;
        self.screen = Screen::Playing;
        Follow { tell: false, ask, think }
    }

    /// The next of `themes` colour schemes, or the one before: see `next_theme`.
    pub fn next_theme(&mut self, forward: bool, themes: usize)
        requires
            themes > 0,
            old(self).config.theme + themes <= usize::MAX,
        ensures
            *final(self) == (App {
                config: Config {
                    theme: round_index(old(self).config.theme as int, themes as int, forward) as usize,
                    ..old(self).config
                },
                ..*old(self)
            }),
    {
        self.config.theme = next_theme(self.config.theme, themes, forward);
    }

    /// Goes through the game being played (see `Session::review`), when there is one.
    pub fn review_current_game(&mut self)
        requires
            old(self).wf(),
        ensures
            final(self).wf(),
            old(self).session is None ==> *final(self) == *old(self),
            old(self).session matches Some(s) ==> final(self).review matches Some(r)
                && s.reviewed_as(r) && *final(self) == (App {
                review: final(self).review,
                screen: Screen::Review,
                ..*old(self)
            }),
    {
        if let Some(session) = &self.session {
            let review = session.review();
            self.review = Some(review);
            self.screen = Screen::Review;
        }
    }

    /// Opens the saved game named `name` whose text is `contents`, or says why not: the file
    /// could not be read (`contents` is nothing), or it holds no game record.
    pub fn open_selected_file(&mut self, contents: Option<&str>, name: String)
        requires
            old(self).wf(),
        ensures
            final(self).wf(),
            match contents {
                None => final(self).browser.message@ == "could not read that file"@ && *final(self)
                    == (App {
                    browser: Browser { message: final(self).browser.message, ..old(self).browser },
                    ..*old(self)
                }),
                Some(t) => if read_model(t@) is Some && fits(read_model(t@).unwrap()) {
                    final(self).review matches Some(r) && read_review(t@, name@, r) && *final(self)
                        == (App { review: final(self).review, screen: Screen::Review, ..*old(self) })
                } else {
                    final(self).browser.message@ == "that file is not a game record"@ && *final(
                        self) == (App {
                        browser: Browser { message: final(self).browser.message, ..old(self).browser },
                        ..*old(self)
                    })
                },
            },
    {
        match contents {
            None => {
                self.browser.message = String::from_str("could not read that file");
            },
            Some(text) => match review_of_text(text, name) {
                Some(review) => {
                    self.review = Some(review);
                    self.screen = Screen::Review;
                },
                None => {
                    self.browser.message = String::from_str("that file is not a game record");
                },
            },
        }
    }
}

/// `b` is client `a` after `key` on the main menu, with effect `e`: see `menu_keys`.
pub open spec fn on_menu(a: App, b: App, key: Key, e: Effect) -> bool {
    if upward(key) {
        e == Effect::Nothing && b == App { menu: one_less(a.menu), ..a }
    } else if downward(key) {
        e == Effect::Nothing && b == App { menu: one_more(a.menu, (MENU_LENGTH - 1) as usize), ..a }
    } else if key == Key::Enter {
        if a.menu == 0 {
            e == Effect::Nothing && b == App { screen: Screen::Setup, ..a }
        } else if a.menu == 1 {
            e == Effect::ListFiles && b == App { screen: Screen::Browser, ..a }
        } else if a.menu == 2 {
            e == Effect::Nothing && b == App { screen: Screen::Themes, ..a }
        } else if a.menu == 3 {
            e == Effect::Nothing && b == App { screen: Screen::Help, ..a }
        } else {
            e == Effect::Nothing && b == App { quit: true, ..a }
        }
    } else if key == Key::Char('q') {
        e == Effect::Nothing && b == App { quit: true, ..a }
    } else {
        e == Effect::Nothing && b == a
    }
}

/// The main menu: up and down move the pick, Enter opens the picked item, `q` quits.
pub fn menu_keys(app: &mut App, key: Key) -> (effect: Effect)
    requires
        old(app).wf(),
    ensures
        final(app).wf(),
        on_menu(*old(app), *final(app), key, effect),
{
    match key {
        Key::Up | Key::Char('k') => {
            if app.menu > 0 {
                app.menu = app.menu - 1;
            }
            Effect::Nothing
        },
        Key::Down | Key::Char('j') => {
            if app.menu + 1 <= MENU_LENGTH - 1 {
                app.menu = app.menu + 1;
            }
            Effect::Nothing
        },
        Key::Enter => {
            if app.menu == 0 {
                app.screen = Screen::Setup;
                Effect::Nothing
            } else if app.menu == 1 {
                app.screen = Screen::Browser;
                Effect::ListFiles
            } else if app.menu == 2 {
                app.screen = Screen::Themes;
                Effect::Nothing
            } else if app.menu == 3 {
                app.screen = Screen::Help;
                Effect::Nothing
            } else {
                app.quit = true;
                Effect::Nothing
            }
        },
        Key::Char('q') => {
            app.quit = true;
            Effect::Nothing
        },
        _ => Effect::Nothing,
    }
}

/// `b` is client `a` after `key` on the new-game screen, with effect `e`: see `setup_keys`.
pub open spec fn on_setup(a: App, b: App, key: Key, e: Effect) -> bool {
    if upward(key) {
        e == Effect::Nothing && b == App { setup: Setup { row: one_less(a.setup.row), ..a.setup }, ..a }
    } else if downward(key) {
        e == Effect::Nothing && b == App {
            setup: Setup { row: one_more(a.setup.row, (SETUP_ROWS - 1) as usize), ..a.setup },
            ..a
        }
    } else if leftward(key) {
        e == Effect::Nothing && a.setup.changed(&b.setup, false) && b == App { setup: b.setup, ..a }
    } else if rightward(key) {
        e == Effect::Nothing && a.setup.changed(&b.setup, true) && b == App { setup: b.setup, ..a }
    } else if key == Key::Enter {
        e == Effect::StartGame && b == a
    } else if key == Key::Esc {
        e == Effect::Nothing && b == App { screen: Screen::Menu, ..a }
    } else if key == Key::Char('q') {
        e == Effect::Nothing && b == App { quit: true, ..a }
    } else {
        e == Effect::Nothing && b == a
    }
}

/// The new-game screen: up and down pick a row, left and right change it, Enter starts the
/// game, Esc goes back to the menu, `q` quits.
pub fn setup_keys(app: &mut App, key: Key) -> (effect: Effect)
    requires
        old(app).wf(),
        old(app).setup.row == 3 && (leftward(key) || rightward(key)) ==> old(app).setup.level
            < u8::MAX,
    ensures
        final(app).wf(),
        on_setup(*old(app), *final(app), key, effect),
{
    match key {
        Key::Up | Key::Char('k') => {
            if app.setup.row > 0 {
                app.setup.row = app.setup.row - 1;
            }
            Effect::Nothing
        },
        Key::Down | Key::Char('j') => {
            if app.setup.row + 1 <= SETUP_ROWS - 1 {
                app.setup.row = app.setup.row + 1;
            }
            Effect::Nothing
        },
        Key::Left | Key::Char('h') => {
            app.setup.change(false);
            Effect::Nothing
        },
        Key::Right | Key::Char('l') => {
            app.setup.change(true);
            Effect::Nothing
        },
        Key::Enter => Effect::StartGame,
        Key::Esc => {
            app.screen = Screen::Menu;
            Effect::Nothing
        },
        Key::Char('q') => {
            app.quit = true;
            Effect::Nothing
        },
        _ => Effect::Nothing,
    }
}

/// Whether the game being played has room for two more positions on this machine.
pub open spec fn roomy(s: Session) -> bool {
    (s.plays@.len() + 2) * s.game.board@.len() <= usize::MAX
}

/// `t` is game `s` after `key` while it goes on, with effect `e`: see `playing_keys`.
pub open spec fn on_game(s: Session, t: Session, key: Key, e: Effect) -> bool {
    if upward(key) {
        e == Effect::Nothing && s.cursor_moved(&t, -1, 0)
    } else if downward(key) {
        e == Effect::Nothing && s.cursor_moved(&t, 1, 0)
    } else if leftward(key) {
        e == Effect::Nothing && s.cursor_moved(&t, 0, -1)
    } else if rightward(key) {
        e == Effect::Nothing && s.cursor_moved(&t, 0, 1)
    } else if key == Key::Enter || key == Key::Char(' ') {
        if roomy(s) {
            match e {
                Effect::Moved(f) => s.placing(&t, Some(f)),
                Effect::Nothing => s.placing(&t, None),
                _ => false,
            }
        } else {
            e == Effect::Nothing && t == s
        }
    } else if key == Key::Char('p') {
        if roomy(s) {
            match e {
                Effect::Moved(f) => s.passing(&t, Some(f)),
                Effect::Nothing => s.passing(&t, None),
                _ => false,
            }
        } else {
            e == Effect::Nothing && t == s
        }
    } else if key == Key::Char('u') {
        match e {
            Effect::TookBack(n) => n > 0 && s.undoing(&t, n),
            Effect::Nothing => s.undoing(&t, 0),
            _ => false,
        }
    } else if key == Key::Char('?') || key == Key::Char('i') {
        (e == Effect::Hint || e == Effect::Nothing) && s.asking(&t, e == Effect::Hint)
    } else if key == Key::Char('t') {
        e == Effect::Nothing && s.territory_flipped(&t)
    } else if key == Key::Char('e') {
        t == Session { show_eval: !s.show_eval, ..s } && e == (if t.show_eval {
            Effect::Eval
        } else {
            Effect::Nothing
        })
    } else if key == Key::Char('r') {
        e == Effect::Nothing && s.resigning(&t)
    } else if key == Key::Char('s') {
        e == Effect::SaveGame && t == s
    } else {
        e == Effect::Nothing && t == s
    }
}

/// `b` is client `a` after `key` on the board, with effect `e`: see `playing_keys`.
pub open spec fn on_board(a: App, b: App, key: Key, e: Effect) -> bool {
    match a.session {
        None => e == Effect::Nothing && b == a,
        Some(s) => if s.game.finished {
            if key == Key::Char('v') {
                e == Effect::Nothing && (b.review matches Some(r) && s.reviewed_as(r) && b == App {
                    review: b.review,
                    screen: Screen::Review,
                    ..a
                })
            } else if key == Key::Char('s') {
                e == Effect::SaveGame && b == a
            } else if key == Key::Char('n') {
                e == Effect::Nothing && b == App { screen: Screen::Setup, ..a }
            } else if key == Key::Esc {
                e == Effect::Nothing && b == App { screen: Screen::Menu, ..a }
            } else if key == Key::Char('q') {
                e == Effect::Nothing && b == App { quit: true, ..a }
            } else {
                e == Effect::Nothing && b == a
            }
        } else if key == Key::Esc {
            e == Effect::Nothing && b == App { screen: Screen::Menu, ..a }
        } else if key == Key::Char('q') {
            e == Effect::Nothing && b == App { quit: true, ..a }
        } else {
            b.session matches Some(t) && on_game(s, t, key, e) && b == App {
                session: b.session,
                ..a
            }
        },
    }
}

/// The board: while the game goes on the arrows move the cursor, Enter or space puts a stone,
/// `p` passes, `u` takes back, `?` or `i` asks for a hint, `t` shows territory, `e` the
/// evaluation bar, `r` resigns, `s` saves; once it is over `v` goes through it, `s` saves and
/// `n` sets up a new one. Esc goes back to the menu and `q` quits.
pub fn playing_keys(app: &mut App, key: Key) -> (effect: Effect)
    requires
        old(app).wf(),
    ensures
        final(app).wf(),
        on_board(*old(app), *final(app), key, effect),
{
    let over = match &app.session {
        Some(session) => session.game.finished,
        None => false,
    };
    if over {
        return match key {
            Key::Char('v') => {
                app.review_current_game();
                Effect::Nothing
            },
            Key::Char('s') => Effect::SaveGame,
            Key::Char('n') => {
                app.screen = Screen::Setup;
                Effect::Nothing
            },
            Key::Esc => {
                app.screen = Screen::Menu;
                Effect::Nothing
            },
            Key::Char('q') => {
                app.quit = true;
                Effect::Nothing
            },
            _ => Effect::Nothing,
        };
    }
    if app.session.is_none() {
        return Effect::Nothing;
    }
    match key {
        Key::Esc => {
            app.screen = Screen::Menu;
            return Effect::Nothing;
        },
        Key::Char('q') => {
            app.quit = true;
            return Effect::Nothing;
        },
        _ => {},
    }
    let mut session = app.session.take().unwrap();
    let effect = game_keys(&mut session, key);
    app.session = Some(session);
    effect
}

/// What a key does to a game that goes on: see `on_game`.
fn game_keys(session: &mut Session, key: Key) -> (effect: Effect)
    requires
        old(session).wf(),
        !old(session).game.finished,
    ensures
        final(session).wf(),
        on_game(*old(session), *final(session), key, effect),
{
    let room = match session.plays.len().checked_add(2) {
        Some(moves) => moves.checked_mul(session.game.board.points()).is_some(),
        None => false,
    };
    proof {
        session.game.board.lemma_wf();
        let n = session.game.board.width();
        let len = session.game.board@.len() as int;
        assert((session.cursor as int) / n < n) by (nonlinear_arith)
            requires
                session.cursor < len,
                len == n * n,
                n > 0,
        ;
        assert((session.cursor as int) % n < n) by (nonlinear_arith)
            requires
                n > 0,
        ;
        if session.plays@.len() + 2 > usize::MAX {
            assert((session.plays@.len() + 2) * len > usize::MAX) by (nonlinear_arith)
                requires
                    session.plays@.len() + 2 > usize::MAX,
                    len >= 1,
            ;
            assert(len >= 1) by (nonlinear_arith)
                requires
                    len == n * n,
                    n > 0,
            ;
        }
    }
    match key {
        Key::Up | Key::Char('k') => {
            session.move_cursor(-1, 0);
            Effect::Nothing
        },
        Key::Down | Key::Char('j') => {
            session.move_cursor(1, 0);
            Effect::Nothing
        },
        Key::Left | Key::Char('h') => {
            session.move_cursor(0, -1);
            Effect::Nothing
        },
        Key::Right | Key::Char('l') => {
            session.move_cursor(0, 1);
            Effect::Nothing
        },
        Key::Enter | Key::Char(' ') => {
            if !room {
                return Effect::Nothing;
            }
            match session.place() {
                Some(f) => Effect::Moved(f),
                None => Effect::Nothing,
            }
        },
        Key::Char('p') => {
            if !room {
                return Effect::Nothing;
            }
            match session.pass_turn() {
                Some(f) => Effect::Moved(f),
                None => Effect::Nothing,
            }
        },
        Key::Char('u') => {
            let removed = session.undo();
            if removed > 0 {
                Effect::TookBack(removed)
            } else {
                Effect::Nothing
            }
        },
        Key::Char('?') | Key::Char('i') => {
            if session.ask_for_hint() {
                Effect::Hint
            } else {
                Effect::Nothing
            }
        },
        Key::Char('t') => {
            session.toggle_territory();
            Effect::Nothing
        },
        Key::Char('e') => {
            session.toggle_eval();
            if session.show_eval {
                Effect::Eval
            } else {
                Effect::Nothing
            }
        },
        Key::Char('r') => {
            session.resign();
            Effect::Nothing
        },
        Key::Char('s') => Effect::SaveGame,
        _ => Effect::Nothing,
    }
}

/// Whether a review's move counter can be moved with the machine's small integers.
pub open spec fn steppable(r: Review) -> bool {
    r.positions@.len() - 1 <= i32::MAX - 10
}

/// `t` is review `r` moved `delta` positions, when it can be: see `Review::step`.
pub open spec fn stepped(r: Review, t: Review, delta: int) -> bool {
    if steppable(r) {
        t == Review { at: clamp_int(r.at + delta, 0, r.positions@.len() - 1) as usize, ..r }
    } else {
        t == r
    }
}

/// `b` is client `a` after `key` while a game is under review, with effect `e`: see
/// `review_keys`.
pub open spec fn on_review(a: App, b: App, key: Key, e: Effect) -> bool {
    match a.review {
        None => e == Effect::Nothing && b == a,
        Some(r) => if key == Key::Esc {
            e == Effect::StopAnalysis && b == App {
                review: Some(Review { analysis: Analysis { listening: false, ..r.analysis }, ..r }),
                screen: if a.session is Some {
                    Screen::Playing
                } else {
                    Screen::Menu
                },
                ..a
            }
        } else if key == Key::Char('q') {
            e == Effect::Nothing && b == App { quit: true, ..a }
        } else {
            b.review matches Some(t) && b == App { review: b.review, ..a } && if leftward(key) {
                e == Effect::Nothing && stepped(r, t, -1)
            } else if rightward(key) {
                e == Effect::Nothing && stepped(r, t, 1)
            } else if downward(key) {
                e == Effect::Nothing && stepped(r, t, -10)
            } else if upward(key) {
                e == Effect::Nothing && stepped(r, t, 10)
            } else if key == Key::Home || key == Key::Char('0') {
                e == Effect::Nothing && t == Review { at: 0, ..r }
            } else if key == Key::End || key == Key::Char('$') {
                e == Effect::Nothing && t == Review { at: (r.positions@.len() - 1) as usize, ..r }
            } else if key == Key::Char('a') {
                match e {
                    Effect::Analyse(ms) => r.analysed(&t, Some(ms)),
                    Effect::StopAnalysis => r.analysed(&t, None),
                    _ => false,
                }
            } else if key == Key::Char('t') {
                e == Effect::Nothing && t == Review { show_territory: !r.show_territory, ..r }
            } else {
                e == Effect::Nothing && t == r
            }
        },
    }
}

/// The review: left and right step one move, down and up ten, Home and End go to the ends,
/// `a` starts or stops the engine going through the game, `t` shows territory, Esc goes back
/// (to the game, when one is being played), `q` quits.
pub fn review_keys(app: &mut App, key: Key) -> (effect: Effect)
    requires
        old(app).wf(),
    ensures
        final(app).wf(),
        on_review(*old(app), *final(app), key, effect),
{
    if app.review.is_none() {
        return Effect::Nothing;
    }
    match key {
        Key::Esc => {
            let mut review = app.review.take().unwrap();
            review.analysis.cancel();
            app.review = Some(review);
            app.screen = if app.session.is_some() {
                Screen::Playing
            } else {
                Screen::Menu
            };
            return Effect::StopAnalysis;
        },
        Key::Char('q') => {
            app.quit = true;
            return Effect::Nothing;
        },
        _ => {},
    }
    let mut review = app.review.take().unwrap();
    let steppable = review.positions.len() - 1 <= (i32::MAX - 10) as usize;
    let effect = match key {
        Key::Left | Key::Char('h') => {
            if steppable {
                review.step(-1);
            }
            Effect::Nothing
        },
        Key::Right | Key::Char('l') => {
            if steppable {
                review.step(1);
            }
            Effect::Nothing
        },
        Key::Down | Key::Char('j') => {
            if steppable {
                review.step(-10);
            }
            Effect::Nothing
        },
        Key::Up | Key::Char('k') => {
            if steppable {
                review.step(10);
            }
            Effect::Nothing
        },
        Key::Home | Key::Char('0') => {
            review.at = 0;
            Effect::Nothing
        },
        Key::End | Key::Char('$') => {
            review.at = review.positions.len() - 1;
            Effect::Nothing
        },
        Key::Char('a') => match review.analyse() {
            Some(ms) => Effect::Analyse(ms),
            None => Effect::StopAnalysis,
        },
        Key::Char('t') => {
            review.show_territory = !review.show_territory;
            Effect::Nothing
        },
        _ => Effect::Nothing,
    };
    app.review = Some(review);
    effect
}

/// Whether the pick on the saved games can be moved with the machine's small integers.
pub open spec fn pickable(b: Browser) -> bool {
    b.files@.len() <= i32::MAX && b.selected < i32::MAX
}

/// `c` is list `b` with the pick moved `delta` places, when it can be: see `Browser::move_by`.
pub open spec fn picked(b: Browser, c: Browser, delta: int) -> bool {
    if pickable(b) && b.files@.len() > 0 {
        c == Browser { selected: clamp_int(b.selected + delta, 0, b.files@.len() - 1) as usize, ..b }
    } else {
        c == b
    }
}

/// `b` is client `a` after `key` on the list of saved games, with effect `e`: see
/// `browser_keys`.
pub open spec fn on_browser(a: App, b: App, key: Key, e: Effect) -> bool {
    if upward(key) {
        e == Effect::Nothing && picked(a.browser, b.browser, -1) && b == App { browser: b.browser, ..a }
    } else if downward(key) {
        e == Effect::Nothing && picked(a.browser, b.browser, 1) && b == App { browser: b.browser, ..a }
    } else if key == Key::Enter {
        e == Effect::OpenFile && b == a
    } else if key == Key::Char('r') {
        e == Effect::ListFiles && b == a
    } else if key == Key::Esc {
        e == Effect::Nothing && b == App { screen: Screen::Menu, ..a }
    } else if key == Key::Char('q') {
        e == Effect::Nothing && b == App { quit: true, ..a }
    } else {
        e == Effect::Nothing && b == a
    }
}

/// The list of saved games: up and down move the pick, Enter opens it, `r` lists the files
/// again, Esc goes back to the menu, `q` quits.
pub fn browser_keys(app: &mut App, key: Key) -> (effect: Effect)
    requires
        old(app).wf(),
    ensures
        final(app).wf(),
        on_browser(*old(app), *final(app), key, effect),
{
    let pickable = app.browser.files.len() <= i32::MAX as usize && app.browser.selected
        < i32::MAX as usize;
    match key {
        Key::Up | Key::Char('k') => {
            if pickable {
                app.browser.move_by(-1);
            }
            Effect::Nothing
        },
        Key::Down | Key::Char('j') => {
            if pickable {
                app.browser.move_by(1);
            }
            Effect::Nothing
        },
        Key::Enter => Effect::OpenFile,
        Key::Char('r') => Effect::ListFiles,
        Key::Esc => {
            app.screen = Screen::Menu;
            Effect::Nothing
        },
        Key::Char('q') => {
            app.quit = true;
            Effect::Nothing
        },
        _ => Effect::Nothing,
    }
}

/// `b` is client `a` with the next of `themes` colour schemes, or the one before.
pub open spec fn themed(a: App, b: App, themes: usize, forward: bool) -> bool {
    b == App {
        config: Config {
            theme: round_index(a.config.theme as int, themes as int, forward) as usize,
            ..a.config
        },
        ..a
    }
}

/// `b` is client `a` after `key` on the colour schemes, with effect `e`: see `theme_keys`.
pub open spec fn on_themes(a: App, b: App, key: Key, themes: usize, e: Effect) -> bool {
    if leftward(key) {
        e == Effect::SaveConfig && themed(a, b, themes, false)
    } else if rightward(key) {
        e == Effect::SaveConfig && themed(a, b, themes, true)
    } else if key == Key::Enter || key == Key::Esc {
        e == Effect::Nothing && b == App { screen: Screen::Menu, ..a }
    } else if key == Key::Char('q') {
        e == Effect::Nothing && b == App { quit: true, ..a }
    } else {
        e == Effect::Nothing && b == a
    }
}

/// The colour schemes, `themes` of them: left and right go through them, Enter or Esc goes
/// back to the menu, `q` quits.
pub fn theme_keys(app: &mut App, key: Key, themes: usize) -> (effect: Effect)
    requires
        old(app).wf(),
        themes > 0,
        leftward(key) || rightward(key) ==> old(app).config.theme + themes <= usize::MAX,
    ensures
        final(app).wf(),
        on_themes(*old(app), *final(app), key, themes, effect),
{
    match key {
        Key::Left | Key::Char('h') => {
            app.next_theme(false, themes);
            Effect::SaveConfig
        },
        Key::Right | Key::Char('l') => {
            app.next_theme(true, themes);
            Effect::SaveConfig
        },
        Key::Enter | Key::Esc => {
            app.screen = Screen::Menu;
            Effect::Nothing
        },
        Key::Char('q') => {
            app.quit = true;
            Effect::Nothing
        },
        _ => Effect::Nothing,
    }
}

/// A key on any screen: Tab goes to the next colour scheme everywhere, any key leaves the
/// help screen, and the screen on show deals with the rest.
pub fn handle(app: &mut App, key: Key, themes: usize) -> (effect: Effect)
    requires
        old(app).wf(),
        themes > 0,
        key == Key::Tab || (old(app).screen == Screen::Themes && (leftward(key) || rightward(key)))
            ==> old(app).config.theme + themes <= usize::MAX,
        old(app).screen == Screen::Setup && old(app).setup.row == 3 && (leftward(key) || rightward(
            key,
        )) ==> old(app).setup.level < u8::MAX,
    ensures
        final(app).wf(),
        key == Key::Tab ==> effect == Effect::SaveConfig && themed(*old(app), *final(app), themes, true),
        key != Key::Tab ==> match old(app).screen {
            Screen::Menu => on_menu(*old(app), *final(app), key, effect),
            Screen::Setup => on_setup(*old(app), *final(app), key, effect),
            Screen::Playing => on_board(*old(app), *final(app), key, effect),
            Screen::Review => on_review(*old(app), *final(app), key, effect),
            Screen::Browser => on_browser(*old(app), *final(app), key, effect),
            Screen::Themes => on_themes(*old(app), *final(app), key, themes, effect),
            Screen::Help => effect == Effect::Nothing && *final(app) == (App {
                screen: Screen::Menu,
                ..*old(app)
            }),
        },
{
    if key == Key::Tab {
        app.next_theme(true, themes);
        return Effect::SaveConfig;
    }
    match app.screen {
        Screen::Menu => menu_keys(app, key),
        Screen::Setup => setup_keys(app, key),
        Screen::Playing => playing_keys(app, key),
        Screen::Review => review_keys(app, key),
        Screen::Browser => browser_keys(app, key),
        Screen::Themes => theme_keys(app, key, themes),
        Screen::Help => {
            app.screen = Screen::Menu;
            Effect::Nothing
        },
    }
}

} // verus!
