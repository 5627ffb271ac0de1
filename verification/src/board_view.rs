//! What the board looks like on screen: its size in character cells, and the glyph and ink of
//! each point.
use vstd::prelude::*;
use crate::game::{
    Stone, Play, Game, spots_to_points, star_spots, column_letter, column_char, coord_text,
    play_name,
};
use crate::text::{decimal, push_decimal, push_char};

verus! {

/// How many character cells wide a board `size` points wide is drawn, frame included.
pub fn board_width(size: usize) -> (r: u16)
    requires
        size * 2 + 8 <= u16::MAX,
    ensures
        r == size * 2 + 8,
{
    size as u16 * 2 + 8
}

/// How many character cells high a board `size` points wide is drawn, frame included.
pub fn board_height(size: usize) -> (r: u16)
    requires
        size + 4 <= u16::MAX,
    ensures
        r == size + 4,
{
    size as u16 + 4
}

/// The line glyph of an empty point that is not a star point: a corner, an edge or a
/// crossing, by where it stands.
pub open spec fn grid_view(row: int, col: int, size: int) -> Seq<char> {
    let top = row == 0;
    let bottom = row + 1 == size;
    let left = col == 0;
    let right = col + 1 == size;
    if top && left {
        "\u{250c}"@
    } else if top && right {
        "\u{2510}"@
    } else if bottom && left {
        "\u{2514}"@
    } else if bottom && right {
        "\u{2518}"@
    } else if top {
        "\u{252c}"@
    } else if bottom {
        "\u{2534}"@
    } else if left {
        "\u{251c}"@
    } else if right {
        "\u{2524}"@
    } else {
        "\u{253c}"@
    }
}

/// The line glyph of point `row`, `col` of a board `size` wide: see `grid_view`.
pub fn grid_glyph(row: usize, col: usize, size: usize) -> (r: &'static str)
    requires
        row < usize::MAX,
        col < usize::MAX,
    ensures
        r@ == grid_view(row as int, col as int, size as int),
{
    let top = row == 0;
    let bottom = row + 1 == size;
    let left = col == 0;
    let right = col + 1 == size;
    if top && left {
        "\u{250c}"
    } else if top && right {
        "\u{2510}"
    } else if bottom && left {
        "\u{2514}"
    } else if bottom && right {
        "\u{2518}"
    } else if top {
        "\u{252c}"
    } else if bottom {
        "\u{2534}"
    } else if left {
        "\u{251c}"
    } else if right {
        "\u{2524}"
    } else {
        "\u{253c}"
    }
}

/// The colour a glyph is drawn in: a stone's colour, the colour of good news, of star points,
/// or of the board's lines.
#[derive(Clone, Copy, PartialEq, Eq, Debug, Structural)]
pub enum Ink {
    Stone(Stone),
    Good,
    Star,
    Line,
}

/// How one point is drawn: its glyph, its ink, whether in bold, and whether the cursor is on it.
pub struct Cell {
    pub glyph: &'static str,
    pub ink: Ink,
    pub bold: bool,
    pub cursor: bool,
}

/// The glyph of a point: a stone (ringed when it was the last move), else the mark of a
/// suggested move, else a territory dot, else a star point, else the grid.
pub open spec fn glyph_view(
    stone: Stone,
    last: bool,
    mark: bool,
    owner: Option<Stone>,
    star: bool,
    row: int,
    col: int,
    size: int,
) -> Seq<char> {
    if stone != Stone::Empty {
        if last {
            if stone == Stone::Black {
                "\u{25c9}"@
            } else {
                "\u{25ce}"@
            }
        } else if stone == Stone::Black {
            "\u{25cf}"@
        } else {
            "\u{25cb}"@
        }
    } else if mark {
        "\u{25c7}"@
    } else if owner is Some {
        if owner == Some(Stone::Black) {
            "\u{25aa}"@
        } else {
            "\u{25ab}"@
        }
    } else if star {
        "\u{254b}"@
    } else {
        grid_view(row, col, size)
    }
}

/// The ink of a point, chosen as its glyph is.
pub open spec fn ink_view(stone: Stone, mark: bool, owner: Option<Stone>, star: bool) -> Ink {
    if stone != Stone::Empty {
        Ink::Stone(stone)
    } else if mark {
        Ink::Good
    } else if owner is Some {
        Ink::Stone(owner.unwrap())
    } else if star {
        Ink::Star
    } else {
        Ink::Line
    }
}

/// How one point is drawn: see `glyph_view` and `ink_view`; stones and the mark are bold.
pub fn point_look(
    stone: Stone,
    last: bool,
    mark: bool,
    owner: Option<Stone>,
    star: bool,
    row: usize,
    col: usize,
    size: usize,
    cursor: bool,
) -> (c: Cell)
    requires
        row < usize::MAX,
        col < usize::MAX,
    ensures
        c.glyph@ == glyph_view(stone, last, mark, owner, star, row as int, col as int, size as int),
        c.ink == ink_view(stone, mark, owner, star),
        c.bold == (stone != Stone::Empty || mark),
        c.cursor == cursor,
{
    if stone != Stone::Empty {
        let glyph = if last {
            if stone == Stone::Black {
                "\u{25c9}"
            } else {
                "\u{25ce}"
            }
        } else {
            stone.symbol()
        };
        Cell { glyph, ink: Ink::Stone(stone), bold: true, cursor }
    } else if mark {
        Cell { glyph: "\u{25c7}", ink: Ink::Good, bold: true, cursor }
    } else if let Some(o) = owner {
        let glyph = if o == Stone::Black {
            "\u{25aa}"
        } else {
            "\u{25ab}"
        };
        Cell { glyph, ink: Ink::Stone(o), bold: false, cursor }
    } else if star {
        Cell { glyph: "\u{254b}", ink: Ink::Star, bold: false, cursor }
    } else {
        Cell { glyph: grid_glyph(row, col, size), ink: Ink::Line, bold: false, cursor }
    }
}

/// Whether `p` is one of `pts`.
fn holds(pts: &Vec<usize>, p: usize) -> (r: bool)
    ensures
        r == pts@.contains(p),
{
    let mut i: usize = 0;
    while i < pts.len()
        invariant
            0 <= i <= pts@.len(),
            forall|j: int| 0 <= j < i ==> pts@[j] != p,
        decreases pts@.len() - i,
    {
        if pts[i] == p {
            proof {
                assert(pts@[i as int] == p);
            }
            return true;
        }
        i += 1;
    }
    false
}

/// Every point of the board as drawn, row by row: its stone, whether it was the last move,
/// whether it is the suggested move, who owns it when territory is shown, whether it is a
/// star point, and whether the cursor is on it.
pub fn board_cells(
    game: &Game,
    cursor: Option<usize>,
    last: Option<usize>,
    mark: Option<Play>,
    territory: Option<&Vec<Option<Stone>>>,
) -> (cells: Vec<Cell>)
    requires
        game.wf(),
        territory matches Some(map) ==> map@.len() == game.board@.len(),
    ensures
        cells@.len() == game.board@.len(),
        forall|p: int|
            0 <= p < cells@.len() ==> {
                let n = game.board.width();
                let owner = match territory {
                    Some(map) => map@[p],
                    None => None,
                };
                let star = spots_to_points(n, star_spots(n)).contains(p as usize);
                &&& (#[trigger] cells@[p]).glyph@ == glyph_view(
                    game.board@[p],
                    last == Some(p as usize),
                    mark == Some(Play::Point(p as usize)),
                    owner,
                    star,
                    p / n,
                    p % n,
                    n,
                )
                &&& cells@[p].ink == ink_view(
                    game.board@[p],
                    mark == Some(Play::Point(p as usize)),
                    owner,
                    star,
                )
                &&& cells@[p].bold == (game.board@[p] != Stone::Empty || mark == Some(
                    Play::Point(p as usize),
                ))
                &&& cells@[p].cursor == (cursor == Some(p as usize))
            },
{
    let size = game.size();
    let total = game.board.points();
    let stars = game.star_points();
    proof {
        game.board.lemma_wf();
    }
    let mut cells: Vec<Cell> = Vec::new();
    let mut p: usize = 0;
    while p < total
        invariant
            game.wf(),
            size == game.board.width(),
            total == game.board@.len(),
            total == size * size,
            stars@ == spots_to_points(size as int, star_spots(size as int)),
            territory matches Some(map) ==> map@.len() == total,
            0 <= p <= total,
            cells@.len() == p,
            forall|q: int|
                0 <= q < p ==> {
                    let n = game.board.width();
                    let owner = match territory {
                        Some(map) => map@[q],
                        None => None,
                    };
                    let star = spots_to_points(n, star_spots(n)).contains(q as usize);
                    &&& (#[trigger] cells@[q]).glyph@ == glyph_view(
                        game.board@[q],
                        last == Some(q as usize),
                        mark == Some(Play::Point(q as usize)),
                        owner,
                        star,
                        q / n,
                        q % n,
                        n,
                    )
                    &&& cells@[q].ink == ink_view(
                        game.board@[q],
                        mark == Some(Play::Point(q as usize)),
                        owner,
                        star,
                    )
                    &&& cells@[q].bold == (game.board@[q] != Stone::Empty || mark == Some(
                        Play::Point(q as usize),
                    ))
                    &&& cells@[q].cursor == (cursor == Some(q as usize))
                },
        decreases total - p,
    {
        proof {
            assert(p / size < size) by (nonlinear_arith)
                requires
                    p < size * size,
                    size > 0,
            ;
        }
        let row = p / size;
        let col = p % size;
        let owner = match territory {
            Some(map) => map[p],
            None => None,
        };
        let is_mark = match mark {
            Some(Play::Point(m)) => m == p,
            _ => false,
        };
        let cell = point_look(
            game.board.at(p),
            last == Some(p),
            is_mark,
            owner,
            holds(&stars, p),
            row,
            col,
            size,
            cursor == Some(p),
        );
        cells.push(cell);
        p += 1;
    }
    cells
}

/// The letters over the columns of a board `size` wide, each after a space, after two spaces.
pub open spec fn header_text(size: nat) -> Seq<char>
    decreases size,
{
    if size == 0 {
        seq![' ', ' ']
    } else {
        header_text((size - 1) as nat) + seq![' ', column_letter(size - 1)]
    }
}

/// The letters over the columns: see `header_text`.
pub fn column_header(size: usize) -> (r: String)
    ensures
        r@ == header_text(size as nat),
{
    let mut text = String::new();
    push_char(&mut text, ' ');
    push_char(&mut text, ' ');
    let mut col: usize = 0;
    proof {
        assert(text@ =~= header_text(0));
    }
    while col < size
        invariant
            0 <= col <= size,
            text@ == header_text(col as nat),
        decreases size - col,
    {
        push_char(&mut text, ' ');
        push_char(&mut text, column_char(col));
        proof {
            assert(text@ =~= header_text((col + 1) as nat));
        }
        col += 1;
    }
    text
}

/// `n` in decimal, with spaces in front to fill `width` characters.
pub open spec fn padded(n: nat, width: nat) -> Seq<char> {
    let d = decimal(n);
    if d.len() < width {
        Seq::new((width - d.len()) as nat, |i: int| ' ') + d
    } else {
        d
    }
}

/// Appends `n` with spaces in front to fill `width` characters.
fn push_padded(text: &mut String, n: u64, width: usize)
    ensures
        final(text)@ == old(text)@ + padded(n as nat, width as nat),
{
    let mut digits = String::new();
    push_decimal(&mut digits, n);
    let len = digits.as_str().unicode_len();
    let ghost start = text@;
    if len < width {
        let mut k: usize = 0;
        while k < width - len
            invariant
                len < width,
                0 <= k <= width - len,
                text@ == start + Seq::new(k as nat, |i: int| ' '),
            decreases width - len - k,
        {
            push_char(text, ' ');
            proof {
                assert(text@ =~= start + Seq::new((k + 1) as nat, |i: int| ' '));
            }
            k += 1;
        }
    }
    text.append(digits.as_str());
    proof {
        assert(final(text)@ =~= old(text)@ + padded(n as nat, width as nat));
    }
}

/// The number of row `number` as drawn to the left of the board: two characters, then a space.
pub fn row_label(number: usize) -> (r: String)
    ensures
        r@ == padded(number as nat, 2) + seq![' '],
{
    let mut text = String::new();
    push_padded(&mut text, number as u64, 2);
    push_char(&mut text, ' ');
    text
}

/// One line of the move list: the move's number in three characters, a point, the stone's
/// glyph and the move's name.
pub open spec fn move_line_text(number: nat, color: Stone, play: Play, size: int) -> Seq<char> {
    padded(number, 3) + seq!['.', ' '] + match color {
        Stone::Black => "\u{25cf}"@,
        Stone::White => "\u{25cb}"@,
        Stone::Empty => " "@,
    } + seq![' '] + match play {
        Play::Point(p) => coord_text(p as int, size),
        Play::Pass => seq!['p', 'a', 's', 's'],
    }
}

/// The list of moves shown beside the board: up to `count` moves ending with move `around`
/// (or the last move), each line with whether it is move `around`; a note when there are none.
pub fn move_list(plays: &Vec<(Stone, Play)>, size: usize, around: usize, count: usize) -> (lines: Vec<(String, bool)>)
    requires
        forall|i: int|
            0 <= i < plays@.len() ==> ((#[trigger] plays@[i]).1 matches Play::Point(p) ==> size > 0
                && p / size <= size),
    ensures
        ({
            let end = if around < plays@.len() {
                around as int
            } else {
                plays@.len() as int
            };
            let start = if end >= count {
                end - count
            } else {
                0
            };
            &&& end > start ==> lines@.len() == end - start
            &&& end > start ==> forall|k: int|
                0 <= k < lines@.len() ==> (#[trigger] lines@[k]).0@ == move_line_text(
                    (start + k + 1) as nat,
                    plays@[start + k].0,
                    plays@[start + k].1,
                    size as int,
                ) && lines@[k].1 == (start + k + 1 == around)
            &&& end <= start ==> lines@.len() == 1 && lines@[0].0@ == "no moves yet"@
                && !lines@[0].1
        }),
{
    let end = if around < plays.len() {
        around
    } else {
        plays.len()
    };
    let start = if end >= count {
        end - count
    } else {
        0
    };
    let mut lines: Vec<(String, bool)> = Vec::new();
    let mut i = start;
    while i < end
        invariant
            start <= i <= end,
            end <= plays@.len(),
            lines@.len() == i - start,
            forall|i: int|
                0 <= i < plays@.len() ==> ((#[trigger] plays@[i]).1 matches Play::Point(p) ==> size
                    > 0 && p / size <= size),
            forall|k: int|
                0 <= k < lines@.len() ==> (#[trigger] lines@[k]).0@ == move_line_text(
                    (start + k + 1) as nat,
                    plays@[start + k].0,
                    plays@[start + k].1,
                    size as int,
                ) && lines@[k].1 == (start + k + 1 == around),
        decreases end - i,
    {
        let (color, play) = plays[i];
        let number = i + 1;
        let mut text = String::new();
        push_padded(&mut text, number as u64, 3);
        push_char(&mut text, '.');
        push_char(&mut text, ' ');
        text.append(color.symbol());
        push_char(&mut text, ' ');
        proof {
            assert(plays@[i as int] == (color, play));
        }
        let name = play_name(play, size);
        text.append(name.as_str());
        proof {
            assert(text@ =~= move_line_text(number as nat, color, play, size as int));
        }
        lines.push((text, number == around));
        i += 1;
    }
    if lines.len() == 0 {
        lines.push((String::from_str("no moves yet"), false));
    }
    lines
}

} // verus!
