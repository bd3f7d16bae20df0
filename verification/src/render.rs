use vstd::prelude::*;
use vstd::string::StringExecFns;
use crate::board::{Board, Grid};
use crate::boards::TileType;
use crate::letter::{char_of, push_char, Letter, ToChar};
use crate::score::{premium, square_type, SquareType};

verus! {

/// What switches on the colour of a square of the given kind; nothing for a
/// plain square.
pub open spec fn colour_on(kind: SquareType) -> Seq<char> {
    match kind {
        SquareType::Normal => ""@,
        SquareType::DoubleLetter => "\x1b[106m"@,
        SquareType::TripleLetter => "\x1b[104m"@,
        SquareType::DoubleWord => "\x1b[105m"@,
        SquareType::TripleWord => "\x1b[101m"@,
    }
}

/// What switches the colour of a square off again; nothing for a plain
/// square.
pub open spec fn colour_off(kind: SquareType) -> Seq<char> {
    match kind {
        SquareType::Normal => ""@,
        _ => "\x1b[0m"@,
    }
}

/// The text of one square: its letter between two blanks, in the colour of
/// the square, and the bar that closes it.
pub open spec fn cell_text(l: Letter, kind: SquareType) -> Seq<char> {
    colour_on(kind) + " "@ + seq![char_of(l)] + " "@ + colour_off(kind) + "│"@
}

/// The text of the first `k` squares of row `r`, after the bar that opens
/// the row.
pub open spec fn row_text(g: Grid, r: int, k: int) -> Seq<char>
    decreases k,
{
    if k <= 0 {
        "│"@
    } else {
        row_text(g, r, k - 1) + cell_text(g[r][k - 1], premium(r, k - 1))
    }
}

/// The text of the first `k` rows of the board, under the top border: each
/// row on a line of its own, and under it a border.
pub open spec fn board_text(g: Grid, k: int) -> Seq<char>
    decreases k,
{
    if k <= 0 {
        "┌───┬───┬───┬───┬───┬───┬───┬───┬───┬───┬───┬───┬───┬───┬───┐"@ + "\n"@
    } else {
        board_text(g, k - 1) + row_text(g, k - 1, 15) + "\n"@ + (if k < 15 {
            "├───┼───┼───┼───┼───┼───┼───┼───┼───┼───┼───┼───┼───┼───┼───┤"@
        } else {
            "└───┴───┴───┴───┴───┴───┴───┴───┴───┴───┴───┴───┴───┴───┴───┘"@
        }) + "\n"@
    }
}

/// The text of one square of the board.
pub fn render_cell(l: Letter, kind: SquareType) -> (text: String)
    requires
        l <= 26,
    ensures
        text@ == cell_text(l, kind),
{
    let on = match kind {
        SquareType::Normal => "",
        SquareType::DoubleLetter => "\x1b[106m",
        SquareType::TripleLetter => "\x1b[104m",
        SquareType::DoubleWord => "\x1b[105m",
        SquareType::TripleWord => "\x1b[101m",
    };
    let off = match kind {
        SquareType::Normal => "",
        _ => "\x1b[0m",
    };
    let mut text = String::from_str(on);
    text.append(" ");
    push_char(&mut text, l.to_char());
    text.append(" ");
    text.append(off);
    text.append("│");
    text
}

/// The board drawn as text, premium squares in colour.
pub fn render_board(board: &Board) -> (text: String)
    requires
        board.wf(),
    ensures
        text@ == board_text(board.grid(), 15),
{
    let ghost g = board.grid();
    let mut text = String::from_str(
        "┌───┬───┬───┬───┬───┬───┬───┬───┬───┬───┬───┬───┬───┬───┬───┐",
    );
    text.append("\n");
    let mut r: usize = 0;
    while r < 15
        invariant
            r <= 15,
            board.wf(),
            g == board.grid(),
            text@ == board_text(g, r as int),
        decreases 15 - r,
    {
        let ghost above = text@;
        text.append("│");
        let mut c: usize = 0;
        while c < 15
            invariant
                r < 15,
                c <= 15,
                board.wf(),
                g == board.grid(),
                text@ == above + row_text(g, r as int, c as int),
            decreases 15 - c,
        {
            let ghost left = row_text(g, r as int, c as int);
            let letter = board.primary[r][c];
            assert(letter <= 26);
            assert(letter == g[r as int][c as int]);
            let cell = render_cell(letter, square_type(r, c));
            text.append(cell.as_str());
            proof {
                assert(text@ =~= above + (left + cell@));
            }
            c = c + 1;
        }
        let ghost row = row_text(g, r as int, 15);
        text.append("\n");
        if r < 14 {
            text.append("├───┼───┼───┼───┼───┼───┼───┼───┼───┼───┼───┼───┼───┼───┼───┤");
        } else {
            text.append("└───┴───┴───┴───┴───┴───┴───┴───┴───┴───┴───┴───┴───┴───┴───┘");
        }
        text.append("\n");
        proof {
            assert(text@ =~= board_text(g, r + 1));
        }
        r = r + 1;
    }
    text
}

/// `count` times the text `piece`.
pub open spec fn repeated(piece: Seq<char>, count: int) -> Seq<char>
    decreases count,
{
    if count <= 0 {
        Seq::<char>::empty()
    } else {
        repeated(piece, count - 1) + piece
    }
}

/// What opens a square of the given kind: its colour, if it has one, and a
/// blank.
pub open spec fn tile_opening(kind: TileType) -> Seq<char> {
    match kind {
        TileType::Normal => " "@,
        TileType::DoubleCharacter => "\x1b[46m "@,
        TileType::TripleCharacter => "\x1b[44m "@,
        TileType::DoubleWord => "\x1b[45m "@,
        TileType::TripleWord => "\x1b[41m "@,
    }
}

/// The text of one square: its opening, its character or a blank, a blank,
/// and the bar that closes it.
pub open spec fn tile_text(tile: crate::boards::Tile) -> Seq<char> {
    tile_opening(tile.tile_type) + seq![
        match tile.letter {
            Some(c) => c,
            None => ' ',
        },
    ] + " \x1b[0m┃"@
}

/// The text of the first `k` squares of a row, after the bar that opens the
/// row.
pub open spec fn tiles_text(row: Seq<crate::boards::Tile>, k: int) -> Seq<char>
    decreases k,
{
    if k <= 0 {
        "┃"@
    } else {
        tiles_text(row, k - 1) + tile_text(row[k - 1])
    }
}

/// The text of the first `k` rows, under the top rule: each row on a line of
/// its own, and under it a rule of 61 strokes.
pub open spec fn rows_text(rows: Seq<crate::boards::Row>, k: int) -> Seq<char>
    decreases k,
{
    if k <= 0 {
        repeated("━"@, 61) + "\n"@
    } else {
        rows_text(rows, k - 1) + tiles_text(rows[k - 1]@, rows[k - 1].len() as int) + "\n"@
            + repeated("━"@, 61) + "\n"@
    }
}

/// A rule of 61 strokes is appended to `text`.
fn append_rule(text: &mut String)
    ensures
        final(text)@ == old(text)@ + repeated("━"@, 61),
{
    let mut i: usize = 0;
    proof {
        assert(text@ =~= old(text)@ + repeated("━"@, 0));
    }
    while i < 61
        invariant
            i <= 61,
            text@ == old(text)@ + repeated("━"@, i as int),
        decreases 61 - i,
    {
        text.append("━");
        proof {
            assert(text@ =~= old(text)@ + repeated("━"@, i + 1));
        }
        i = i + 1;
    }
}

/// The text of one square of the board of tiles.
pub fn render_tile(tile: &crate::boards::Tile) -> (text: String)
    ensures
        text@ == tile_text(*tile),
{
    let opening = match tile.tile_type {
        TileType::Normal => " ",
        TileType::DoubleCharacter => "\x1b[46m ",
        TileType::TripleCharacter => "\x1b[44m ",
        TileType::DoubleWord => "\x1b[45m ",
        TileType::TripleWord => "\x1b[41m ",
    };
    let shown = match tile.letter {
        Some(c) => c,
        None => ' ',
    };
    let mut text = String::from_str(opening);
    push_char(&mut text, shown);
    text.append(" \x1b[0m┃");
    text
}

/// The board of tiles drawn as text, premium squares in colour.
pub fn render_tiles(board: &crate::boards::Board) -> (text: String)
    ensures
        text@ == rows_text(board.rows@, board.rows.len() as int),
{
    let mut text = String::new();
    append_rule(&mut text);
    text.append("\n");
    proof {
        assert(text@ =~= rows_text(board.rows@, 0));
    }
    let mut r: usize = 0;
    while r < board.rows.len()
        invariant
            r <= board.rows.len(),
            text@ == rows_text(board.rows@, r as int),
        decreases board.rows.len() - r,
    {
        let ghost above = text@;
        let row = &board.rows[r];
        text.append("┃");
        let mut c: usize = 0;
        while c < row.len()
            invariant
                c <= row.len(),
                text@ == above + tiles_text(row@, c as int),
            decreases row.len() - c,
        {
            let ghost left = tiles_text(row@, c as int);
            let cell = render_tile(&row[c]);
            text.append(cell.as_str());
            proof {
                assert(text@ =~= above + (left + cell@));
            }
            c = c + 1;
        }
        text.append("\n");
        append_rule(&mut text);
        text.append("\n");
        proof {
            assert(text@ =~= rows_text(board.rows@, r + 1));
        }
        r = r + 1;
    }
    text
}

} // verus!
