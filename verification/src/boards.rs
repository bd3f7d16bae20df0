use vstd::prelude::*;
use crate::score::{premium, square_type, SquareType};

verus! {

/// What a square of the board does to the tile laid on it.
#[derive(Clone, Copy, Debug, PartialEq, Eq, Structural)]
pub enum TileType {
    Normal,
    DoubleCharacter,
    TripleCharacter,
    DoubleWord,
    TripleWord,
}

/// A square of the board as it is shown: the character on it, whether that
/// tile is a joker, and the kind of the square.
pub struct Tile {
    pub letter: Option<char>,
    pub is_joker: bool,
    pub tile_type: TileType,
}

impl Tile {
    /// An empty square of the given kind.
    pub fn new(tile_type: TileType) -> (tile: Tile)
        ensures
            tile.letter is None,
            !tile.is_joker,
            tile.tile_type == tile_type,
    {
        Tile { letter: None, is_joker: false, tile_type }
    }
}

pub type Row = Vec<Tile>;

/// The board as it is shown, row by row.
pub struct Board {
    pub rows: Vec<Row>,
}

impl Board {
    pub fn new(board: Vec<Row>) -> (b: Board)
        ensures
            b.rows == board,
    {
        Board { rows: board }
    }
}

/// The kind of tile square that a premium stands for.
pub open spec fn tile_type_of(kind: SquareType) -> TileType {
    match kind {
        SquareType::Normal => TileType::Normal,
        SquareType::DoubleLetter => TileType::DoubleCharacter,
        SquareType::TripleLetter => TileType::TripleCharacter,
        SquareType::DoubleWord => TileType::DoubleWord,
        SquareType::TripleWord => TileType::TripleWord,
    }
}

/// The empty board of 15 rows of 15 squares, each of the kind that the
/// premium table gives it.
pub fn load_board() -> (board: Board)
    ensures
        board.rows.len() == 15,
        forall|r: int| 0 <= r < 15 ==> (#[trigger] board.rows[r]).len() == 15,
        forall|r: int, c: int|
            0 <= r < 15 && 0 <= c < 15 ==> (#[trigger] board.rows[r][c]).letter is None
                && !board.rows[r][c].is_joker && board.rows[r][c].tile_type == tile_type_of(
                premium(r, c),
            ),
{
    let mut rows: Vec<Row> = Vec::new();
    let mut r: usize = 0;
    while r < 15
        invariant
            r <= 15,
            rows.len() == r,
            forall|i: int| 0 <= i < r ==> (#[trigger] rows[i]).len() == 15,
            forall|i: int, j: int|
                0 <= i < r && 0 <= j < 15 ==> (#[trigger] rows[i][j]).letter is None
                    && !rows[i][j].is_joker && rows[i][j].tile_type == tile_type_of(premium(i, j)),
        decreases 15 - r,
    {
        let mut row: Row = Vec::new();
        let mut c: usize = 0;
        while c < 15
            invariant
                r < 15,
                c <= 15,
                row.len() == c,
                forall|j: int|
                    0 <= j < c ==> (#[trigger] row[j]).letter is None && !row[j].is_joker
                        && row[j].tile_type == tile_type_of(premium(r as int, j)),
            decreases 15 - c,
        {
            let tile_type = match square_type(r, c) {
                SquareType::Normal => TileType::Normal,
                SquareType::DoubleLetter => TileType::DoubleCharacter,
                SquareType::TripleLetter => TileType::TripleCharacter,
                SquareType::DoubleWord => TileType::DoubleWord,
                SquareType::TripleWord => TileType::TripleWord,
            };
            row.push(Tile::new(tile_type));
            c = c + 1;
        }
        rows.push(row);
        r = r + 1;
    }
    Board::new(rows)
}

} // verus!
