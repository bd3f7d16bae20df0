use std::collections::HashMap;
use vstd::prelude::*;
use crate::letter::Letter;
use crate::score::{letter_value, tile_value};

verus! {

broadcast use vstd::std_specs::hash::group_hash_axioms;

/// The points of each of the 26 letters, by tile code.
pub fn load_tiles() -> (tiles: HashMap<Letter, usize>)
    ensures
        forall|l: Letter| tiles@.contains_key(l) <==> 1 <= l <= 26,
        forall|l: Letter| 1 <= l <= 26 ==> #[trigger] tiles@[l] == letter_value(l),
{
    let mut tiles: HashMap<Letter, usize> = HashMap::new();
    let mut letter: u8 = 1;
    while letter <= 26
        invariant
            1 <= letter <= 27,
            forall|l: Letter| tiles@.contains_key(l) <==> 1 <= l < letter,
            forall|l: Letter| 1 <= l < letter ==> #[trigger] tiles@[l] == letter_value(l),
        decreases 27 - letter,
    {
        tiles.insert(letter, tile_value(letter) as usize);
        letter = letter + 1;
    }
    tiles
}

} // verus!
