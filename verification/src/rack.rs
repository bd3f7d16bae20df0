use vstd::prelude::*;
use crate::letter::Letter;

verus! {

/// A rack as a map from tile code to the number of such tiles.
pub type Rack = Map<Letter, u8>;

/// A rack holds no entry for a tile it has none of.
pub open spec fn rack_wf(rack: Rack) -> bool {
    forall|l: Letter| rack.contains_key(l) ==> #[trigger] rack[l] >= 1
}

/// The number of tiles `l` on the rack.
pub open spec fn rack_count(rack: Rack, l: Letter) -> int {
    if rack.contains_key(l) {
        rack[l] as int
    } else {
        0
    }
}

/// The rack with one tile `l` less; the entry goes with the last such tile.
pub open spec fn rack_without(rack: Rack, l: Letter) -> Rack {
    if !rack.contains_key(l) {
        rack
    } else if rack[l] > 1 {
        rack.insert(l, (rack[l] - 1) as u8)
    } else {
        rack.remove(l)
    }
}

/// The rack with one tile `l` more.
pub open spec fn rack_with(rack: Rack, l: Letter) -> Rack {
    if rack.contains_key(l) {
        rack.insert(l, (rack[l] + 1) as u8)
    } else {
        rack.insert(l, 1u8)
    }
}

/// Taking a tile from the rack and putting it back gives the rack back.
pub proof fn lemma_rack_restored(rack: Rack, l: Letter)
    requires
        rack_wf(rack),
        rack.contains_key(l),
    ensures
        rack_wf(rack_without(rack, l)),
        rack_count(rack_without(rack, l), l) == rack_count(rack, l) - 1,
        forall|k: Letter| k != l ==> rack_count(rack_without(rack, l), k) == rack_count(rack, k),
        rack_with(rack_without(rack, l), l) == rack,
{
    assert(rack[l] >= 1);
    assert(rack_with(rack_without(rack, l), l) =~= rack);
}

} // verus!
