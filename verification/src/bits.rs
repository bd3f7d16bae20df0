use vstd::prelude::*;

verus! {

/// The set of all 26 letters, as a bit set: bit `l - 1` stands for letter `l`.
pub const ALL_LETTERS: u32 = 67108863;

/// Whether bit `k` of `set` is set.
pub open spec fn has_bit(set: u32, k: int) -> bool {
    0 <= k < 32 && set & (1u32 << (k as u32)) != 0
}

/// Whether bit `k` of `mask` is set.
pub open spec fn has_bit16(mask: u16, k: int) -> bool {
    0 <= k < 16 && mask & (1u16 << (k as u16)) != 0
}

/// Whether bit `k` of `set` is set.
pub fn test_bit(set: u32, k: u8) -> (b: bool)
    requires
        k < 32,
    ensures
        b == has_bit(set, k as int),
{
    set & (1u32 << (k as u32)) != 0
}

/// `set` with bit `k` set.
pub fn with_bit(set: u32, k: u8) -> (r: u32)
    requires
        k < 32,
    ensures
        r == set | (1u32 << (k as u32)),
        forall|j: int| 0 <= j < 32 ==> (#[trigger] has_bit(r, j) <==> has_bit(set, j) || j == k),
{
    let r = set | (1u32 << (k as u32));
    proof {
        assert forall|j: int| 0 <= j < 32 implies (#[trigger] has_bit(r, j) <==> has_bit(set, j)
            || j == k) by {
            lemma_or_bit(set, k as u32, j as u32);
        }
    }
    r
}

/// Whether bit `k` of `mask` is set.
pub fn test_bit16(mask: u16, k: usize) -> (b: bool)
    requires
        k < 16,
    ensures
        b == has_bit16(mask, k as int),
{
    mask & (1u16 << (k as u16)) != 0
}

/// `mask` with bit `k` set.
pub fn with_bit16(mask: u16, k: usize) -> (r: u16)
    requires
        k < 16,
    ensures
        r == mask | (1u16 << (k as u16)),
        forall|j: int| 0 <= j < 16 ==> (#[trigger] has_bit16(r, j) <==> has_bit16(mask, j) || j == k),
{
    let r = mask | (1u16 << (k as u16));
    proof {
        assert forall|j: int| 0 <= j < 16 implies (#[trigger] has_bit16(r, j) <==> has_bit16(
            mask,
            j,
        ) || j == k) by {
            lemma_or_bit16(mask, k as u16, j as u16);
        }
    }
    r
}

/// Setting bit `i` sets that bit and leaves the others.
pub proof fn lemma_or_bit(a: u32, i: u32, j: u32)
    by (bit_vector)
    requires
        i < 32,
        j < 32,
    ensures
        ((a | (1u32 << i)) & (1u32 << j) != 0) <==> ((a & (1u32 << j) != 0) || i == j),
{
}

/// Setting bit `i` sets that bit and leaves the others.
pub proof fn lemma_or_bit16(a: u16, i: u16, j: u16)
    by (bit_vector)
    requires
        i < 16,
        j < 16,
    ensures
        ((a | (1u16 << i)) & (1u16 << j) != 0) <==> ((a & (1u16 << j) != 0) || i == j),
{
}

/// The empty set has no bit set.
pub proof fn lemma_no_bit(j: u32)
    by (bit_vector)
    requires
        j < 32,
    ensures
        0u32 & (1u32 << j) == 0,
{
}

/// The empty mask has no bit set.
pub proof fn lemma_no_bit16(j: u16)
    by (bit_vector)
    requires
        j < 16,
    ensures
        0u16 & (1u16 << j) == 0,
{
}

/// The set of all letters holds bits 0 to 25 and no other.
pub proof fn lemma_all_letters_bits(j: u32)
    by (bit_vector)
    requires
        j < 32,
    ensures
        (67108863u32 & (1u32 << j) != 0) <==> j < 26,
{
}

} // verus!
