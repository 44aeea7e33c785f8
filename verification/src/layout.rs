//! The bit layout of the board and of its encoding, four bits to a column,
//! and what the bit operations of the rules do to the 4-bit units.

use crate::bit_utils::hot_bits;
use crate::bit_utils::hot_bits_from;
use crate::bit_utils::is_set;
use crate::bit_utils::lemma_ones_split;
use crate::bit_utils::ones;
use crate::position::field;
use crate::position::lemma_marked_units_split;
use crate::position::marked_units;
use crate::position::marked_units_from;
use crate::position::unit;
use vstd::prelude::*;

verus! {

/// The 4-bit unit of column `c` in `x`, read with a shift and a mask.
pub open spec fn nib(x: u32, c: u32) -> u32 {
    (x >> (4 * c)) & 0xf
}

/// The word of a column is a one shifted to its front slot, and the 4-bit unit
/// of a column is a quotient's remainder.
pub proof fn lemma_unit_bits(x: u32, c: u32)
    by (bit_vector)
    requires
        c < 8,
    ensures
        1u32 << (4 * c) == (if c == 0 {
            0x1u32
        } else if c == 1 {
            0x10u32
        } else if c == 2 {
            0x100u32
        } else if c == 3 {
            0x1000u32
        } else if c == 4 {
            0x1_0000u32
        } else if c == 5 {
            0x10_0000u32
        } else if c == 6 {
            0x100_0000u32
        } else {
            0x1000_0000u32
        }),
        nib(x, c) == (x / (1u32 << (4 * c))) % 16,
{
}

/// The 4-bit unit of a column, read with a shift and a mask.
pub proof fn lemma_field(x: u32, c: int)
    requires
        0 <= c < 8,
    ensures
        field(x, c) == nib(x, c as u32),
        unit(c) == 1u32 << (4 * (c as u32)),
        0 <= field(x, c) <= 15,
{
    reveal(field);
    lemma_unit_bits(x, c as u32);
}

/// A word is the sum of its 4-bit units, each at its place.
pub proof fn lemma_sum_of_fields(id: u32)
    by (bit_vector)
    ensures
        id == nib(id, 0) + 0x10 * nib(id, 1) + 0x100 * nib(id, 2) + 0x1000 * nib(id, 3) + 0x1_0000
            * nib(id, 4) + 0x10_0000 * nib(id, 5) + 0x100_0000 * nib(id, 6) + 0x1000_0000 * nib(
            id,
            7,
        ),
{
}

/// The ones of a word are the ones of its eight 4-bit units.
pub proof fn lemma_ones_of_fields(x: u32)
    ensures
        ones(x as nat) == ones(field(x, 0) as nat) + ones(field(x, 1) as nat) + ones(
            field(x, 2) as nat,
        ) + ones(field(x, 3) as nat) + ones(field(x, 4) as nat) + ones(field(x, 5) as nat) + ones(
            field(x, 6) as nat,
        ) + ones(field(x, 7) as nat),
{
    reveal(field);
    let n = x as nat;
    lemma_ones_split(n);
    lemma_ones_split(n / 0x10);
    lemma_ones_split(n / 0x100);
    lemma_ones_split(n / 0x1000);
    lemma_ones_split(n / 0x1_0000);
    lemma_ones_split(n / 0x10_0000);
    lemma_ones_split(n / 0x100_0000);
    lemma_ones_split(n / 0x1000_0000);
    assert(n / 0x10 / 16 == n / 0x100);
    assert(n / 0x100 / 16 == n / 0x1000);
    assert(n / 0x1000 / 16 == n / 0x1_0000);
    assert(n / 0x1_0000 / 16 == n / 0x10_0000);
    assert(n / 0x10_0000 / 16 == n / 0x100_0000);
    assert(n / 0x100_0000 / 16 == n / 0x1000_0000);
    assert(n / 0x1000_0000 / 16 == 0);
    assert(ones(0) == 0);
}

/// Whether two bit sets are the two colours of a board: no slot holds two
/// stones, the fourth bit of each column is unused, and the stones of a column
/// fill its slots from slot 0 up without a gap.
pub open spec fn wf_bits(b: u32, w: u32) -> bool {
    &&& b & w == 0
    &&& (b | w) & 0x8888_8888 == 0
    &&& ((b | w) >> 1) & !(b | w) & 0x7777_7777 == 0
}

/// The encoding of the board with the black stones `b` and the white stones
/// `w`: one bit above the stones of each column, and the bits of its black
/// stones.
pub open spec fn id_bits(b: u32, w: u32) -> u32 {
    (((b | w) + 0x1111_1111) as u32) | b
}

/// The board without stones, and its encoding.
pub proof fn lemma_wf_empty()
    by (bit_vector)
    ensures
        wf_bits(0, 0),
        id_bits(0, 0) == 0x1111_1111,
{
}

/// Boards with the same encoding have the same stones.
pub proof fn lemma_id_injective(b1: u32, w1: u32, b2: u32, w2: u32)
    by (bit_vector)
    requires
        wf_bits(b1, w1),
        wf_bits(b2, w2),
        id_bits(b1, w1) == id_bits(b2, w2),
    ensures
        b1 == b2,
        w1 == w2,
{
}

/// No 4-bit unit of the encoding of a board is zero.
pub proof fn lemma_id_valid(b: u32, w: u32, c: u32)
    by (bit_vector)
    requires
        wf_bits(b, w),
        c < 8,
    ensures
        nib(id_bits(b, w), c) != 0,
{
}

/// The occupied slots of a column are those below the highest set bit of its
/// 4-bit unit.
pub proof fn lemma_occupied_field(b: u32, w: u32, c: u32)
    by (bit_vector)
    requires
        wf_bits(b, w),
        c < 8,
    ensures
        nib(b | w, c) == (if nib(id_bits(b, w), c) >= 8 {
            7u32
        } else if nib(id_bits(b, w), c) >= 4 {
            3u32
        } else if nib(id_bits(b, w), c) >= 2 {
            1u32
        } else {
            0u32
        }),
{
}

/// The bits below the 4-bit unit of column `n`.
pub open spec fn low(n: u32) -> u32 {
    !(0xffff_ffffu32 << (4 * n))
}

/// Before the first column nothing is encoded.
pub proof fn lemma_encode_start(b: u32, w: u32)
    by (bit_vector)
    ensures
        0 == id_bits(b, w) & low(0),
        b | w == (b | w) >> 0,
        b == b >> 0,
{
}

/// Adding the 4-bit unit of column `n` extends the encoding of the columns
/// below `n` to that of the columns up to `n`.
pub proof fn lemma_encode_step(b: u32, w: u32, n: u32, id: u32)
    by (bit_vector)
    requires
        wf_bits(b, w),
        n < 8,
        id == id_bits(b, w) & low(n),
    ensures
        ((b | w) >> (4 * n)) & 0xf <= 7,
        id | ((((((b | w) >> (4 * n)) & 0xf) + 1) as u32 | ((b >> (4 * n)) & 0xf)) << (4 * n))
            == id_bits(b, w) & low((n + 1) as u32),
        ((b | w) >> (4 * n)) >> 4 == (b | w) >> (4 * (n + 1)),
        (b >> (4 * n)) >> 4 == b >> (4 * (n + 1)),
        id_bits(b, w) & low(8) == id_bits(b, w),
{
}

/// Each 4-bit unit of `id` with every bit below its highest set bit set too.
pub open spec fn smeared(id: u32) -> u32 {
    id | ((id >> 1) & 0x7777_7777) | ((id >> 2) & 0x3333_3333) | ((id >> 3) & 0x1111_1111)
}

/// The slots that hold a stone in the position that `id` encodes.
pub open spec fn occupied_bits(id: u32) -> u32 {
    (smeared(id) >> 1) & 0x7777_7777
}

/// A word without a zero unit is the encoding of the board that its bits below
/// the highest set bit of each unit describe.
pub proof fn lemma_decoded_bits(id: u32)
    by (bit_vector)
    requires
        nib(id, 0) != 0,
        nib(id, 1) != 0,
        nib(id, 2) != 0,
        nib(id, 3) != 0,
        nib(id, 4) != 0,
        nib(id, 5) != 0,
        nib(id, 6) != 0,
        nib(id, 7) != 0,
    ensures
        wf_bits(id & occupied_bits(id), occupied_bits(id) ^ (id & occupied_bits(id))),
        id_bits(id & occupied_bits(id), occupied_bits(id) ^ (id & occupied_bits(id))) == id,
{
}

/// Before the first column nothing is decoded.
pub proof fn lemma_decode_start(id: u32)
    by (bit_vector)
    ensures
        wf_bits(0, 0),
        0u32 & !low(0) == 0,
        id_bits(0, 0) & low(0) == id & low(0),
        id == id >> 0,
        id & low(8) == id,
{
}

/// Decoding the 4-bit unit of column `n` extends a board that encodes to the
/// columns below `n` of a word to one that encodes to its columns up to `n`.
pub proof fn lemma_decode_step(bl: u32, wh: u32, id: u32, n: u32, h: u32)
    by (bit_vector)
    requires
        n < 8,
        wf_bits(bl, wh),
        bl & !low(n) == 0,
        wh & !low(n) == 0,
        id_bits(bl, wh) & low(n) == id & low(n),
        nib(id, n) != 0,
        h < 32,
        (nib(id, n) >> h) & 1 != 0,
        nib(id, n) >> ((h + 1) as u32) == 0,
    ensures
        h <= 3,
        1u32 << h >= 1,
        ({
            let part = nib(id, n);
            let mask = ((1u32 << h) - 1) as u32;
            let bp = part & mask;
            let wp = bp ^ mask;
            let bl2 = bl | (bp << (4 * n));
            let wh2 = wh | (wp << (4 * n));
            &&& wf_bits(bl2, wh2)
            &&& bl2 & !low((n + 1) as u32) == 0
            &&& wh2 & !low((n + 1) as u32) == 0
            &&& id_bits(bl2, wh2) & low((n + 1) as u32) == id & low((n + 1) as u32)
        }),
        (id >> (4 * n)) >> 4 == id >> (4 * (n + 1)),
{
}

/// The word of a column has as many trailing zeros as there are bits below
/// the column.
pub proof fn lemma_unit_zeros(c: u32, zeros: u32)
    by (bit_vector)
    requires
        c < 8,
        zeros < 32,
        ((1u32 << (4 * c)) >> zeros) & 1u32 == 1u32,
    ensures
        zeros == 4 * c,
{
}

/// `x` with the bits of the column that starts at bit `z` moved up by one slot.
pub open spec fn pushed(x: u32, z: u32) -> u32 {
    (x & !(0b1111u32 << z)) | ((x & (0b0111u32 << z)) << 1)
}

/// `x` with the bits of the column that starts at bit `z` moved down by one slot.
pub open spec fn pulled(x: u32, z: u32) -> u32 {
    (x & !(0b1111u32 << z)) | ((x & (0b1110u32 << z)) >> 1)
}

/// Moving the bits of a column up and setting the front bit of one colour
/// doubles the 4-bit unit of the column, adds one for black, and leaves the
/// other columns alone.
pub proof fn lemma_put_bits(b: u32, w: u32, black: bool, c: u32, d: u32)
    by (bit_vector)
    requires
        wf_bits(b, w),
        c < 8,
        d < 8,
        nib(id_bits(b, w), c) < 8,
    ensures
        ({
            let z = (4 * c) as u32;
            let b2 = if black {
                pushed(b, z) | (1u32 << z)
            } else {
                pushed(b, z)
            };
            let w2 = if black {
                pushed(w, z)
            } else {
                pushed(w, z) | (1u32 << z)
            };
            &&& wf_bits(b2, w2)
            &&& nib(id_bits(b2, w2), c) == 2 * nib(id_bits(b, w), c) + (if black {
                1u32
            } else {
                0u32
            })
            &&& d != c ==> nib(id_bits(b2, w2), d) == nib(id_bits(b, w), d)
        }),
{
}

/// Moving the bits of a column down halves its 4-bit unit where it holds a
/// stone, whose colour is black where the unit is odd, and leaves the other
/// columns alone.
pub proof fn lemma_take_bits(b: u32, w: u32, c: u32, d: u32)
    by (bit_vector)
    requires
        wf_bits(b, w),
        c < 8,
        d < 8,
    ensures
        ({
            let z = (4 * c) as u32;
            let k = nib(id_bits(b, w), c);
            let b2 = pulled(b, z);
            let w2 = pulled(w, z);
            &&& wf_bits(b2, w2)
            &&& b & (1u32 << z) == (1u32 << z) <==> k >= 2 && k % 2 == 1
            &&& w & (1u32 << z) == (1u32 << z) <==> k >= 2 && k % 2 == 0
            &&& k >= 2 ==> nib(id_bits(b2, w2), c) == k / 2
            &&& k < 2 ==> nib(id_bits(b2, w2), c) == k
            &&& d != c ==> nib(id_bits(b2, w2), d) == nib(id_bits(b, w), d)
        }),
{
}

/// Exchanging the two colours keeps the bit above the stones of each column
/// and inverts the bits below it.
pub proof fn lemma_swap_bits(b: u32, w: u32, c: u32)
    by (bit_vector)
    requires
        wf_bits(b, w),
        c < 8,
    ensures
        wf_bits(w, b),
        ({
            let k = nib(id_bits(b, w), c);
            nib(id_bits(w, b), c) == (if k >= 8 {
                23 - k
            } else if k >= 4 {
                11 - k
            } else if k >= 2 {
                5 - k
            } else {
                k as int
            })
        }),
{
}

/// Whether the 4-bit unit `k` has a front stone, black or white as `black` says.
pub open spec fn front_bits(k: u32, black: bool) -> bool {
    k >= 2 && k % 2 == (if black {
        1u32
    } else {
        0u32
    })
}

/// The front slots of the four columns from column `i` on round the ring.
pub open spec fn ring_mask(i: u32) -> u32 {
    (0x1111u32 << (4 * i)) | (0x1111u32 >> ((32 - 4 * i) as u32))
}

/// The slots of column `i`.
pub open spec fn tower_mask(i: u32) -> u32 {
    0b0111u32 << (4 * i)
}

/// The mask of four front slots is covered where the four columns have the
/// player's stone in front, and the mask of a column where the column is full
/// of the player's stones; shifting the masks gives those of the next column.
pub proof fn lemma_line_bits(b: u32, w: u32, black: bool, i: u32)
    by (bit_vector)
    requires
        wf_bits(b, w),
        i < 8,
    ensures
        ({
            let bits = if black {
                b
            } else {
                w
            };
            let id = id_bits(b, w);
            &&& bits & ring_mask(i) == ring_mask(i) <==> front_bits(nib(id, i), black)
                && front_bits(nib(id, ((i + 1) % 8) as u32), black) && front_bits(
                nib(id, ((i + 2) % 8) as u32),
                black,
            ) && front_bits(nib(id, ((i + 3) % 8) as u32), black)
            &&& bits & tower_mask(i) == tower_mask(i) <==> nib(id, i) == (if black {
                15u32
            } else {
                8u32
            })
        }),
        (ring_mask(i) << 4) | (ring_mask(i) >> 28) == ring_mask((i + 1) as u32),
        tower_mask(i) << 4 == tower_mask((i + 1) as u32),
        ring_mask(0) == 0x1111,
        tower_mask(0) == 0b0111,
{
}

/// The front slots of the columns with room.
pub open spec fn room_mask(b: u32, w: u32) -> u32 {
    0x1111_1111u32 & ((!(b | w)) >> 2)
}

/// The front slots of the columns to which a stone may move from the column
/// that starts at bit `z`.
pub open spec fn neighbour_mask(z: u32) -> u32 {
    if z == 0 {
        0x1001_0010u32
    } else {
        (0x1001_0010u32 << z) | (0x1001_0010u32 >> ((32 - z) as u32))
    }
}

/// What the masks that the legal actions are read from say of each column.
pub proof fn lemma_action_bits(b: u32, w: u32, black: bool, c: u32, d: u32)
    by (bit_vector)
    requires
        wf_bits(b, w),
        c < 8,
        d < 8,
    ensures
        ({
            let bits = if black {
                b
            } else {
                w
            };
            let id = id_bits(b, w);
            let landing = neighbour_mask((4 * c) as u32) & room_mask(b, w);
            &&& room_mask(b, w) & !0x1111_1111u32 == 0
            &&& is_set(room_mask(b, w), (4 * d) as u32) <==> nib(id, d) < 8
            &&& (0x1111_1111u32 & bits) & !0x1111_1111u32 == 0
            &&& is_set(0x1111_1111u32 & bits, (4 * d) as u32) <==> front_bits(nib(id, d), black)
            &&& neighbour_mask((4 * c) as u32) & !0x1111_1111u32 == 0
            &&& is_set(neighbour_mask((4 * c) as u32), (4 * d) as u32) <==> (d == (c + 1) % 8 || d
                == (c + 4) % 8 || d == (c + 7) % 8)
            &&& landing & !0x1111_1111u32 == 0
            &&& is_set(landing, (4 * d) as u32) <==> (d == (c + 1) % 8 || d == (c + 4) % 8 || d == (
            c + 7) % 8) && nib(id, d) < 8
        }),
{
}

/// A word that has bits in front slots only has none in the other slots.
pub proof fn lemma_between_units(mask: u32, c: u32)
    by (bit_vector)
    requires
        mask & !0x1111_1111u32 == 0,
        c < 8,
    ensures
        !is_set(mask, (4 * c + 1) as u32),
        !is_set(mask, (4 * c + 2) as u32),
        !is_set(mask, (4 * c + 3) as u32),
{
}

/// The set bits of a word that has them only in front slots are the words of
/// the columns whose front slot is set.
pub proof fn lemma_hot_units_from(mask: u32, flags: Seq<bool>, n: int)
    requires
        mask & !0x1111_1111u32 == 0,
        flags.len() == 8,
        forall|c: int| 0 <= c < 8 ==> flags[c] == is_set(mask, (4 * c) as u32),
        0 <= n <= 8,
    ensures
        hot_bits_from(mask, (4 * n) as nat) == marked_units_from(flags, n),
    decreases 8 - n,
{
    if n < 8 {
        lemma_hot_units_from(mask, flags, n + 1);
        lemma_between_units(mask, n as u32);
        lemma_field(mask, n);
        reveal_with_fuel(hot_bits_from, 4);
        assert(hot_bits_from(mask, (4 * n + 1) as nat) == hot_bits_from(mask, (4 * n + 4) as nat));
    }
}

/// The set bits of a word that has them only in front slots are the words of
/// the columns whose front slot is set.
pub proof fn lemma_hot_units(mask: u32, flags: Seq<bool>)
    requires
        mask & !0x1111_1111u32 == 0,
        flags.len() == 8,
        forall|c: int| 0 <= c < 8 ==> flags[c] == is_set(mask, (4 * c) as u32),
    ensures
        hot_bits(mask) == marked_units(flags),
{
    lemma_hot_units_from(mask, flags, 0);
    lemma_marked_units_split(flags, 0);
    assert(flags.take(0) =~= Seq::<bool>::empty());
    assert(Seq::<u32>::empty() + marked_units_from(flags, 0) =~= marked_units_from(flags, 0));
}

/// The bit of a slot is set for the colour of the stone that the 4-bit unit of
/// the column gives the slot.
pub proof fn lemma_slot_bits(b: u32, w: u32, c: u32, i: u32)
    by (bit_vector)
    requires
        wf_bits(b, w),
        c < 8,
        i < 3,
    ensures
        ({
            let k = nib(id_bits(b, w), c);
            let cursor = (1u32 << (4 * c)) << i;
            let height = if k >= 8 {
                3u32
            } else if k >= 4 {
                2u32
            } else if k >= 2 {
                1u32
            } else {
                0u32
            };
            let bit = if i == 0 {
                k % 2
            } else if i == 1 {
                (k / 2) % 2
            } else {
                (k / 4) % 2
            };
            &&& b & cursor != 0 <==> i < height && bit == 1
            &&& w & cursor != 0 <==> i < height && bit != 1
        }),
        ((1u32 << (4 * c)) << i) << 1 == (1u32 << (4 * c)) << ((i + 1) as u32),
        (1u32 << (4 * c)) << 0 == 1u32 << (4 * c),
{
}

} // verus!
