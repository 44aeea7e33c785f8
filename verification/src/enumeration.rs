//! Enumeration of the canonical encodings of all positions with a given
//! number of stones: first the shapes, which say how many stones each column
//! holds, then for each shape the patterns, which say whose they are.

use crate::bit_utils::canonical;
use crate::bit_utils::Canonicalizable;
use crate::bit_utils::image;
use crate::bit_utils::lemma_canonical_idempotent;
use crate::bit_utils::lemma_canonical_is_least;
use crate::bit_utils::ones;
use crate::bit_utils::PackedRing;
use crate::bit_utils::turned;
use crate::encoding::lemma_canonical_keeps_stones;
use crate::encoding::lemma_packed_fields;
use crate::encoding::lemma_stones_of_id;
use crate::encoding::lemma_valid_canonical;
use crate::encoding::packed;
use crate::id_set::insert_id;
use crate::id_set::no_ids;
use crate::layout::lemma_field;
use crate::position::after;
use crate::position::field;
use crate::position::height_of;
use crate::position::position_of;
use crate::position::stone_count;
use crate::position::unit;
use crate::position::valid_id;
use fxhash::FxHashSet;
use std::collections::HashSet;
use vstd::prelude::*;

verus! {

broadcast use vstd::std_specs::hash::group_hash_axioms;

/// The place value of column `col` in a shape, which gives each column two
/// binary digits.
pub open spec fn shape_unit(col: int) -> u16 {
    if col == 0 {
        1
    } else if col == 1 {
        4
    } else if col == 2 {
        16
    } else if col == 3 {
        64
    } else if col == 4 {
        256
    } else if col == 5 {
        1024
    } else if col == 6 {
        4096
    } else {
        16384
    }
}

/// The number of stones that `shape` gives column `col`.
pub open spec fn shape_height(shape: u16, col: int) -> nat {
    ((shape / shape_unit(col)) % 4) as nat
}

/// The number of stones that `shape` gives the columns below `col`.
pub open spec fn stones_below(shape: u16, col: int) -> nat
    decreases col,
{
    if col <= 0 {
        0
    } else {
        stones_below(shape, col - 1) + shape_height(shape, col - 1)
    }
}

/// The number of stones that `shape` gives all eight columns.
pub open spec fn shape_stones(shape: u16) -> nat {
    stones_below(shape, 8)
}

/// The two binary digits of column `c` in `shape`, read with a shift and a
/// mask.
spec fn pair(shape: u16, c: u16) -> u16 {
    (shape >> (2 * c)) & 0b11
}

proof fn lemma_pair_bits(shape: u16, c: u16)
    by (bit_vector)
    requires
        c < 8,
    ensures
        pair(shape, c) == (shape / (if c == 0 {
            1u16
        } else if c == 1 {
            4u16
        } else if c == 2 {
            16u16
        } else if c == 3 {
            64u16
        } else if c == 4 {
            256u16
        } else if c == 5 {
            1024u16
        } else if c == 6 {
            4096u16
        } else {
            16384u16
        })) % 4,
        pair(shape, c) <= 3,
        (shape >> (2 * c)) >> 2 == shape >> (2 * (c + 1)),
        shape >> 0 == shape,
{
}

/// The number of stones that a shape gives a column, read with a shift and a
/// mask.
proof fn lemma_shape_height(shape: u16, col: int)
    requires
        0 <= col < 8,
    ensures
        shape_height(shape, col) == pair(shape, col as u16),
        shape_height(shape, col) <= 3,
        stones_below(shape, col + 1) <= 3 * (col + 1),
    decreases col,
{
    lemma_pair_bits(shape, col as u16);
    if col > 0 {
        lemma_shape_height(shape, col - 1);
    } else {
        assert(stones_below(shape, 0) == 0);
    }
}

/// The number of stones that `shape` gives all eight columns.
fn count_stones(shape: u16) -> (count: u16)
    ensures
        count == shape_stones(shape),
{
    let mut count: u16 = 0;
    let mut rest: u16 = shape;
    proof {
        lemma_pair_bits(shape, 0);
    }
    for i in 0u16..8
        invariant
            rest == shape >> (2 * i),
            count == stones_below(shape, i as int),
            count <= 3 * i,
    {
        proof {
            lemma_pair_bits(shape, i);
            lemma_shape_height(shape, i as int);
        }
        count += rest & 0b11;
        rest >>= 2;
    }
    count
}

/// Whether the shape `raw` gives `n` stones and has the canonical form `shape`.
pub open spec fn is_shape_of(raw: u16, n: nat, shape: u16) -> bool {
    shape_stones(raw) == n && shape == canonical(raw)
}

/// The canonical forms of the shapes that give `n` stones.
pub open spec fn shapes(n: nat) -> Set<u16> {
    Set::new(|shape: u16| exists|raw: u16| is_shape_of(raw, n, shape))
}

/// The canonical forms of the shapes below `end` that give `n` stones.
pub open spec fn shapes_below(n: nat, end: int) -> Set<u16> {
    Set::new(|shape: u16| exists|raw: u16| raw < end && #[trigger] is_shape_of(raw, n, shape))
}

/// How many canonical shapes give `num_stones` stones: a hint for the size of
/// the set that will hold them.
fn shape_capacity(num_stones: u16) -> (capacity: usize)
    requires
        num_stones <= 16,
    ensures
        capacity == shape_counts()[num_stones as int],
{
    proof {
        reveal(shape_counts);
    }
    let table: [usize; 17] = [
        1,
        1,
        5,
        10,
        28,
        52,
        105,
        167,
        265,
        352,
        454,
        506,
        543,
        506,
        454,
        352,
        265,
    ];
    table[num_stones as usize]
}

/// For each number of stones from none to sixteen, the number of canonical
/// shapes that were counted for it.
#[verifier::opaque]
pub open spec fn shape_counts() -> Seq<nat> {
    seq![1, 1, 5, 10, 28, 52, 105, 167, 265, 352, 454, 506, 543, 506, 454, 352, 265]
}

/// The canonical forms of the shapes that give `num_stones` stones.
pub fn find_shapes(num_stones: u16) -> (found: HashSet<u16>)
    requires
        num_stones <= 16,
    ensures
        found@ == shapes(num_stones as nat),
        forall|shape: u16|
            found@.contains(shape) ==> canonical(shape) == shape && shape_stones(shape)
                == num_stones,
{
    let mut found: HashSet<u16> = HashSet::with_capacity(shape_capacity(num_stones));
    let mut next: u32 = 0;
    let ghost n = num_stones as nat;
    proof {
        assert(found@ =~= shapes_below(n, 0));
    }
    while next <= 0xffff
        invariant
            n == num_stones,
            next <= 0x1_0000,
            found@ == shapes_below(n, next as int),
        decreases 0x1_0000 - next,
    {
        let raw_shape = next as u16;
        let ghost before = found@;
        if count_stones(raw_shape) == num_stones {
            found.insert(raw_shape.canonicalize());
        }
        proof {
            let after = shapes_below(n, next + 1);
            assert forall|shape: u16| found@.contains(shape) <==> after.contains(shape) by {
                if before.contains(shape) {
                    let raw = choose|raw: u16| raw < next && #[trigger] is_shape_of(raw, n, shape);
                    assert(raw < next + 1 && is_shape_of(raw, n, shape));
                }
                if is_shape_of(raw_shape, n, shape) {
                    assert(raw_shape < next + 1);
                }
                if after.contains(shape) {
                    let raw = choose|raw: u16|
                        raw < next + 1 && #[trigger] is_shape_of(raw, n, shape);
                    if raw < next {
                        assert(before.contains(shape));
                    } else {
                        assert(raw == raw_shape);
                    }
                }
            }
            assert(found@ =~= after);
        }
        next += 1;
    }
    proof {
        assert forall|shape: u16| shapes(n).contains(shape) implies found@.contains(shape) by {
            let raw = choose|raw: u16| is_shape_of(raw, n, shape);
            assert(raw < 0x1_0000 && is_shape_of(raw, n, shape));
        }
        assert(found@ =~= shapes(n));
        assert forall|shape: u16| found@.contains(shape) implies canonical(shape) == shape
            && shape_stones(shape) == n by {
            let raw = choose|raw: u16| is_shape_of(raw, n, shape);
            lemma_canonical_idempotent(raw);
            lemma_shape_canonical_keeps_stones(raw);
        }
    }
    found
}

/// The number whose binary digits are `n` ones; sixteen ones where `n` is
/// greater than sixteen.
pub open spec fn repunit(n: nat) -> nat
    decreases n,
{
    if n == 0 {
        0
    } else if n > 16 {
        0xffff
    } else {
        2 * repunit((n - 1) as nat) + 1
    }
}

/// A repunit of `n` digits is one less than the `n`-th power of two.
pub proof fn lemma_repunit_values()
    ensures
        repunit(0) == 0,
        repunit(1) == 1,
        repunit(2) == 3,
        repunit(3) == 7,
        forall|n: nat| n <= 15 ==> #[trigger] repunit(n) <= 0x7fff,
        forall|n: nat| #[trigger] repunit(n) <= 0xffff,
        forall|n: nat| n >= 16 ==> #[trigger] repunit(n) == 0xffff,
{
    reveal_with_fuel(repunit, 17);
    assert(repunit(16) == 0xffff);
    assert forall|n: nat| n <= 15 implies #[trigger] repunit(n) <= 0x7fff by {
        assert(repunit(15) == 0x7fff);
        lemma_repunit_grows(n, 15);
    }
    assert forall|n: nat| n >= 16 implies #[trigger] repunit(n) == 0xffff by {}
    assert forall|n: nat| #[trigger] repunit(n) <= 0xffff by {
        if n <= 15 {
            assert(repunit(n) <= 0x7fff);
        }
    }
}

/// A repunit of more digits is no smaller.
pub proof fn lemma_repunit_grows(n: nat, m: nat)
    requires
        n <= m <= 16,
    ensures
        repunit(n) <= repunit(m),
    decreases m - n,
{
    if n < m {
        lemma_repunit_grows((n + 1) as nat, m);
    }
}

proof fn lemma_repunit_step(r: u16)
    by (bit_vector)
    ensures
        r <= 0x7fff ==> (r << 1) | 1 == 2 * r + 1,
        r == 0xffff ==> (r << 1) | 1 == 0xffff,
{
}

/// The number whose binary digits are `num_digit` ones, sixteen at most.
pub fn make_repunit(num_digit: usize) -> (word: u16)
    ensures
        word == repunit(num_digit as nat),
{
    let mut word: u16 = 0;
    proof {
        lemma_repunit_values();
    }
    for i in 0..num_digit
        invariant
            word == repunit(i as nat),
    {
        proof {
            lemma_repunit_values();
            lemma_repunit_step(word);
            if i >= 16 {
                assert(repunit(i as nat) == 0xffff);
                assert(repunit((i + 1) as nat) == 0xffff);
            } else {
                assert(repunit(i as nat) <= 0x7fff);
            }
        }
        word <<= 1;
        word |= 1;
    }
    word
}

/// The 4-bit unit that `shape` and `pattern` give column `col`: the next
/// binary digits of the pattern, as many as the column holds stones, say
/// which stones are black, and one bit stands above them.
pub open spec fn shaped_code(shape: u16, pattern: u16, col: int) -> int {
    let mask = repunit(shape_height(shape, col)) as u16;
    (((pattern >> (stones_below(shape, col) as u16)) & mask) | ((mask + 1) as u16)) as int
}

/// The eight 4-bit units that `shape` and `pattern` give.
pub open spec fn shaped_codes(shape: u16, pattern: u16) -> Seq<int> {
    Seq::new(8, |c: int| shaped_code(shape, pattern, c))
}

/// The encoding of the position whose columns hold as many stones as `shape`
/// says, coloured as `pattern` says.
pub open spec fn board_id(shape: u16, pattern: u16) -> u32 {
    packed(shaped_codes(shape, pattern))
}

/// The sum of the first `n` of some 4-bit units, each at its place.
pub open spec fn packed_below(units: Seq<int>, n: int) -> int
    decreases n,
{
    if n <= 0 {
        0
    } else {
        packed_below(units, n - 1) + units[n - 1] * unit(n - 1)
    }
}

/// The sum of all eight 4-bit units is the word made of them.
proof fn lemma_packed_below(units: Seq<int>)
    requires
        0 <= packed_below(units, 8) <= u32::MAX,
    ensures
        packed(units) == packed_below(units, 8),
{
    assert(packed_below(units, 0) == 0);
    assert(packed_below(units, 1) == units[0]);
    assert(packed_below(units, 2) == packed_below(units, 1) + units[1] * 0x10);
    assert(packed_below(units, 3) == packed_below(units, 2) + units[2] * 0x100);
    assert(packed_below(units, 4) == packed_below(units, 3) + units[3] * 0x1000);
    assert(packed_below(units, 5) == packed_below(units, 4) + units[4] * 0x1_0000);
    assert(packed_below(units, 6) == packed_below(units, 5) + units[5] * 0x10_0000);
    assert(packed_below(units, 7) == packed_below(units, 6) + units[6] * 0x100_0000);
    assert(packed_below(units, 8) == packed_below(units, 7) + units[7] * 0x1000_0000);
}

proof fn lemma_code_bits(pattern: u16, rest: u16, off: u16, mask: u16)
    by (bit_vector)
    requires
        off <= 21,
        mask == 0 || mask == 1 || mask == 3 || mask == 7,
    ensures
        1 <= (rest & mask) | ((mask + 1) as u16) <= 15,
        mask + 1 <= (rest & mask) | ((mask + 1) as u16) <= 2 * mask + 1,
        rest == pattern >> off && mask == 0 ==> rest >> 0u16 == pattern >> off,
        rest == pattern >> off && mask == 1 ==> rest >> 1u16 == pattern >> ((off + 1) as u16),
        rest == pattern >> off && mask == 3 ==> rest >> 2u16 == pattern >> ((off + 2) as u16),
        rest == pattern >> off && mask == 7 ==> rest >> 3u16 == pattern >> ((off + 3) as u16),
        pattern >> 0u16 == pattern,
{
}

proof fn lemma_pack_step(id: u32, part: u32, n: u32)
    by (bit_vector)
    requires
        n < 8,
        id < (1u32 << (4 * n)),
        part <= 15,
    ensures
        id | (part << (4 * n)) == id + part * (1u32 << (4 * n)),
        n < 7 ==> id + part * (1u32 << (4 * n)) < (1u32 << (4 * (n + 1))),
        0 < (1u32 << (4 * n)),
{
}

/// What `shape` and `pattern` give a column is a 4-bit unit that is not zero.
proof fn lemma_shaped_code(shape: u16, pattern: u16, col: int)
    requires
        0 <= col < 8,
    ensures
        1 <= shaped_code(shape, pattern, col) <= 15,
        height_of(shaped_code(shape, pattern, col)) == shape_height(shape, col),
        shape_height(shape, col) <= 3,
        stones_below(shape, col) <= 21,
{
    lemma_repunit_values();
    lemma_shape_height(shape, col);
    if col > 0 {
        lemma_shape_height(shape, col - 1);
    }
    let off = stones_below(shape, col) as u16;
    let mask = repunit(shape_height(shape, col)) as u16;
    lemma_code_bits(pattern, pattern >> off, off, mask);
}

/// The number of stones that a shape gives, column by column.
proof fn lemma_stones_of_shape(shape: u16)
    ensures
        shape_stones(shape) == pair(shape, 0) + pair(shape, 1) + pair(shape, 2) + pair(shape, 3)
            + pair(shape, 4) + pair(shape, 5) + pair(shape, 6) + pair(shape, 7),
{
    reveal_with_fuel(stones_below, 9);
    lemma_shape_height(shape, 0);
    lemma_shape_height(shape, 1);
    lemma_shape_height(shape, 2);
    lemma_shape_height(shape, 3);
    lemma_shape_height(shape, 4);
    lemma_shape_height(shape, 5);
    lemma_shape_height(shape, 6);
    lemma_shape_height(shape, 7);
}

proof fn lemma_pair_images(shape: u16, c: u16)
    by (bit_vector)
    requires
        c < 8,
    ensures
        pair(shape.rotated(), ((c + 1) % 8) as u16) == pair(shape, c),
        pair(shape.reversed(), (7 - c) as u16) == pair(shape, c),
{
}

/// Turning or mirroring a shape keeps the number of stones that it gives.
pub proof fn lemma_shape_images_keep_stones(shape: u16)
    ensures
        shape_stones(shape.rotated()) == shape_stones(shape),
        shape_stones(shape.reversed()) == shape_stones(shape),
{
    lemma_stones_of_shape(shape);
    lemma_stones_of_shape(shape.rotated());
    lemma_stones_of_shape(shape.reversed());
    lemma_pair_images(shape, 0);
    lemma_pair_images(shape, 1);
    lemma_pair_images(shape, 2);
    lemma_pair_images(shape, 3);
    lemma_pair_images(shape, 4);
    lemma_pair_images(shape, 5);
    lemma_pair_images(shape, 6);
    lemma_pair_images(shape, 7);
}

/// Every turn of a shape keeps the number of stones that it gives.
pub proof fn lemma_shape_turned_keeps_stones(shape: u16, k: nat)
    ensures
        shape_stones(turned(shape, k)) == shape_stones(shape),
    decreases k,
{
    if k > 0 {
        lemma_shape_turned_keeps_stones(shape, (k - 1) as nat);
        lemma_shape_images_keep_stones(turned(shape, (k - 1) as nat));
    }
}

/// The canonical form of a shape keeps the number of stones that it gives.
pub proof fn lemma_shape_canonical_keeps_stones(shape: u16)
    ensures
        shape_stones(canonical(shape)) == shape_stones(shape),
{
    lemma_canonical_is_least(shape, shape);
    let j = choose|j: nat| j < 16 && canonical(shape) == #[trigger] image(shape, j);
    lemma_shape_images_keep_stones(shape);
    if j < 8 {
        lemma_shape_turned_keeps_stones(shape, j);
    } else {
        lemma_shape_turned_keeps_stones(shape.reversed(), (j - 8) as nat);
    }
}

/// The position that a shape and a pattern give has as many stones as the
/// shape says, and so has its canonical form.
pub proof fn lemma_board_id_stones(shape: u16, pattern: u16)
    ensures
        valid_id(board_id(shape, pattern)),
        stone_count(position_of(board_id(shape, pattern))) == shape_stones(shape),
        stone_count(position_of(canonical(board_id(shape, pattern)))) == shape_stones(shape),
{
    let units = shaped_codes(shape, pattern);
    let id = board_id(shape, pattern);
    assert forall|c: int| 0 <= c < 8 implies 1 <= #[trigger] units[c] <= 15 by {
        lemma_shaped_code(shape, pattern, c);
    }
    lemma_packed_fields(units);
    assert forall|c: int| 0 <= c < 8 implies #[trigger] field(id, c) == shaped_code(
        shape,
        pattern,
        c,
    ) && height_of(field(id, c)) == pair(shape, c as u16) && field(id, c) != 0 by {
        assert(field(packed(units), c) == units[c]);
        lemma_shaped_code(shape, pattern, c);
        lemma_shape_height(shape, c);
    }
    lemma_stones_of_id(id);
    lemma_stones_of_shape(shape);
    assert(height_of(field(id, 0)) == pair(shape, 0));
    assert(height_of(field(id, 1)) == pair(shape, 1));
    assert(height_of(field(id, 2)) == pair(shape, 2));
    assert(height_of(field(id, 3)) == pair(shape, 3));
    assert(height_of(field(id, 4)) == pair(shape, 4));
    assert(height_of(field(id, 5)) == pair(shape, 5));
    assert(height_of(field(id, 6)) == pair(shape, 6));
    assert(height_of(field(id, 7)) == pair(shape, 7));
    lemma_canonical_keeps_stones(id);
}

/// The encoding of the position whose columns hold as many stones as `shape`
/// says, coloured as `pattern` says.
pub fn create_board_id(shape: u16, pattern: u16) -> (id: u32)
    ensures
        id == board_id(shape, pattern),
        valid_id(id),
        forall|c: int| 0 <= c < 8 ==> #[trigger] field(id, c) == shaped_code(shape, pattern, c),
{
    let mut id: u32 = 0;
    let mut shape_rest: u16 = shape;
    let mut pattern_rest: u16 = pattern;
    let ghost units = shaped_codes(shape, pattern);
    proof {
        lemma_pair_bits(shape, 0);
        lemma_code_bits(pattern, pattern, 0, 0);
        lemma_field(0, 0);
        assert(1u32 << 0 == 1) by (bit_vector);
    }
    for n in 0u32..8
        invariant
            units == shaped_codes(shape, pattern),
            shape_rest == shape >> ((2 * n) as u16),
            pattern_rest == pattern >> (stones_below(shape, n as int) as u16),
            id == packed_below(units, n as int),
            n < 8 ==> id < (1u32 << (4 * n)),
    {
        let num_stones: u16 = shape_rest & 0b11;
        let mask: u16 = make_repunit(num_stones as usize);
        proof {
            lemma_repunit_values();
            lemma_pair_bits(shape, n as u16);
            lemma_shape_height(shape, n as int);
            lemma_shaped_code(shape, pattern, n as int);
            lemma_code_bits(
                pattern,
                pattern_rest,
                stones_below(shape, n as int) as u16,
                mask,
            );
            assert(units[n as int] == shaped_code(shape, pattern, n as int));
            lemma_field(0, n as int);
        }
        let id_part: u32 = ((pattern_rest & mask) | (mask + 1)) as u32;
        proof {
            lemma_pack_step(id, id_part, n);
            if n < 7 {
                lemma_field(0, n + 1);
            }
        }
        id |= id_part << (4 * n);
        shape_rest >>= 2;
        pattern_rest >>= num_stones;
    }
    proof {
        lemma_packed_below(units);
        assert forall|c: int| 0 <= c < 8 implies 0 <= #[trigger] units[c] <= 15 by {
            lemma_shaped_code(shape, pattern, c);
        }
        lemma_packed_fields(units);
        assert forall|c: int| 0 <= c < 8 implies #[trigger] field(id, c) == shaped_code(
            shape,
            pattern,
            c,
        ) && field(id, c) != 0 by {
            lemma_shaped_code(shape, pattern, c);
            assert(field(packed(units), c) == units[c]);
        }
    }
    id
}

/// Whether `pattern` colours `n` stones, half of them black and with them the
/// odd one, and `id` is the canonical encoding that it gives with `shape`.
pub open spec fn is_board_id_of(shape: u16, pattern: u16, n: nat, id: u32) -> bool {
    &&& pattern <= repunit(n)
    &&& ones(pattern as nat) == (n + 1) / 2
    &&& id == canonical(board_id(shape, pattern))
}

/// The canonical encodings that the shapes in `done` give with any pattern,
/// and that `shape` gives with the patterns below `end`.
pub open spec fn board_ids_found(done: Set<u16>, shape: u16, end: int, n: nat) -> Set<u32> {
    Set::new(
        |id: u32|
            exists|s: u16, pattern: u16| #[trigger]
                is_board_id_of(s, pattern, n, id) && (done.contains(s) || (s == shape && pattern
                    < end)),
    )
}

/// The canonical encodings of the positions with `n` stones of which half
/// are black, and with them the odd one: those of every canonical shape with
/// `n` stones, with every pattern of that many black stones.
pub open spec fn board_ids(n: nat) -> Set<u32> {
    Set::new(
        |id: u32|
            exists|shape: u16, pattern: u16| #[trigger]
                is_board_id_of(shape, pattern, n, id) && shapes(n).contains(shape),
    )
}

/// Each of the canonical encodings for `n` stones is an encoding, is its own
/// canonical form, and encodes a position with `n` stones.
pub proof fn lemma_board_ids_member(n: nat, id: u32)
    requires
        board_ids(n).contains(id),
    ensures
        valid_id(id),
        canonical(id) == id,
        stone_count(position_of(id)) == n,
{
    let (shape, pattern) = choose|shape: u16, pattern: u16| #[trigger]
        is_board_id_of(shape, pattern, n, id) && shapes(n).contains(shape);
    let raw = choose|raw: u16| is_shape_of(raw, n, shape);
    lemma_shape_canonical_keeps_stones(raw);
    lemma_canonical_idempotent(board_id(shape, pattern));
    lemma_board_id_stones(shape, pattern);
    lemma_valid_canonical(board_id(shape, pattern), 0);
}

/// How many canonical encodings there are with `num_stones` stones: a hint
/// for the size of the set that will hold them.
fn board_id_capacity(num_stones: u16) -> (capacity: usize)
    requires
        num_stones <= 16,
    ensures
        capacity == board_id_counts()[num_stones as int],
{
    proof {
        reveal(board_id_counts);
    }
    let table: [usize; 17] = [
        1,
        1,
        6,
        27,
        139,
        478,
        1826,
        5487,
        16933,
        42192,
        106332,
        223700,
        468444,
        829912,
        1444680,
        2144640,
        3078229,
    ];
    table[num_stones as usize]
}

/// For each number of stones from none to sixteen, the number of canonical
/// encodings that were counted for it.
#[verifier::opaque]
pub open spec fn board_id_counts() -> Seq<nat> {
    seq![
        1,
        1,
        6,
        27,
        139,
        478,
        1826,
        5487,
        16933,
        42192,
        106332,
        223700,
        468444,
        829912,
        1444680,
        2144640,
        3078229,
    ]
}

/// The canonical encodings of the positions with `num_stones` stones of
/// which half are black, and with them the odd one: the balance of colours
/// that alternate placement keeps.
pub fn find_board_ids(num_stones: u16) -> (ids: HashSet<u32>)
    requires
        num_stones <= 16,
    ensures
        ids@ == board_ids(num_stones as nat),
        forall|id: u32|
            ids@.contains(id) ==> valid_id(id) && canonical(id) == id && stone_count(
                position_of(id),
            ) == num_stones,
{
    let mut ids: HashSet<u32> = HashSet::with_capacity(board_id_capacity(num_stones));
    let max_pattern = make_repunit(num_stones as usize);
    let found_shapes = find_shapes(num_stones);
    let ghost n = num_stones as nat;
    proof {
        assert(ids@ =~= board_ids_found(Set::empty(), 0, 0, n));
    }
    for shape in it: found_shapes.iter()
        invariant
            n == num_stones,
            num_stones <= 16,
            max_pattern == repunit(n),
            it.seq().unref().to_set() == shapes(n),
            it.seq().take(it.seq().len() as int) == it.seq(),
            ids@ == board_ids_found(it.seq().take(it.index() as int).unref().to_set(), 0, 0, n),
            forall|id: u32| ids@.contains(id) ==> valid_id(id),
    {
        let ghost done = it.seq().take(it.index() as int).unref().to_set();
        let mut pattern: u32 = 0;
        proof {
            assert(ids@ =~= board_ids_found(done, *shape, 0, n));
        }
        while pattern <= max_pattern as u32
            invariant
                n == num_stones,
                num_stones <= 16,
                max_pattern == repunit(n),
                pattern <= max_pattern + 1,
                ids@ == board_ids_found(done, *shape, pattern as int, n),
                forall|id: u32| ids@.contains(id) ==> valid_id(id),
            decreases max_pattern + 1 - pattern,
        {
            let ghost before = ids@;
            let ghost q = pattern as u16;
            if pattern.count_ones() == (num_stones as u32 + 1) / 2 {
                let id = create_board_id(*shape, pattern as u16).canonicalize();
                proof {
                    lemma_valid_canonical(board_id(*shape, q), 0);
                }
                ids.insert(id);
            }
            proof {
                let after = board_ids_found(done, *shape, pattern + 1, n);
                assert forall|id: u32| ids@.contains(id) <==> after.contains(id) by {
                    if before.contains(id) {
                        let (s, p) = choose|s: u16, p: u16| #[trigger]
                            is_board_id_of(s, p, n, id) && (done.contains(s) || (s == *shape && p
                                < pattern));
                        assert(is_board_id_of(s, p, n, id) && (done.contains(s) || (s == *shape
                            && p < pattern + 1)));
                    }
                    if is_board_id_of(*shape, q, n, id) {
                        assert(q < pattern + 1);
                    }
                    if after.contains(id) {
                        let (s, p) = choose|s: u16, p: u16| #[trigger]
                            is_board_id_of(s, p, n, id) && (done.contains(s) || (s == *shape && p
                                < pattern + 1));
                        if done.contains(s) || p < pattern {
                            assert(before.contains(id));
                        } else {
                            assert(p == q);
                        }
                    }
                }
                assert(ids@ =~= after);
            }
            pattern += 1;
        }
        proof {
            let k = it.index() as int;
            let more = it.seq().take(k + 1).unref().to_set();
            assert(it.seq().take(k + 1).unref() =~= it.seq().take(k).unref().push(*shape));
            assert forall|s: u16| more.contains(s) <==> (done.contains(s) || s == *shape) by {
                let a = it.seq().take(k).unref();
                let b = a.push(*shape);
                if b.contains(s) {
                    let i = choose|i: int| 0 <= i < b.len() && b[i] == s;
                    if i < a.len() {
                        assert(a[i] == s);
                    }
                }
                if a.contains(s) {
                    let i = choose|i: int| 0 <= i < a.len() && a[i] == s;
                    assert(b[i] == s);
                }
                assert(b[a.len() as int] == *shape);
            }
            let after = board_ids_found(more, 0, 0, n);
            assert forall|id: u32| ids@.contains(id) <==> after.contains(id) by {
                if ids@.contains(id) {
                    let (s, p) = choose|s: u16, p: u16| #[trigger]
                        is_board_id_of(s, p, n, id) && (done.contains(s) || (s == *shape && p
                            < pattern));
                    assert(is_board_id_of(s, p, n, id) && more.contains(s));
                }
                if after.contains(id) {
                    let (s, p) = choose|s: u16, p: u16| #[trigger]
                        is_board_id_of(s, p, n, id) && (more.contains(s) || (s == 0 && p < 0));
                    assert(is_board_id_of(s, p, n, id) && (done.contains(s) || (s == *shape && p
                        < pattern)));
                }
            }
            assert(ids@ =~= after);
        }
    }
    proof {
        assert(ids@ =~= board_ids(n));
        assert forall|id: u32| ids@.contains(id) implies valid_id(id) && canonical(id) == id
            && stone_count(position_of(id)) == n by {
            lemma_board_ids_member(n, id);
        }
    }
    ids
}

/// The canonical encodings of all positions that the analysis starts from:
/// those with no stone up to those with sixteen, each with the balance of
/// colours that alternate placement keeps.
pub open spec fn reachable() -> Set<u32> {
    Set::new(|id: u32| exists|n: nat| n <= 16 && #[trigger] board_ids(n).contains(id))
}

/// The canonical encodings of the positions with fewer than `end` stones.
pub open spec fn reachable_below(end: nat) -> Set<u32> {
    Set::new(|id: u32| exists|n: nat| n < end && #[trigger] board_ids(n).contains(id))
}

/// The canonical encodings of all positions that the analysis starts from.
pub fn reachable_ids() -> (ids: FxHashSet<u32>)
    ensures
        ids@ == reachable(),
        forall|id: u32|
            ids@.contains(id) ==> valid_id(id) && canonical(id) == id && stone_count(
                position_of(id),
            ) <= 16,
{
    let mut ids = no_ids();
    let mut n: u16 = 0;
    proof {
        assert(ids@ =~= reachable_below(0));
    }
    while n <= 16
        invariant
            n <= 17,
            ids@ == reachable_below(n as nat),
            forall|id: u32|
                ids@.contains(id) ==> valid_id(id) && canonical(id) == id && stone_count(
                    position_of(id),
                ) <= 16,
        decreases 17 - n,
    {
        let found = find_board_ids(n);
        let ghost before = ids@;
        for id in it: found.iter()
            invariant
                it.seq().unref().to_set() == found@,
                it.seq().take(it.seq().len() as int) == it.seq(),
                forall|id: u32|
                    found@.contains(id) ==> valid_id(id) && canonical(id) == id && stone_count(
                        position_of(id),
                    ) <= 16,
                ids@ == before.union(it.seq().take(it.index() as int).unref().to_set()),
                forall|id: u32|
                    ids@.contains(id) ==> valid_id(id) && canonical(id) == id && stone_count(
                        position_of(id),
                    ) <= 16,
        {
            proof {
                let k = it.index() as int;
                assert(it.seq().take(k + 1).unref() =~= it.seq().take(k).unref().push(*id));
                crate::id_set::lemma_take_to_set(it.seq().take(k + 1).unref(), k);
                assert(it.seq().take(k + 1).unref().take(k) =~= it.seq().take(k).unref());
                assert(it.seq().unref().contains(*id)) by {
                    assert(it.seq().unref()[k] == *id);
                }
            }
            insert_id(&mut ids, *id);
        }
        proof {
            let after = reachable_below((n + 1) as nat);
            assert forall|id: u32| ids@.contains(id) <==> after.contains(id) by {
                if before.contains(id) {
                    let m = choose|m: nat| m < n && #[trigger] board_ids(m).contains(id);
                    assert(m < n + 1 && board_ids(m).contains(id));
                }
                if found@.contains(id) {
                    assert(board_ids(n as nat).contains(id));
                }
                if after.contains(id) {
                    let m = choose|m: nat| m < n + 1 && #[trigger] board_ids(m).contains(id);
                    if m < n {
                        assert(before.contains(id));
                    }
                }
            }
            assert(ids@ =~= after);
        }
        n += 1;
    }
    proof {
        assert forall|id: u32| reachable().contains(id) <==> reachable_below(17).contains(id) by {
            if reachable().contains(id) {
                let m = choose|m: nat| m <= 16 && #[trigger] board_ids(m).contains(id);
                assert(m < 17 && board_ids(m).contains(id));
            }
            if reachable_below(17).contains(id) {
                let m = choose|m: nat| m < 17 && #[trigger] board_ids(m).contains(id);
                assert(m <= 16 && board_ids(m).contains(id));
            }
        }
        assert(ids@ =~= reachable());
    }
    ids
}

} // verus!
