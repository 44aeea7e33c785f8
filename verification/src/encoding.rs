//! How positions and their encodings correspond: every position has an
//! encoding that gives it back, legal actions lead from positions to
//! positions, and the encoding follows the symmetries of the ring, so that
//! all sixteen images of a position have one canonical encoding.

use crate::bit_utils::canonical;
use crate::bit_utils::Canonicalizable;
use crate::bit_utils::image;
use crate::bit_utils::in_orbit;
use crate::bit_utils::lemma_canonical_is_least;
use crate::bit_utils::lemma_canonical_of_image;
use crate::bit_utils::PackedRing;
use crate::bit_utils::turned;
use crate::board::Action;
use crate::board::Board;
use crate::board::Color;
use crate::board::InvalidEncoding;
use crate::layout::lemma_field;
use crate::layout::lemma_sum_of_fields;
use crate::layout::nib;
use crate::position::after;
use crate::position::code_of;
use crate::position::column_of;
use crate::position::field;
use crate::position::height_of;
use crate::position::id_of;
use crate::position::is_legal;
use crate::position::is_position;
use crate::position::legal_actions;
use crate::position::lemma_legal_actions;
use crate::position::lemma_put_on;
use crate::position::lemma_taken_off;
use crate::position::position_of;
use crate::position::stack_of;
use crate::position::stone_count;
use crate::position::taken_off;
use crate::position::valid_id;
use vstd::prelude::*;
use vstd::std_specs::convert::FromSpec;
use vstd::std_specs::convert::TryFromSpec;

verus! {

/// The word made of eight 4-bit units, each at its place.
pub open spec fn packed(units: Seq<int>) -> u32 {
    (units[0] + 0x10 * units[1] + 0x100 * units[2] + 0x1000 * units[3] + 0x1_0000 * units[4]
        + 0x10_0000 * units[5] + 0x100_0000 * units[6] + 0x1000_0000 * units[7]) as u32
}

proof fn lemma_packed_nibs(
    k0: u32,
    k1: u32,
    k2: u32,
    k3: u32,
    k4: u32,
    k5: u32,
    k6: u32,
    k7: u32,
)
    by (bit_vector)
    requires
        k0 <= 15,
        k1 <= 15,
        k2 <= 15,
        k3 <= 15,
        k4 <= 15,
        k5 <= 15,
        k6 <= 15,
        k7 <= 15,
    ensures
        ({
            let id = (k0 + 0x10 * k1 + 0x100 * k2 + 0x1000 * k3 + 0x1_0000 * k4 + 0x10_0000 * k5
                + 0x100_0000 * k6 + 0x1000_0000 * k7) as u32;
            &&& nib(id, 0) == k0
            &&& nib(id, 1) == k1
            &&& nib(id, 2) == k2
            &&& nib(id, 3) == k3
            &&& nib(id, 4) == k4
            &&& nib(id, 5) == k5
            &&& nib(id, 6) == k6
            &&& nib(id, 7) == k7
        }),
{
}

/// A word made of eight 4-bit units has those units.
pub proof fn lemma_packed_fields(units: Seq<int>)
    requires
        units.len() == 8,
        forall|c: int| 0 <= c < 8 ==> 0 <= #[trigger] units[c] <= 15,
    ensures
        forall|c: int| 0 <= c < 8 ==> #[trigger] field(packed(units), c) == units[c],
{
    lemma_packed_nibs(
        units[0] as u32,
        units[1] as u32,
        units[2] as u32,
        units[3] as u32,
        units[4] as u32,
        units[5] as u32,
        units[6] as u32,
        units[7] as u32,
    );
    assert forall|c: int| 0 <= c < 8 implies #[trigger] field(packed(units), c) == units[c] by {
        lemma_field(packed(units), c);
    }
}

proof fn lemma_fields_agree(a: u32, b: u32, c: int)
    requires
        0 <= c < 8,
        field(a, c) == field(b, c),
    ensures
        nib(a, c as u32) == nib(b, c as u32),
{
    lemma_field(a, c);
    lemma_field(b, c);
}

/// Words with the same eight 4-bit units are the same word.
pub proof fn lemma_fields_determine_id(a: u32, b: u32)
    requires
        forall|c: int| 0 <= c < 8 ==> #[trigger] field(a, c) == field(b, c),
    ensures
        a == b,
{
    lemma_sum_of_fields(a);
    lemma_sum_of_fields(b);
    lemma_fields_agree(a, b, 0);
    lemma_fields_agree(a, b, 1);
    lemma_fields_agree(a, b, 2);
    lemma_fields_agree(a, b, 3);
    lemma_fields_agree(a, b, 4);
    lemma_fields_agree(a, b, 5);
    lemma_fields_agree(a, b, 6);
    lemma_fields_agree(a, b, 7);
}

/// A 4-bit unit is the unit that encodes the column it stands for.
pub proof fn lemma_code_of_stack(code: int)
    requires
        1 <= code <= 15,
    ensures
        stack_of(code).len() <= 3,
        code_of(stack_of(code)) == code,
{
}

/// The 4-bit unit of each column of an encoding is the unit that encodes the
/// column it stands for, and an encoding is the encoding of its position.
pub proof fn lemma_position_of_id(id: u32)
    requires
        valid_id(id),
    ensures
        is_position(position_of(id)),
        forall|c: int| 0 <= c < 8 ==> code_of(#[trigger] position_of(id)[c]) == field(id, c),
        id_of(position_of(id)) == id,
{
    let p = position_of(id);
    assert forall|c: int| 0 <= c < 8 implies code_of(#[trigger] p[c]) == field(id, c) && p[c].len()
        <= 3 by {
        lemma_field(id, c);
        lemma_code_of_stack(field(id, c));
    }
    lemma_sum_of_fields(id);
    lemma_field(id, 0);
    lemma_field(id, 1);
    lemma_field(id, 2);
    lemma_field(id, 3);
    lemma_field(id, 4);
    lemma_field(id, 5);
    lemma_field(id, 6);
    lemma_field(id, 7);
}

/// The eight 4-bit units of the columns of `p`.
pub open spec fn codes_of(p: Seq<Seq<Color>>) -> Seq<int> {
    Seq::new(8, |c: int| code_of(p[c]))
}

/// The 4-bit unit that encodes a column is not zero and encodes that column.
pub proof fn lemma_stack_of_code(stack: Seq<Color>)
    requires
        stack.len() <= 3,
    ensures
        1 <= code_of(stack) <= 15,
        stack_of(code_of(stack)) == stack,
{
    assert(stack_of(code_of(stack)) =~= stack);
}

/// The encoding of a position is the word made of the 4-bit units of its
/// columns.
proof fn lemma_id_is_packed(p: Seq<Seq<Color>>)
    ensures
        id_of(p) == packed(codes_of(p)),
{
}

/// The encoding of a position is an encoding, each of its 4-bit units encodes
/// the column it stands for, and it encodes the position.
pub proof fn lemma_id_of_position(p: Seq<Seq<Color>>)
    requires
        is_position(p),
    ensures
        valid_id(id_of(p)),
        forall|c: int| 0 <= c < 8 ==> #[trigger] field(id_of(p), c) == code_of(p[c]),
        position_of(id_of(p)) == p,
{
    let units = codes_of(p);
    let id = id_of(p);
    assert forall|c: int| 0 <= c < 8 implies 1 <= #[trigger] units[c] <= 15 by {
        lemma_stack_of_code(p[c]);
    }
    lemma_packed_fields(units);
    lemma_id_is_packed(p);
    assert forall|c: int| 0 <= c < 8 implies #[trigger] field(id, c) == code_of(p[c]) && field(
        id,
        c,
    ) != 0 by {
        assert(field(packed(units), c) == units[c]);
    }
    assert forall|c: int| 0 <= c < 8 implies #[trigger] position_of(id)[c] == p[c] by {
        assert(field(id, c) == code_of(p[c]));
        lemma_stack_of_code(p[c]);
    }
    assert(position_of(id) =~= p);
}

/// Decoding the encoding of a board gives the board, and encoding the board
/// that a valid word decodes to gives the word.
pub proof fn lemma_round_trip(board: Board, id: u32)
    requires
        board.wf(),
    ensures
        valid_id(u32::from_spec(board)),
        Board::try_from_spec(u32::from_spec(board)) == Ok::<Board, InvalidEncoding>(board),
        valid_id(id) ==> Board::of_id(id).wf() && u32::from_spec(Board::of_id(id)) == id,
{
    board.lemma_id();
    Board::lemma_of_id(board.id());
    Board::of_id(board.id()).lemma_position_determines_board(board);
    if valid_id(id) {
        Board::lemma_of_id(id);
        Board::of_id(id).lemma_id();
    }
}

/// An action that is legal leads from a position to a position; a placement
/// adds one stone and a movement keeps their number.
proof fn lemma_legal_step(p: Seq<Seq<Color>>, player: Color, action: Action)
    requires
        is_position(p),
        is_legal(p, player, action),
    ensures
        is_position(after(p, action)),
        action is Put ==> stone_count(after(p, action)) == stone_count(p) + 1,
        action is Move ==> stone_count(after(p, action)) == stone_count(p),
{
    match action {
        Action::Put { player: who, target } => {
            lemma_put_on(p, who, column_of(target));
        },
        Action::Move { from, to } => {
            let c = column_of(from);
            let d = column_of(to);
            lemma_taken_off(p, c);
            assert(c != d);
            lemma_put_on(taken_off(p, c), p[c][0], d);
        },
    }
}

/// A legal action leads from a position to a position, which therefore has an
/// encoding; a placement adds one stone and a movement keeps their number.
pub proof fn lemma_legal_action_sound(p: Seq<Seq<Color>>, player: Color, action: Action)
    requires
        is_position(p),
        legal_actions(p, player).contains(action),
    ensures
        is_position(after(p, action)),
        valid_id(id_of(after(p, action))),
        position_of(id_of(after(p, action))) == after(p, action),
        action is Put ==> stone_count(after(p, action)) == stone_count(p) + 1,
        action is Move ==> stone_count(after(p, action)) == stone_count(p),
{
    lemma_legal_actions(p, player, action);
    assert(is_legal(p, player, action));
    lemma_legal_step(p, player, action);
    lemma_id_of_position(after(p, action));
}

/// `p` with each column moved to the next column round the ring.
pub open spec fn turned_position(p: Seq<Seq<Color>>) -> Seq<Seq<Color>> {
    Seq::new(8, |c: int| p[(c + 7) % 8])
}

/// `p` with the order of its columns inverted.
pub open spec fn mirrored_position(p: Seq<Seq<Color>>) -> Seq<Seq<Color>> {
    Seq::new(8, |c: int| p[7 - c])
}

/// `p` turned `k` times.
pub open spec fn turned_position_by(p: Seq<Seq<Color>>, k: nat) -> Seq<Seq<Color>>
    decreases k,
{
    if k == 0 {
        p
    } else {
        turned_position(turned_position_by(p, (k - 1) as nat))
    }
}

/// The `k`-th of the sixteen symmetric images of `p`: its eight turns, then
/// the eight turns of its mirror image.
pub open spec fn position_image(p: Seq<Seq<Color>>, k: nat) -> Seq<Seq<Color>> {
    if k < 8 {
        turned_position_by(p, k)
    } else {
        turned_position_by(mirrored_position(p), (k - 8) as nat)
    }
}

proof fn lemma_image_nibs(id: u32, c: u32)
    by (bit_vector)
    requires
        c < 8,
    ensures
        nib(id.rotated(), ((c + 1) % 8) as u32) == nib(id, c),
        nib(id.reversed(), (7 - c) as u32) == nib(id, c),
{
}

/// Turning an encoding moves the 4-bit unit of each column to the next column
/// round the ring; mirroring it moves the unit of column `c` to column `7 - c`.
pub proof fn lemma_image_fields(id: u32, c: int)
    requires
        0 <= c < 8,
    ensures
        field(id.rotated(), (c + 1) % 8) == field(id, c),
        field(id.reversed(), 7 - c) == field(id, c),
{
    lemma_image_nibs(id, c as u32);
    lemma_field(id, c);
    lemma_field(id.rotated(), (c + 1) % 8);
    lemma_field(id.reversed(), 7 - c);
}

/// Turning or mirroring an encoding gives an encoding.
pub proof fn lemma_valid_images(id: u32)
    requires
        valid_id(id),
    ensures
        valid_id(id.rotated()),
        valid_id(id.reversed()),
{
    assert forall|c: int| 0 <= c < 8 implies #[trigger] field(id.rotated(), c) != 0 by {
        lemma_image_fields(id, (c + 7) % 8);
        assert(field(id, (c + 7) % 8) != 0);
    }
    assert forall|c: int| 0 <= c < 8 implies #[trigger] field(id.reversed(), c) != 0 by {
        lemma_image_fields(id, 7 - c);
        assert(field(id, 7 - c) != 0);
    }
}

/// Every turn of an encoding is an encoding.
pub proof fn lemma_valid_turned(id: u32, k: nat)
    requires
        valid_id(id),
    ensures
        valid_id(turned(id, k)),
    decreases k,
{
    if k > 0 {
        lemma_valid_turned(id, (k - 1) as nat);
        lemma_valid_images(turned(id, (k - 1) as nat));
    }
}

/// Every symmetric image of an encoding is an encoding, and so is its
/// canonical form.
pub proof fn lemma_valid_canonical(id: u32, k: nat)
    requires
        valid_id(id),
    ensures
        valid_id(turned(id, k)),
        valid_id(image(id, k)),
        valid_id(canonical(id)),
    decreases k,
{
    if k > 0 {
        lemma_valid_canonical(id, (k - 1) as nat);
        lemma_valid_images(turned(id, (k - 1) as nat));
    }
    lemma_valid_images(id);
    if k >= 8 {
        lemma_valid_turned(id.reversed(), (k - 8) as nat);
    }
    lemma_canonical_is_least(id, id);
    let j = choose|j: nat| j < 16 && canonical(id) == #[trigger] image(id, j);
    if j < 8 {
        lemma_valid_turned(id, j);
    } else {
        lemma_valid_turned(id.reversed(), (j - 8) as nat);
    }
}

/// The number of stones in the position that `id` encodes, column by column.
pub proof fn lemma_stones_of_id(id: u32)
    ensures
        stone_count(position_of(id)) == height_of(field(id, 0)) + height_of(field(id, 1))
            + height_of(field(id, 2)) + height_of(field(id, 3)) + height_of(field(id, 4))
            + height_of(field(id, 5)) + height_of(field(id, 6)) + height_of(field(id, 7)),
{
}

/// Turning or mirroring an encoding keeps the number of stones.
pub proof fn lemma_images_keep_stones(id: u32)
    ensures
        stone_count(position_of(id.rotated())) == stone_count(position_of(id)),
        stone_count(position_of(id.reversed())) == stone_count(position_of(id)),
{
    lemma_stones_of_id(id);
    lemma_stones_of_id(id.rotated());
    lemma_stones_of_id(id.reversed());
    lemma_image_fields(id, 0);
    lemma_image_fields(id, 1);
    lemma_image_fields(id, 2);
    lemma_image_fields(id, 3);
    lemma_image_fields(id, 4);
    lemma_image_fields(id, 5);
    lemma_image_fields(id, 6);
    lemma_image_fields(id, 7);
}

/// Every turn of an encoding keeps the number of stones.
pub proof fn lemma_turned_keeps_stones(id: u32, k: nat)
    ensures
        stone_count(position_of(turned(id, k))) == stone_count(position_of(id)),
    decreases k,
{
    if k > 0 {
        lemma_turned_keeps_stones(id, (k - 1) as nat);
        lemma_images_keep_stones(turned(id, (k - 1) as nat));
    }
}

/// The canonical form of an encoding keeps the number of stones.
pub proof fn lemma_canonical_keeps_stones(id: u32)
    ensures
        stone_count(position_of(canonical(id))) == stone_count(position_of(id)),
{
    lemma_canonical_is_least(id, id);
    let j = choose|j: nat| j < 16 && canonical(id) == #[trigger] image(id, j);
    lemma_images_keep_stones(id);
    if j < 8 {
        lemma_turned_keeps_stones(id, j);
    } else {
        lemma_turned_keeps_stones(id.reversed(), (j - 8) as nat);
    }
}

/// The images of a position are positions.
pub proof fn lemma_image_positions(p: Seq<Seq<Color>>)
    requires
        is_position(p),
    ensures
        is_position(turned_position(p)),
        is_position(mirrored_position(p)),
{
    let t = turned_position(p);
    let m = mirrored_position(p);
    assert forall|c: int| 0 <= c < 8 implies (#[trigger] t[c]).len() <= 3 by {
        assert(p[(c + 7) % 8].len() <= 3);
    }
    assert forall|c: int| 0 <= c < 8 implies (#[trigger] m[c]).len() <= 3 by {
        assert(p[7 - c].len() <= 3);
    }
}

proof fn lemma_turned_field(p: Seq<Seq<Color>>, c: int)
    requires
        is_position(p),
        0 <= c < 8,
    ensures
        field(id_of(turned_position(p)), c) == field(id_of(p).rotated(), c),
{
    let from = (c + 7) % 8;
    lemma_image_positions(p);
    lemma_id_of_position(p);
    lemma_id_of_position(turned_position(p));
    assert(field(id_of(turned_position(p)), c) == code_of(turned_position(p)[c]));
    assert(turned_position(p)[c] == p[from]);
    assert(field(id_of(p), from) == code_of(p[from]));
    lemma_image_fields(id_of(p), from);
    assert((from + 1) % 8 == c);
}

proof fn lemma_mirrored_field(p: Seq<Seq<Color>>, c: int)
    requires
        is_position(p),
        0 <= c < 8,
    ensures
        field(id_of(mirrored_position(p)), c) == field(id_of(p).reversed(), c),
{
    let from = 7 - c;
    lemma_image_positions(p);
    lemma_id_of_position(p);
    lemma_id_of_position(mirrored_position(p));
    assert(field(id_of(mirrored_position(p)), c) == code_of(mirrored_position(p)[c]));
    assert(mirrored_position(p)[c] == p[from]);
    assert(field(id_of(p), from) == code_of(p[from]));
    lemma_image_fields(id_of(p), from);
}

/// Turning a position turns its encoding, and mirroring a position mirrors
/// its encoding.
pub proof fn lemma_id_follows_symmetry(p: Seq<Seq<Color>>)
    requires
        is_position(p),
    ensures
        is_position(turned_position(p)),
        is_position(mirrored_position(p)),
        id_of(turned_position(p)) == id_of(p).rotated(),
        id_of(mirrored_position(p)) == id_of(p).reversed(),
{
    lemma_image_positions(p);
    assert forall|c: int| 0 <= c < 8 implies #[trigger] field(id_of(turned_position(p)), c)
        == field(id_of(p).rotated(), c) by {
        lemma_turned_field(p, c);
    }
    lemma_fields_determine_id(id_of(turned_position(p)), id_of(p).rotated());
    assert forall|c: int| 0 <= c < 8 implies #[trigger] field(id_of(mirrored_position(p)), c)
        == field(id_of(p).reversed(), c) by {
        lemma_mirrored_field(p, c);
    }
    lemma_fields_determine_id(id_of(mirrored_position(p)), id_of(p).reversed());
}

/// Turning a position `k` times turns its encoding `k` times.
pub proof fn lemma_id_of_turned(p: Seq<Seq<Color>>, k: nat)
    requires
        is_position(p),
    ensures
        is_position(turned_position_by(p, k)),
        id_of(turned_position_by(p, k)) == turned(id_of(p), k),
    decreases k,
{
    if k > 0 {
        lemma_id_of_turned(p, (k - 1) as nat);
        lemma_id_follows_symmetry(turned_position_by(p, (k - 1) as nat));
    }
}

/// The encoding of a symmetric image of a position is that image of its
/// encoding, and all sixteen images of a position have the canonical
/// encoding of the position.
pub proof fn lemma_images_share_canonical_id(p: Seq<Seq<Color>>, k: nat)
    requires
        is_position(p),
        k < 16,
    ensures
        is_position(position_image(p, k)),
        id_of(position_image(p, k)) == image(id_of(p), k),
        canonical(id_of(position_image(p, k))) == canonical(id_of(p)),
{
    lemma_id_follows_symmetry(p);
    if k < 8 {
        lemma_id_of_turned(p, k);
    } else {
        lemma_id_of_turned(mirrored_position(p), (k - 8) as nat);
    }
    assert(in_orbit(image(id_of(p), k), id_of(p)));
    lemma_canonical_of_image(id_of(p), image(id_of(p), k));
}

} // verus!
