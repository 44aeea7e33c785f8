//! The game as mathematics: positions as eight stacks of stones, their
//! 32-bit encodings, and the rules that say which actions are legal, what an
//! action does and which positions are won.

use crate::board::Action;
use crate::board::Color;
use vstd::prelude::*;

verus! {

/// Whether `p` is a position: eight columns, each with the colours of at most
/// three stones, the stone in slot 0 first.
pub open spec fn is_position(p: Seq<Seq<Color>>) -> bool {
    &&& p.len() == 8
    &&& forall|c: int| 0 <= c < 8 ==> (#[trigger] p[c]).len() <= 3
}

/// The position without stones.
pub open spec fn empty_position() -> Seq<Seq<Color>> {
    Seq::new(8, |c: int| Seq::empty())
}

/// The word that stands for column `col`: the lowest bit of its 4-bit unit.
pub open spec fn unit(col: int) -> u32 {
    if col == 0 {
        0x1
    } else if col == 1 {
        0x10
    } else if col == 2 {
        0x100
    } else if col == 3 {
        0x1000
    } else if col == 4 {
        0x1_0000
    } else if col == 5 {
        0x10_0000
    } else if col == 6 {
        0x100_0000
    } else {
        0x1000_0000
    }
}

/// The column that the word `unit` stands for; 8 where it stands for none.
pub open spec fn column_of(unit: u32) -> int {
    if unit == 0x1 {
        0
    } else if unit == 0x10 {
        1
    } else if unit == 0x100 {
        2
    } else if unit == 0x1000 {
        3
    } else if unit == 0x1_0000 {
        4
    } else if unit == 0x10_0000 {
        5
    } else if unit == 0x100_0000 {
        6
    } else if unit == 0x1000_0000 {
        7
    } else {
        8
    }
}

/// The 4-bit unit of column `col` in the encoding `id`.
#[verifier::opaque]
pub open spec fn field(id: u32, col: int) -> int {
    ((id / unit(col)) % 16) as int
}

/// Whether `id` encodes a position: no 4-bit unit of it is zero.
pub open spec fn valid_id(id: u32) -> bool {
    forall|c: int| 0 <= c < 8 ==> #[trigger] field(id, c) != 0
}

/// The number of stones in a column whose 4-bit unit is `code`: the place of
/// the highest set bit, which stands one above the stones.
pub open spec fn height_of(code: int) -> nat {
    if code >= 8 {
        3
    } else if code >= 4 {
        2
    } else if code >= 2 {
        1
    } else {
        0
    }
}

/// The colour that the 4-bit unit `code` gives the stone in `slot`: black
/// where the bit of the slot is set.
pub open spec fn colour_in(code: int, slot: int) -> Color {
    let bit = if slot == 0 {
        code % 2
    } else if slot == 1 {
        (code / 2) % 2
    } else {
        (code / 4) % 2
    };
    if bit == 1 {
        Color::Black
    } else {
        Color::White
    }
}

/// The column that the 4-bit unit `code` encodes.
pub open spec fn stack_of(code: int) -> Seq<Color> {
    Seq::new(height_of(code), |slot: int| colour_in(code, slot))
}

/// 1 where `stack` has a black stone in `slot`, else 0.
pub open spec fn black_bit(stack: Seq<Color>, slot: int) -> int {
    if slot < stack.len() && stack[slot] == Color::Black {
        1
    } else {
        0
    }
}

/// The 4-bit unit that encodes the column `stack`: a bit for each black
/// stone, and one bit above the stones.
pub open spec fn code_of(stack: Seq<Color>) -> int {
    let stop: int = if stack.len() == 0 {
        1
    } else if stack.len() == 1 {
        2
    } else if stack.len() == 2 {
        4
    } else {
        8
    };
    stop + black_bit(stack, 0) + 2 * black_bit(stack, 1) + 4 * black_bit(stack, 2)
}

/// The position that `id` encodes.
pub open spec fn position_of(id: u32) -> Seq<Seq<Color>> {
    Seq::new(8, |c: int| stack_of(field(id, c)))
}

/// The encoding of the position `p`.
pub open spec fn id_of(p: Seq<Seq<Color>>) -> u32 {
    (code_of(p[0]) + 0x10 * code_of(p[1]) + 0x100 * code_of(p[2]) + 0x1000 * code_of(p[3])
        + 0x1_0000 * code_of(p[4]) + 0x10_0000 * code_of(p[5]) + 0x100_0000 * code_of(p[6])
        + 0x1000_0000 * code_of(p[7])) as u32
}

/// The number of stones in `p`.
pub open spec fn stone_count(p: Seq<Seq<Color>>) -> nat {
    p[0].len() + p[1].len() + p[2].len() + p[3].len() + p[4].len() + p[5].len() + p[6].len()
        + p[7].len()
}

/// The player to move in `p`: black where the number of stones is even.
pub open spec fn mover(p: Seq<Seq<Color>>) -> Color {
    if stone_count(p) % 2 == 0 {
        Color::Black
    } else {
        Color::White
    }
}

/// Whether the stone in slot 0 of column `col` is `player`'s.
pub open spec fn holds_front(p: Seq<Seq<Color>>, player: Color, col: int) -> bool {
    p[col].len() > 0 && p[col][0] == player
}

/// Whether `player` has the front stone of the four columns from `start` on
/// round the ring.
pub open spec fn ring_line(p: Seq<Seq<Color>>, player: Color, start: int) -> bool {
    &&& holds_front(p, player, start % 8)
    &&& holds_front(p, player, (start + 1) % 8)
    &&& holds_front(p, player, (start + 2) % 8)
    &&& holds_front(p, player, (start + 3) % 8)
}

/// Whether column `col` is full of `player`'s stones.
pub open spec fn tower(p: Seq<Seq<Color>>, player: Color, col: int) -> bool {
    p[col] =~= seq![player, player, player]
}

/// Whether `player` has the ring line that starts at column `col`, or a tower
/// in that column.
pub open spec fn wins_at(p: Seq<Seq<Color>>, player: Color, col: int) -> bool {
    ring_line(p, player, col) || tower(p, player, col)
}

/// Whether `player` has a ring line or a tower in `p`.
pub open spec fn lines_up(p: Seq<Seq<Color>>, player: Color) -> bool {
    exists|c: int| 0 <= c < 8 && #[trigger] wins_at(p, player, c)
}

/// Whether a stone may move from column `from` to column `to`: to either
/// neighbour on the ring and to the column opposite.
pub open spec fn adjacent(from: int, to: int) -> bool {
    to == (from + 1) % 8 || to == (from + 4) % 8 || to == (from + 7) % 8
}

/// The words of the columns that `flags` marks, lowest column first.
pub open spec fn marked_units(flags: Seq<bool>) -> Seq<u32>
    decreases flags.len(),
{
    if flags.len() == 0 {
        Seq::empty()
    } else if flags.last() {
        marked_units(flags.drop_last()).push(unit(flags.len() - 1))
    } else {
        marked_units(flags.drop_last())
    }
}

/// For each column, whether it has room for a stone.
pub open spec fn open_columns(p: Seq<Seq<Color>>) -> Seq<bool> {
    Seq::new(8, |c: int| p[c].len() < 3)
}

/// For each column, whether its front stone is `player`'s.
pub open spec fn front_columns(p: Seq<Seq<Color>>, player: Color) -> Seq<bool> {
    Seq::new(8, |c: int| holds_front(p, player, c))
}

/// For each column, whether a stone from column `from` may move to it.
pub open spec fn landing_columns(p: Seq<Seq<Color>>, from: int) -> Seq<bool> {
    Seq::new(8, |c: int| adjacent(from, c) && p[c].len() < 3)
}

/// The placements of `player` in `p`: one for each column with room, lowest
/// column first.
pub open spec fn placements(p: Seq<Seq<Color>>, player: Color) -> Seq<Action> {
    marked_units(open_columns(p)).map_values(|target: u32| Action::Put { player, target })
}

/// The movements out of the column that `from` stands for, lowest
/// destination first.
pub open spec fn movements_from(p: Seq<Seq<Color>>, from: u32) -> Seq<Action> {
    marked_units(landing_columns(p, column_of(from))).map_values(
        |to: u32| Action::Move { from, to },
    )
}

/// The movements out of the columns that `sources` stand for, in their order.
pub open spec fn movements_over(p: Seq<Seq<Color>>, sources: Seq<u32>) -> Seq<Action>
    decreases sources.len(),
{
    if sources.len() == 0 {
        Seq::empty()
    } else {
        movements_over(p, sources.drop_last()) + movements_from(p, sources.last())
    }
}

/// The movements of `player` in `p`: out of each column whose front stone is
/// theirs, lowest column first.
pub open spec fn movements(p: Seq<Seq<Color>>, player: Color) -> Seq<Action> {
    movements_over(p, marked_units(front_columns(p, player)))
}

/// The legal actions of `player` in `p`, in the order in which they are
/// generated: movements once sixteen stones are on the board, placements
/// before that, and those only for the player to move.
pub open spec fn legal_actions(p: Seq<Seq<Color>>, player: Color) -> Seq<Action> {
    if stone_count(p) == 16 {
        movements(p, player)
    } else if player == mover(p) {
        placements(p, player)
    } else {
        Seq::empty()
    }
}

/// Whether `action` is a legal action of one of the players in `p`.
pub open spec fn permits(p: Seq<Seq<Color>>, action: Action) -> bool {
    exists|player: Color| #[trigger] legal_actions(p, player).contains(action)
}

/// What a legal action is: a placement by the player to move into a column
/// with room, before sixteen stones are on the board; or, with sixteen stones
/// on it, a movement of a front stone to an adjacent column with room.
pub open spec fn is_legal(p: Seq<Seq<Color>>, player: Color, action: Action) -> bool {
    match action {
        Action::Put { player: who, target } => {
            &&& stone_count(p) != 16
            &&& who == player
            &&& player == mover(p)
            &&& 0 <= column_of(target) < 8
            &&& target == unit(column_of(target))
            &&& p[column_of(target)].len() < 3
        },
        Action::Move { from, to } => {
            &&& stone_count(p) == 16
            &&& 0 <= column_of(from) < 8
            &&& from == unit(column_of(from))
            &&& holds_front(p, player, column_of(from))
            &&& 0 <= column_of(to) < 8
            &&& to == unit(column_of(to))
            &&& adjacent(column_of(from), column_of(to))
            &&& p[column_of(to)].len() < 3
        },
    }
}

/// `p` with a stone of `player` put into slot 0 of column `col`; the stones of
/// the column move up by one slot.
pub open spec fn put_on(p: Seq<Seq<Color>>, player: Color, col: int) -> Seq<Seq<Color>> {
    p.update(col, seq![player] + p[col])
}

/// `p` without the front stone of column `col`; the other stones of the
/// column move down by one slot.
pub open spec fn taken_off(p: Seq<Seq<Color>>, col: int) -> Seq<Seq<Color>> {
    p.update(col, p[col].drop_first())
}

/// The position that `action` leads to from `p`.
pub open spec fn after(p: Seq<Seq<Color>>, action: Action) -> Seq<Seq<Color>> {
    match action {
        Action::Put { player, target } => put_on(p, player, column_of(target)),
        Action::Move { from, to } => put_on(
            taken_off(p, column_of(from)),
            p[column_of(from)][0],
            column_of(to),
        ),
    }
}

/// `p` with the colour of every stone exchanged.
pub open spec fn swapped(p: Seq<Seq<Color>>) -> Seq<Seq<Color>> {
    Seq::new(8, |c: int| Seq::new(p[c].len(), |s: int| p[c][s].opposite()))
}

/// The letter that stands for a stone of colour `c`.
pub open spec fn letter(c: Color) -> char {
    match c {
        Color::Black => 'B',
        Color::White => 'W',
    }
}

/// The digit that stands for column `col`.
pub open spec fn digit(col: int) -> char {
    if col == 0 {
        '0'
    } else if col == 1 {
        '1'
    } else if col == 2 {
        '2'
    } else if col == 3 {
        '3'
    } else if col == 4 {
        '4'
    } else if col == 5 {
        '5'
    } else if col == 6 {
        '6'
    } else {
        '7'
    }
}

/// The line of text for column `col` with the stones `stack`: the number of
/// the column, a colon, a space, and the letter of each stone from slot 0 up.
pub open spec fn column_text(col: int, stack: Seq<Color>) -> Seq<char> {
    seq![digit(col), ':', ' '] + Seq::new(stack.len(), |s: int| letter(stack[s]))
}

/// The text for the first `n` columns of `p`: their lines, with a line feed
/// between one and the next.
pub open spec fn text_below(p: Seq<Seq<Color>>, n: int) -> Seq<char>
    decreases n,
{
    if n <= 0 {
        Seq::empty()
    } else if n == 1 {
        column_text(0, p[0])
    } else {
        text_below(p, n - 1) + seq!['\n'] + column_text(n - 1, p[n - 1])
    }
}

/// The text for `p`: eight lines, one for each column.
pub open spec fn text_of(p: Seq<Seq<Color>>) -> Seq<char> {
    text_below(p, 8)
}

/// Whether the front stone of a column with the 4-bit unit `code` is
/// `player`'s.
pub open spec fn front_in(code: int, player: Color) -> bool {
    code >= 2 && code % 2 == black_bit(seq![player], 0)
}

/// The 4-bit unit of a column that is full of `player`'s stones.
pub open spec fn tower_code(player: Color) -> int {
    8 + 7 * black_bit(seq![player], 0)
}

/// The 4-bit unit of a column after the colours of its stones are exchanged.
pub open spec fn swapped_code(code: int) -> int {
    if code >= 8 {
        23 - code
    } else if code >= 4 {
        11 - code
    } else if code >= 2 {
        5 - code
    } else {
        code
    }
}

/// 1 where `col` is `at`, else 0.
pub open spec fn one_at(col: int, at: int) -> int {
    if col == at {
        1
    } else {
        0
    }
}

/// Whether column `col` is marked among the first `n` columns with its word `u`.
pub open spec fn marks(flags: Seq<bool>, u: u32, col: int) -> bool {
    0 <= col < flags.len() && flags[col] && u == unit(col)
}

/// The words of the columns from `from` up that `flags` marks, lowest column
/// first.
pub open spec fn marked_units_from(flags: Seq<bool>, from: int) -> Seq<u32>
    decreases flags.len() - from,
{
    if from < 0 || from >= flags.len() {
        Seq::empty()
    } else if flags[from] {
        seq![unit(from)] + marked_units_from(flags, from + 1)
    } else {
        marked_units_from(flags, from + 1)
    }
}

/// What the 4-bit unit of a column says of its front stone and of a tower.
pub proof fn lemma_stack_patterns(code: int, player: Color)
    requires
        1 <= code <= 15,
    ensures
        (stack_of(code).len() > 0 && stack_of(code)[0] == player) <==> front_in(code, player),
        stack_of(code) =~= seq![player, player, player] <==> code == tower_code(player),
{
    if code == tower_code(player) {
        assert(stack_of(code) =~= seq![player, player, player]);
    }
    if stack_of(code) =~= seq![player, player, player] {
        assert(stack_of(code).len() == 3);
        assert(stack_of(code)[0] == player);
        assert(stack_of(code)[1] == player);
        assert(stack_of(code)[2] == player);
    }
}

/// A stone put into a column with room doubles the 4-bit unit of the column,
/// and a black one adds one to it.
pub proof fn lemma_stack_put(code: int, player: Color)
    requires
        1 <= code <= 7,
    ensures
        stack_of(2 * code + black_bit(seq![player], 0)) == seq![player] + stack_of(code),
{
    assert(stack_of(2 * code + black_bit(seq![player], 0)) =~= seq![player] + stack_of(code));
}

/// Taking the front stone off a column halves its 4-bit unit, and the stone
/// was black where the unit was odd.
pub proof fn lemma_stack_take(code: int)
    requires
        2 <= code <= 15,
    ensures
        stack_of(code / 2) == stack_of(code).drop_first(),
        stack_of(code)[0] == (if code % 2 == 1 {
            Color::Black
        } else {
            Color::White
        }),
{
    assert(stack_of(code / 2) =~= stack_of(code).drop_first());
}

/// Exchanging the colours of a column exchanges them in each slot.
pub proof fn lemma_stack_swap(code: int)
    requires
        1 <= code <= 15,
    ensures
        stack_of(swapped_code(code)) == Seq::new(
            stack_of(code).len(),
            |s: int| stack_of(code)[s].opposite(),
        ),
{
    assert(stack_of(swapped_code(code)) =~= Seq::new(
        stack_of(code).len(),
        |s: int| stack_of(code)[s].opposite(),
    ));
}

/// A stone put into a column with room gives a position with one stone more.
pub proof fn lemma_put_on(p: Seq<Seq<Color>>, player: Color, col: int)
    requires
        is_position(p),
        0 <= col < 8,
        p[col].len() < 3,
    ensures
        is_position(put_on(p, player, col)),
        stone_count(put_on(p, player, col)) == stone_count(p) + 1,
{
    let q = put_on(p, player, col);
    assert forall|c: int| 0 <= c < 8 implies (#[trigger] q[c]).len() == p[c].len() + one_at(
        c,
        col,
    ) by {}
    assert(q[0].len() == p[0].len() + one_at(0, col));
    assert(q[1].len() == p[1].len() + one_at(1, col));
    assert(q[2].len() == p[2].len() + one_at(2, col));
    assert(q[3].len() == p[3].len() + one_at(3, col));
    assert(q[4].len() == p[4].len() + one_at(4, col));
    assert(q[5].len() == p[5].len() + one_at(5, col));
    assert(q[6].len() == p[6].len() + one_at(6, col));
    assert(q[7].len() == p[7].len() + one_at(7, col));
}

/// The front stone taken off a column that has one leaves a position with
/// one stone less.
pub proof fn lemma_taken_off(p: Seq<Seq<Color>>, col: int)
    requires
        is_position(p),
        0 <= col < 8,
        p[col].len() > 0,
    ensures
        is_position(taken_off(p, col)),
        stone_count(taken_off(p, col)) == stone_count(p) - 1,
        forall|c: int| 0 <= c < 8 && c != col ==> taken_off(p, col)[c] == p[c],
        taken_off(p, col)[col].len() == p[col].len() - 1,
{
    let q = taken_off(p, col);
    assert forall|c: int| 0 <= c < 8 implies (#[trigger] q[c]).len() == p[c].len() - one_at(
        c,
        col,
    ) by {}
    assert(q[0].len() == p[0].len() - one_at(0, col));
    assert(q[1].len() == p[1].len() - one_at(1, col));
    assert(q[2].len() == p[2].len() - one_at(2, col));
    assert(q[3].len() == p[3].len() - one_at(3, col));
    assert(q[4].len() == p[4].len() - one_at(4, col));
    assert(q[5].len() == p[5].len() - one_at(5, col));
    assert(q[6].len() == p[6].len() - one_at(6, col));
    assert(q[7].len() == p[7].len() - one_at(7, col));
}

/// The words of the marked columns are the words of the columns that are
/// marked, each once and in the order of the columns.
pub proof fn lemma_marked_units(flags: Seq<bool>, u: u32)
    requires
        flags.len() <= 8,
    ensures
        marked_units(flags).contains(u) <==> exists|c: int| marks(flags, u, c),
        marked_units(flags).len() <= flags.len(),
    decreases flags.len(),
{
    let all = marked_units(flags);
    if flags.len() > 0 {
        let rest = marked_units(flags.drop_last());
        lemma_marked_units(flags.drop_last(), u);
        let top = flags.len() - 1;
        if all.contains(u) {
            let i = choose|i: int| 0 <= i < all.len() && all[i] == u;
            if flags.last() && i == rest.len() {
                assert(marks(flags, u, top));
            } else {
                assert(rest[i] == u);
                let c = choose|c: int| marks(flags.drop_last(), u, c);
                assert(marks(flags, u, c));
            }
        }
        if exists|c: int| marks(flags, u, c) {
            let c = choose|c: int| marks(flags, u, c);
            if c == top {
                assert(all[rest.len() as int] == u);
            } else {
                assert(marks(flags.drop_last(), u, c));
                let i = choose|i: int| 0 <= i < rest.len() && rest[i] == u;
                assert(all[i] == u);
            }
        }
    }
}

/// The marked columns below `n` and those from `n` up are all marked columns.
pub proof fn lemma_marked_units_split(flags: Seq<bool>, n: int)
    requires
        0 <= n <= flags.len(),
    ensures
        marked_units(flags.take(n)) + marked_units_from(flags, n) == marked_units(flags),
    decreases flags.len() - n,
{
    if n == flags.len() {
        assert(flags.take(n) =~= flags);
        assert(marked_units(flags) + Seq::<u32>::empty() =~= marked_units(flags));
    } else {
        lemma_marked_units_split(flags, n + 1);
        assert(flags.take(n + 1).drop_last() =~= flags.take(n));
        let below = marked_units(flags.take(n));
        let above = marked_units_from(flags, n + 1);
        if flags[n] {
            assert(below.push(unit(n)) + above =~= below + (seq![unit(n)] + above));
        }
    }
}

/// The movements out of some columns are the movements out of one of them.
pub proof fn lemma_movements_over(p: Seq<Seq<Color>>, sources: Seq<u32>, action: Action)
    ensures
        movements_over(p, sources).contains(action) <==> exists|i: int|
            0 <= i < sources.len() && #[trigger] movements_from(p, sources[i]).contains(action),
    decreases sources.len(),
{
    let all = movements_over(p, sources);
    if sources.len() > 0 {
        let head = movements_over(p, sources.drop_last());
        let tail = movements_from(p, sources.last());
        lemma_movements_over(p, sources.drop_last(), action);
        if all.contains(action) {
            let k = choose|k: int| 0 <= k < all.len() && all[k] == action;
            if k < head.len() {
                assert(head[k] == action);
                let i = choose|i: int|
                    0 <= i < sources.drop_last().len() && #[trigger] movements_from(
                        p,
                        sources.drop_last()[i],
                    ).contains(action);
                assert(movements_from(p, sources[i]).contains(action));
            } else {
                assert(tail[k - head.len()] == action);
                assert(movements_from(p, sources[sources.len() - 1]).contains(action));
            }
        }
        if exists|i: int|
            0 <= i < sources.len() && #[trigger] movements_from(p, sources[i]).contains(action) {
            let i = choose|i: int|
                0 <= i < sources.len() && #[trigger] movements_from(p, sources[i]).contains(action);
            if i == sources.len() - 1 {
                let k = choose|k: int| 0 <= k < tail.len() && tail[k] == action;
                assert(all[head.len() + k] == action);
            } else {
                assert(movements_from(p, sources.drop_last()[i]).contains(action));
                let k = choose|k: int| 0 <= k < head.len() && head[k] == action;
                assert(all[k] == action);
            }
        }
    }
}

/// The legal actions of a player are the actions that are legal for them.
pub proof fn lemma_legal_actions(p: Seq<Seq<Color>>, player: Color, action: Action)
    ensures
        legal_actions(p, player).contains(action) <==> is_legal(p, player, action),
{
    if stone_count(p) == 16 {
        let sources = marked_units(front_columns(p, player));
        lemma_movements_over(p, sources, action);
        if legal_actions(p, player).contains(action) {
            let i = choose|i: int|
                0 <= i < sources.len() && #[trigger] movements_from(p, sources[i]).contains(action);
            let from = sources[i];
            assert(sources.contains(from));
            lemma_marked_units(front_columns(p, player), from);
            let c = choose|c: int| marks(front_columns(p, player), from, c);
            let landings = marked_units(landing_columns(p, c));
            let moves = movements_from(p, from);
            let k = choose|k: int| 0 <= k < moves.len() && moves[k] == action;
            let to = landings[k];
            assert(landings.contains(to));
            lemma_marked_units(landing_columns(p, c), to);
            let d = choose|d: int| marks(landing_columns(p, c), to, d);
            assert(action == Action::Move { from, to });
        }
        if is_legal(p, player, action) {
            match action {
                Action::Put { player: who, target } => {},
                Action::Move { from, to } => {
                    let c = column_of(from);
                    let d = column_of(to);
                    assert(marks(front_columns(p, player), from, c));
                    lemma_marked_units(front_columns(p, player), from);
                    let i = choose|i: int| 0 <= i < sources.len() && sources[i] == from;
                    assert(marks(landing_columns(p, c), to, d));
                    lemma_marked_units(landing_columns(p, c), to);
                    let landings = marked_units(landing_columns(p, c));
                    let k = choose|k: int| 0 <= k < landings.len() && landings[k] == to;
                    assert(movements_from(p, from)[k] == action);
                    assert(movements_from(p, sources[i]).contains(action));
                },
            }
        }
    } else if player == mover(p) {
        let targets = marked_units(open_columns(p));
        let puts = placements(p, player);
        if puts.contains(action) {
            let k = choose|k: int| 0 <= k < puts.len() && puts[k] == action;
            let target = targets[k];
            assert(targets.contains(target));
            lemma_marked_units(open_columns(p), target);
            let c = choose|c: int| marks(open_columns(p), target, c);
            assert(action == Action::Put { player, target });
        }
        if is_legal(p, player, action) {
            match action {
                Action::Put { player: who, target } => {
                    let c = column_of(target);
                    assert(marks(open_columns(p), target, c));
                    lemma_marked_units(open_columns(p), target);
                    let k = choose|k: int| 0 <= k < targets.len() && targets[k] == target;
                    assert(puts[k] == action);
                },
                Action::Move { from, to } => {},
            }
        }
    }
}

} // verus!
