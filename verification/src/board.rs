//! The board as two bit sets, one for each colour, and the rules of the game
//! computed on them.

use crate::bit_utils::hot_bits;
use crate::bit_utils::HotBitIter;
use crate::bit_utils::is_set;
use crate::bit_utils::ones;
use crate::encoding::lemma_position_of_id;
use crate::layout::front_bits;
use crate::layout::id_bits;
use crate::layout::lemma_action_bits;
use crate::layout::lemma_decode_start;
use crate::layout::lemma_decode_step;
use crate::layout::lemma_decoded_bits;
use crate::layout::lemma_encode_start;
use crate::layout::lemma_encode_step;
use crate::layout::lemma_field;
use crate::layout::lemma_hot_units;
use crate::layout::lemma_id_injective;
use crate::layout::lemma_id_valid;
use crate::layout::lemma_line_bits;
use crate::layout::lemma_occupied_field;
use crate::layout::lemma_ones_of_fields;
use crate::layout::lemma_put_bits;
use crate::layout::lemma_slot_bits;
use crate::layout::lemma_swap_bits;
use crate::layout::lemma_take_bits;
use crate::layout::lemma_unit_zeros;
use crate::layout::lemma_wf_empty;
use crate::layout::low;
use crate::layout::neighbour_mask;
use crate::layout::nib;
use crate::layout::occupied_bits;
use crate::layout::ring_mask;
use crate::layout::room_mask;
use crate::layout::tower_mask;
use crate::layout::wf_bits;
use crate::position::adjacent;
use crate::position::after;
use crate::position::colour_in;
use crate::position::column_of;
use crate::position::column_text;
use crate::position::digit;
use crate::position::empty_position;
use crate::position::field;
use crate::position::front_columns;
use crate::position::holds_front;
use crate::position::id_of;
use crate::position::is_position;
use crate::position::landing_columns;
use crate::position::legal_actions;
use crate::position::lemma_legal_actions;
use crate::position::lemma_marked_units;
use crate::position::lemma_stack_patterns;
use crate::position::lemma_stack_put;
use crate::position::lemma_stack_swap;
use crate::position::lemma_stack_take;
use crate::position::letter;
use crate::position::lines_up;
use crate::position::marked_units;
use crate::position::marks;
use crate::position::movements;
use crate::position::movements_from;
use crate::position::movements_over;
use crate::position::mover;
use crate::position::open_columns;
use crate::position::permits;
use crate::position::placements;
use crate::position::position_of;
use crate::position::put_on;
use crate::position::stack_of;
use crate::position::stone_count;
use crate::position::swapped;
use crate::position::taken_off;
use crate::position::text_below;
use crate::position::text_of;
use crate::position::tower;
use crate::position::valid_id;
use crate::position::wins_at;
use std::ops::Not;
use vstd::prelude::*;
use vstd::std_specs::convert::FromSpecImpl;
use vstd::std_specs::convert::TryFromSpecImpl;
use vstd::std_specs::ops::NotSpecImpl;
use vstd::string::StringExecFns;

verus! {

/// The colour of a stone, and so the name of a player.
#[derive(Debug, Clone, Copy, PartialEq, Eq, Hash, Structural)]
pub enum Color {
    Black,
    White,
}

impl Color {
    /// The other colour.
    pub open spec fn opposite(self) -> Color {
        match self {
            Color::Black => Color::White,
            Color::White => Color::Black,
        }
    }
}

impl Not for Color {
    type Output = Color;

    fn not(self) -> (other: Color) {
        match self {
            Color::Black => Color::White,
            Color::White => Color::Black,
        }
    }
}

impl NotSpecImpl for Color {
    open spec fn obeys_not_spec() -> bool {
        true
    }

    open spec fn not_req(self) -> bool {
        true
    }

    open spec fn not_spec(self) -> Color {
        self.opposite()
    }
}

/// A placement of a stone of `player` into the column that `target` stands
/// for, or a movement of the front stone of one column to another. A column
/// is named by the lowest bit of its 4-bit unit.
#[derive(Debug, Clone, Copy, PartialEq, Eq, Structural)]
pub enum Action {
    Put { player: Color, target: u32 },
    Move { from: u32, to: u32 },
}

/// What is wrong with a word that encodes no position: the 4-bit unit of
/// `column` is zero, and no unit of a lower column is.
#[derive(Debug, Clone, Copy, PartialEq, Eq, Structural)]
pub struct InvalidEncoding {
    pub column: u32,
}

/// What is wrong with an action that a board refuses: it is no legal action
/// of either player there.
#[derive(Debug, Clone, Copy, PartialEq, Eq, Structural)]
pub struct IllegalAction {
    pub action: Action,
}

/// Whether `action` is one of `actions`.
fn has_action(actions: &Vec<Action>, action: Action) -> (found: bool)
    ensures
        found == actions@.contains(action),
{
    for i in 0..actions.len()
        invariant
            forall|k: int| 0 <= k < i ==> actions@[k] != action,
    {
        if actions[i] == action {
            return true;
        }
    }
    false
}

/// The lowest column from `from` up whose 4-bit unit in `id` is zero; 8 where
/// there is none.
pub open spec fn first_zero_field(id: u32, from: int) -> int
    decreases 8 - from,
{
    if from >= 8 {
        8
    } else if field(id, from) == 0 {
        from
    } else {
        first_zero_field(id, from + 1)
    }
}

/// Below the first zero unit no unit is zero, and where there is none the
/// word is an encoding.
pub proof fn lemma_first_zero_field(id: u32, from: int)
    requires
        0 <= from <= 8,
    ensures
        from <= first_zero_field(id, from) <= 8,
        first_zero_field(id, from) < 8 ==> field(id, first_zero_field(id, from)) == 0,
        forall|c: int| from <= c < first_zero_field(id, from) ==> field(id, c) != 0,
    decreases 8 - from,
{
    if from < 8 && field(id, from) != 0 {
        lemma_first_zero_field(id, from + 1);
    }
}

/// For each column, whether a stone may move to it from column `from`.
pub open spec fn adjacent_columns(from: int) -> Seq<bool> {
    Seq::new(8, |c: int| adjacent(from, c))
}

/// The front slots of the columns to which a stone may move from the column
/// that `from` stands for: its two neighbours on the ring and the column
/// opposite.
pub fn adjacency(from: u32) -> (mask: u32)
    requires
        0 <= column_of(from) < 8,
    ensures
        mask == neighbour_mask((4 * column_of(from)) as u32),
        hot_bits(mask) == marked_units(adjacent_columns(column_of(from))),
{
    let ghost c = column_of(from);
    proof {
        lemma_field(from, c);
        vstd::std_specs::bits::axiom_u32_trailing_zeros(from);
        lemma_unit_zeros(c as u32, from.trailing_zeros());
        lemma_wf_empty();
        assert forall|d: int| 0 <= d < 8 implies adjacent_columns(c)[d] == is_set(
            neighbour_mask((4 * c) as u32),
            (4 * d) as u32,
        ) by {
            lemma_action_bits(0, 0, true, c as u32, d as u32);
        }
        lemma_action_bits(0, 0, true, c as u32, 0);
        lemma_hot_units(neighbour_mask((4 * c) as u32), adjacent_columns(c));
    }
    let zeros = from.trailing_zeros();
    if zeros == 0 {
        0x1001_0010
    } else {
        (0x1001_0010u32 << zeros) | (0x1001_0010u32 >> (32 - zeros))
    }
}

/// The digit that stands for column `n`.
fn column_name(n: u32) -> (name: &'static str)
    requires
        n < 8,
    ensures
        name@ == seq![digit(n as int)],
{
    proof {
        reveal_strlit("0");
        reveal_strlit("1");
        reveal_strlit("2");
        reveal_strlit("3");
        reveal_strlit("4");
        reveal_strlit("5");
        reveal_strlit("6");
        reveal_strlit("7");
    }
    let name = if n == 0 {
        "0"
    } else if n == 1 {
        "1"
    } else if n == 2 {
        "2"
    } else if n == 3 {
        "3"
    } else if n == 4 {
        "4"
    } else if n == 5 {
        "5"
    } else if n == 6 {
        "6"
    } else {
        "7"
    };
    assert(name@ =~= seq![digit(n as int)]);
    name
}

/// The board: for each colour the slots that hold a stone of it, four bits to
/// a column, slot 0 lowest.
#[derive(Debug, Clone, Copy)]
pub struct Board {
    b: u32,
    w: u32,
}

impl Board {
    /// No slot holds two stones, the fourth bit of each column is unused, and
    /// the stones of a column fill its slots from slot 0 up without a gap.
    #[verifier::type_invariant]
    pub closed spec fn wf(self) -> bool {
        wf_bits(self.b, self.w)
    }

    /// The encoding of the board.
    pub closed spec fn id(self) -> u32 {
        id_bits(self.b, self.w)
    }

    /// The board with the position that `id` encodes.
    pub closed spec fn of_id(id: u32) -> Board {
        Board { b: id & occupied_bits(id), w: occupied_bits(id) ^ (id & occupied_bits(id)) }
    }

    /// The board without stones.
    pub fn new() -> (board: Board)
        ensures
            board.wf(),
            board@ == empty_position(),
    {
        proof {
            lemma_wf_empty();
            assert forall|c: int| 0 <= c < 8 implies stack_of(field(0x1111_1111, c))
                =~= Seq::<Color>::empty() by {
                lemma_field(0x1111_1111, c);
                let k = c as u32;
                assert(nib(0x1111_1111, k) == 1) by (bit_vector)
                    requires
                        k < 8,
                ;
            }
            assert(position_of(0x1111_1111) =~= empty_position());
        }
        Board { b: 0, w: 0 }
    }

    /// The board with the position that `id` encodes.
    pub fn from_valid_id(id: u32) -> (board: Board)
        requires
            valid_id(id),
        ensures
            board.wf(),
            board == Board::of_id(id),
            board@ == position_of(id),
    {
        proof {
            Board::lemma_of_id(id);
        }
        match Board::try_from(id) {
            Ok(board) => board,
            Err(_) => vstd::pervasive::unreached(),
        }
    }

    /// The number of stones on the board.
    pub fn num_stones(&self) -> (n: u32)
        ensures
            n == stone_count(self@),
            n <= 24,
    {
        proof {
            use_type_invariant(self);
            lemma_ones_of_fields(self.b | self.w);
            self.lemma_height(0);
            self.lemma_height(1);
            self.lemma_height(2);
            self.lemma_height(3);
            self.lemma_height(4);
            self.lemma_height(5);
            self.lemma_height(6);
            self.lemma_height(7);
            self.lemma_id();
        }
        (self.b | self.w).count_ones()
    }

    /// The player to move: black where the number of stones is even.
    pub fn canonical_player(&self) -> (player: Color)
        ensures
            player == mover(self@),
    {
        if self.num_stones() % 2 == 0 {
            Color::Black
        } else {
            Color::White
        }
    }

    /// The legal actions of `player`, in the order of `legal_actions`.
    pub fn legal_actions(&self, player: Color) -> (actions: Vec<Action>)
        ensures
            actions@ == legal_actions(self@, player),
    {
        let mut actions: Vec<Action> = Vec::new();
        let bw: u32 = self.b | self.w;
        let to_able: u32 = 0x1111_1111u32 & ((!bw) >> 2);
        let ghost p = self@;
        proof {
            use_type_invariant(self);
        }
        if self.num_stones() == 16 {
            let from_able: u32 = 0x1111_1111u32 & self.bit(player);
            let mut sources = HotBitIter::from(from_able);
            let ghost all = marked_units(front_columns(p, player));
            let ghost mut i: int = 0;
            proof {
                self.lemma_front_units(player);
                assert(all.take(0) =~= Seq::<u32>::empty());
                assert(sources@ =~= all.skip(0));
            }
            loop
                invariant
                    self.wf(),
                    p == self@,
                    to_able == room_mask(self.b, self.w),
                    all == marked_units(front_columns(p, player)),
                    0 <= i <= all.len(),
                    sources@ == all.skip(i),
                    actions@ == movements_over(p, all.take(i)),
                ensures
                    actions@ == movements(p, player),
                decreases sources@.len(),
            {
                match sources.next() {
                    None => {
                        assert(all.take(i) =~= all);
                        break ;
                    },
                    Some(from) => {
                        let ghost c = column_of(from);
                        let ghost before = actions@;
                        proof {
                            assert(from == all[i]);
                            assert(all.contains(from));
                            lemma_marked_units(front_columns(p, player), from);
                            let col = choose|col: int| marks(front_columns(p, player), from, col);
                            assert(col == c);
                            self.lemma_landing_units(c);
                        }
                        let to_candidates = adjacency(from);
                        let mut targets = HotBitIter::from(to_candidates & to_able);
                        let ghost landings = marked_units(landing_columns(p, c));
                        let ghost mut j: int = 0;
                        proof {
                            assert(targets@ =~= landings.skip(0));
                            assert(movements_from(p, from).take(0) =~= Seq::<Action>::empty());
                            assert(before + Seq::<Action>::empty() =~= before);
                        }
                        loop
                            invariant
                                landings == marked_units(landing_columns(p, column_of(from))),
                                0 <= j <= landings.len(),
                                targets@ == landings.skip(j),
                                actions@ == before + movements_from(p, from).take(j),
                            ensures
                                actions@ == before + movements_from(p, from),
                            decreases targets@.len(),
                        {
                            match targets.next() {
                                None => {
                                    assert(movements_from(p, from).take(j) =~= movements_from(
                                        p,
                                        from,
                                    ));
                                    break ;
                                },
                                Some(to) => {
                                    actions.push(Action::Move { from, to });
                                    proof {
                                        assert(to == landings[j]);
                                        assert(movements_from(p, from).take(j + 1)
                                            =~= movements_from(p, from).take(j).push(
                                            Action::Move { from, to },
                                        ));
                                        assert(landings.skip(j).drop_first() =~= landings.skip(
                                            j + 1,
                                        ));
                                        j = j + 1;
                                    }
                                },
                            }
                        }
                        proof {
                            assert(all.take(i + 1).drop_last() =~= all.take(i));
                            assert(all.take(i + 1).last() == from);
                            assert(all.skip(i).drop_first() =~= all.skip(i + 1));
                            i = i + 1;
                        }
                    },
                }
            }
        } else if player == self.canonical_player() {
            let mut targets = HotBitIter::from(to_able);
            let ghost all = marked_units(open_columns(p));
            let ghost mut i: int = 0;
            proof {
                self.lemma_open_units();
                assert(targets@ =~= all.skip(0));
                assert(placements(p, player).take(0) =~= Seq::<Action>::empty());
            }
            loop
                invariant
                    all == marked_units(open_columns(p)),
                    0 <= i <= all.len(),
                    targets@ == all.skip(i),
                    actions@ == placements(p, player).take(i),
                ensures
                    actions@ == placements(p, player),
                decreases targets@.len(),
            {
                match targets.next() {
                    None => {
                        assert(placements(p, player).take(i) =~= placements(p, player));
                        break ;
                    },
                    Some(target) => {
                        actions.push(Action::Put { player, target });
                        proof {
                            assert(target == all[i]);
                            assert(placements(p, player).take(i + 1) =~= placements(
                                p,
                                player,
                            ).take(i).push(Action::Put { player, target }));
                            assert(all.skip(i).drop_first() =~= all.skip(i + 1));
                            i = i + 1;
                        }
                    },
                }
            }
        }
        actions
    }

    /// Carries out `action`, which has to be legal for one of the players.
    pub fn perform(&mut self, action: Action)
        requires
            permits(old(self)@, action),
        ensures
            final(self).wf(),
            final(self)@ == after(old(self)@, action),
    {
        proof {
            let player = choose|player: Color| #[trigger]
                legal_actions(self@, player).contains(action);
            lemma_legal_actions(self@, player, action);
        }
        match action {
            Action::Put { player, target } => self.put_stone(player, target),
            Action::Move { from, to } => self.move_stone(from, to),
        }
    }

    /// Whether `action` is a legal action of one of the players.
    pub fn allows(&self, action: Action) -> (legal: bool)
        ensures
            legal == permits(self@, action),
    {
        let black = self.legal_actions(Color::Black);
        let white = self.legal_actions(Color::White);
        let legal = has_action(&black, action) || has_action(&white, action);
        proof {
            if permits(self@, action) {
                let player = choose|player: Color| #[trigger]
                    legal_actions(self@, player).contains(action);
                assert(player == Color::Black || player == Color::White);
            }
        }
        legal
    }

    /// Carries out `action` if it is legal for one of the players, and
    /// refuses it otherwise, leaving the board as it is.
    pub fn try_perform(&mut self, action: Action) -> (done: Result<(), IllegalAction>)
        ensures
            final(self).wf(),
            match done {
                Ok(_) => permits(old(self)@, action) && final(self)@ == after(old(self)@, action),
                Err(refused) => !permits(old(self)@, action) && *final(self) == *old(self)
                    && refused.action == action,
            },
    {
        proof {
            use_type_invariant(&*self);
        }
        if self.allows(action) {
            self.perform(action);
            Ok(())
        } else {
            Err(IllegalAction { action })
        }
    }

    /// The board after `action`, which has to be legal for one of the players.
    pub fn perform_copied(&self, action: Action) -> (board: Board)
        requires
            permits(self@, action),
        ensures
            board.wf(),
            board@ == after(self@, action),
    {
        let mut board_tmp = *self;
        board_tmp.perform(action);
        board_tmp
    }

    /// Exchanges the colour of every stone.
    pub fn swap_color(&mut self)
        ensures
            final(self).wf(),
            final(self)@ == swapped(old(self)@),
    {
        proof {
            use_type_invariant(&*self);
            lemma_swap_bits(self.b, self.w, 0);
        }
        let next = Board { b: self.w, w: self.b };
        proof {
            assert forall|c: int| 0 <= c < 8 implies #[trigger] next@[c] == swapped(self@)[c] by {
                lemma_swap_bits(self.b, self.w, c as u32);
                self.lemma_code(c);
                next.lemma_code(c);
                lemma_stack_swap(field(self.id(), c));
            }
            assert(next@ =~= swapped(self@));
        }
        *self = next;
    }

    /// Whether `player` has the front stone of four columns in a row round
    /// the ring, or a column full of their stones.
    pub fn lines_up(&self, player: Color) -> (won: bool)
        ensures
            won == lines_up(self@, player),
    {
        let bit = self.bit(player);
        let ghost black = player == Color::Black;
        let mut mask_h: u32 = 0x1111;
        let mut mask_v: u32 = 0b0111;
        proof {
            use_type_invariant(self);
            lemma_line_bits(self.b, self.w, black, 0);
        }
        for i in 0u32..8
            invariant
                self.wf(),
                black == (player == Color::Black),
                bit == (if black {
                    self.b
                } else {
                    self.w
                }),
                i < 8 ==> mask_h == ring_mask(i) && mask_v == tower_mask(i),
                forall|c: int| 0 <= c < i ==> !#[trigger] wins_at(self@, player, c),
        {
            proof {
                self.lemma_line(player, i);
            }
            if bit & mask_h == mask_h || bit & mask_v == mask_v {
                return true;
            }
            mask_h = (mask_h << 4) | (mask_h >> 28);
            mask_v <<= 4;
        }
        false
    }

    /// The text for the board: eight lines, one for each column, each with
    /// the number of the column and a letter for each of its stones, the
    /// stone in slot 0 first.
    pub fn render(&self) -> (text: String)
        ensures
            text@ == text_of(self@),
    {
        let mut text = String::new();
        proof {
            use_type_invariant(self);
        }
        for n in 0u32..8
            invariant
                self.wf(),
                text@ == text_below(self@, n as int),
        {
            let ghost start = text@;
            if n > 0 {
                proof {
                    reveal_strlit("\n");
                }
                text.append("\n");
            }
            text.append(column_name(n));
            proof {
                reveal_strlit(": ");
            }
            text.append(": ");
            let ghost head = text@;
            let mut cursor: u32 = 1u32 << (4 * n);
            proof {
                lemma_slot_bits(self.b, self.w, n, 0);
                self.lemma_code(n as int);
                assert(head =~= (if n > 0 {
                    start + seq!['\n']
                } else {
                    start
                }) + seq![digit(n as int), ':', ' ']);
                assert(text@ =~= head + Seq::new(0, |s: int| letter(self@[n as int][s])));
            }
            for i in 0u32..3
                invariant
                    self.wf(),
                    n < 8,
                    cursor == (1u32 << (4 * n)) << i,
                    i <= self@[n as int].len() ==> text@ == head + Seq::new(
                        i as nat,
                        |s: int| letter(self@[n as int][s]),
                    ),
                    i > self@[n as int].len() ==> text@ == head + Seq::new(
                        self@[n as int].len(),
                        |s: int| letter(self@[n as int][s]),
                    ),
            {
                let ghost before = text@;
                proof {
                    lemma_slot_bits(self.b, self.w, n, i);
                    self.lemma_code(n as int);
                    reveal_strlit("B");
                    reveal_strlit("W");
                }
                if self.b & cursor != 0 {
                    text.append("B");
                } else if self.w & cursor != 0 {
                    text.append("W");
                }
                proof {
                    let stack = self@[n as int];
                    if i < stack.len() {
                        assert(stack[i as int] == colour_in(field(self.id(), n as int), i as int));
                        assert(text@ =~= head + Seq::new(
                            (i + 1) as nat,
                            |s: int| letter(stack[s]),
                        ));
                    }
                }
                cursor <<= 1;
            }
            proof {
                let stack = self@[n as int];
                assert(text@ == head + Seq::new(stack.len(), |s: int| letter(stack[s])));
                if n > 0 {
                    assert(text@ =~= start + seq!['\n'] + column_text(n as int, stack));
                } else {
                    assert(text@ =~= column_text(0, stack));
                }
            }
        }
        text
    }

    /// The slots that hold a stone of `player`.
    fn bit(&self, player: Color) -> (bits: u32)
        ensures
            bits == (match player {
                Color::Black => self.b,
                Color::White => self.w,
            }),
    {
        match player {
            Color::Black => self.b,
            Color::White => self.w,
        }
    }

    /// Puts a stone of `player` into slot 0 of the column that `target`
    /// stands for; the stones of the column move up by one slot.
    fn put_stone(&mut self, player: Color, target: u32)
        requires
            0 <= column_of(target) < 8,
            old(self)@[column_of(target)].len() < 3,
        ensures
            final(self).wf(),
            final(self)@ == put_on(old(self)@, player, column_of(target)),
    {
        let ghost c = column_of(target);
        let ghost black = player == Color::Black;
        proof {
            use_type_invariant(&*self);
            lemma_field(target, c);
            vstd::std_specs::bits::axiom_u32_trailing_zeros(target);
            lemma_unit_zeros(c as u32, target.trailing_zeros());
            self.lemma_code(c);
            lemma_put_bits(self.b, self.w, black, c as u32, 0);
        }
        let zeros = target.trailing_zeros();
        let mask: u32 = 0b0111u32 << zeros;
        let outer_mask: u32 = !(0b1111u32 << zeros);
        let own = self.bit(player);
        let other = self.bit(player.not());
        let own_next: u32 = (own & outer_mask) | ((own & mask) << 1) | target;
        let other_next: u32 = (other & outer_mask) | ((other & mask) << 1);
        let next = match player {
            Color::Black => Board { b: own_next, w: other_next },
            Color::White => Board { b: other_next, w: own_next },
        };
        proof {
            assert forall|d: int| 0 <= d < 8 implies #[trigger] next@[d] == put_on(
                self@,
                player,
                c,
            )[d] by {
                lemma_put_bits(self.b, self.w, black, c as u32, d as u32);
                self.lemma_code(d);
                next.lemma_code(d);
                if d == c {
                    lemma_stack_put(field(self.id(), c), player);
                }
            }
            assert(next@ =~= put_on(self@, player, c));
        }
        *self = next;
    }

    /// Takes the front stone off the column that `target` stands for and says
    /// whose it was; the other stones of the column move down by one slot.
    /// Where the column is empty, nothing changes.
    fn remove_stone(&mut self, target: u32) -> (stone_color: Option<Color>)
        requires
            0 <= column_of(target) < 8,
        ensures
            final(self).wf(),
            old(self)@[column_of(target)].len() == 0 ==> stone_color.is_none() && final(self)@
                == old(self)@,
            old(self)@[column_of(target)].len() > 0 ==> stone_color == Some(
                old(self)@[column_of(target)][0],
            ) && final(self)@ == taken_off(old(self)@, column_of(target)),
    {
        let ghost c = column_of(target);
        proof {
            use_type_invariant(&*self);
            lemma_field(target, c);
            vstd::std_specs::bits::axiom_u32_trailing_zeros(target);
            lemma_unit_zeros(c as u32, target.trailing_zeros());
            self.lemma_code(c);
            lemma_take_bits(self.b, self.w, c as u32, 0);
        }
        let zeros = target.trailing_zeros();
        let mask: u32 = 0b1110u32 << zeros;
        let outer_mask: u32 = !(0b1111u32 << zeros);
        let mut stone_color: Option<Color> = None;
        if self.b & target == target {
            stone_color = Some(Color::Black);
        }
        if self.w & target == target {
            stone_color = Some(Color::White);
        }
        let next = Board {
            b: (self.b & outer_mask) | ((self.b & mask) >> 1),
            w: (self.w & outer_mask) | ((self.w & mask) >> 1),
        };
        proof {
            let k = field(self.id(), c);
            assert forall|d: int| 0 <= d < 8 implies #[trigger] next@[d] == (if k >= 2 {
                taken_off(self@, c)
            } else {
                self@
            })[d] by {
                lemma_take_bits(self.b, self.w, c as u32, d as u32);
                self.lemma_code(d);
                next.lemma_code(d);
                if d == c && k >= 2 {
                    lemma_stack_take(k);
                }
            }
            if k >= 2 {
                lemma_stack_take(k);
                assert(next@ =~= taken_off(self@, c));
            } else {
                assert(next@ =~= self@);
            }
        }
        *self = next;
        stone_color
    }

    /// Moves the front stone of the column that `from` stands for to slot 0
    /// of the column that `to` stands for.
    fn move_stone(&mut self, from: u32, to: u32)
        requires
            0 <= column_of(from) < 8,
            0 <= column_of(to) < 8,
            column_of(from) != column_of(to),
            old(self)@[column_of(from)].len() > 0,
            old(self)@[column_of(to)].len() < 3,
        ensures
            final(self).wf(),
            final(self)@ == after(old(self)@, Action::Move { from, to }),
    {
        match self.remove_stone(from) {
            Some(stone_color) => self.put_stone(stone_color, to),
            None => {},
        }
    }

    /// An encoding is the encoding of the board that it encodes.
    pub proof fn lemma_of_id(id: u32)
        requires
            valid_id(id),
        ensures
            Board::of_id(id).wf(),
            Board::of_id(id).id() == id,
            Board::of_id(id)@ == position_of(id),
    {
        lemma_field(id, 0);
        lemma_field(id, 1);
        lemma_field(id, 2);
        lemma_field(id, 3);
        lemma_field(id, 4);
        lemma_field(id, 5);
        lemma_field(id, 6);
        lemma_field(id, 7);
        lemma_decoded_bits(id);
    }

    /// The 4-bit unit of column `c` in the encoding of the board.
    proof fn lemma_code(self, c: int)
        requires
            0 <= c < 8,
        ensures
            field(self.id(), c) == nib(id_bits(self.b, self.w), c as u32),
            self@[c] == stack_of(field(self.id(), c)),
            self.wf() ==> 1 <= field(self.id(), c) <= 15,
            self@[c].len() < 3 <==> field(self.id(), c) < 8,
            self@[c].len() > 0 <==> field(self.id(), c) >= 2,
    {
        lemma_field(self.id(), c);
        if self.wf() {
            lemma_id_valid(self.b, self.w, c as u32);
        }
    }

    /// The number of stones in column `c` is the number of its occupied slots.
    proof fn lemma_height(self, c: int)
        requires
            self.wf(),
            0 <= c < 8,
        ensures
            ones(field(self.b | self.w, c) as nat) == self@[c].len(),
    {
        lemma_field(self.b | self.w, c);
        lemma_field(self.id(), c);
        lemma_occupied_field(self.b, self.w, c as u32);
        reveal_with_fuel(ones, 4);
    }

    /// What the encoding says of the front stone of column `c` and of a tower
    /// in it.
    proof fn lemma_front(self, c: int, player: Color)
        requires
            self.wf(),
            0 <= c < 8,
        ensures
            holds_front(self@, player, c) <==> front_bits(
                nib(id_bits(self.b, self.w), c as u32),
                player == Color::Black,
            ),
            tower(self@, player, c) <==> nib(id_bits(self.b, self.w), c as u32) == (if player
                == Color::Black {
                15u32
            } else {
                8u32
            }),
            self@[c].len() < 3 <==> nib(id_bits(self.b, self.w), c as u32) < 8,
    {
        self.lemma_code(c);
        lemma_stack_patterns(field(self.id(), c), player);
    }

    /// The two masks of column `i` find the ring line that starts there and
    /// the tower that stands there.
    proof fn lemma_line(self, player: Color, i: u32)
        requires
            self.wf(),
            i < 8,
        ensures
            ({
                let bits = if player == Color::Black {
                    self.b
                } else {
                    self.w
                };
                (bits & ring_mask(i) == ring_mask(i) || bits & tower_mask(i) == tower_mask(i))
                    <==> wins_at(self@, player, i as int)
            }),
            (ring_mask(i) << 4) | (ring_mask(i) >> 28) == ring_mask((i + 1) as u32),
            tower_mask(i) << 4 == tower_mask((i + 1) as u32),
    {
        let black = player == Color::Black;
        let id = id_bits(self.b, self.w);
        let p = self@;
        let c0 = i as int;
        let c1 = (i + 1) % 8;
        let c2 = (i + 2) % 8;
        let c3 = (i + 3) % 8;
        assert(holds_front(p, player, c0) == front_bits(nib(id, c0 as u32), black)) by {
            self.lemma_front(c0, player);
        }
        assert(holds_front(p, player, c1) == front_bits(nib(id, c1 as u32), black)) by {
            self.lemma_front(c1, player);
        }
        assert(holds_front(p, player, c2) == front_bits(nib(id, c2 as u32), black)) by {
            self.lemma_front(c2, player);
        }
        assert(holds_front(p, player, c3) == front_bits(nib(id, c3 as u32), black)) by {
            self.lemma_front(c3, player);
        }
        assert(tower(p, player, c0) == (nib(id, c0 as u32) == (if black {
            15u32
        } else {
            8u32
        }))) by {
            self.lemma_front(c0, player);
        }
        assert(c0 % 8 == c0 && (c0 + 1) % 8 == c1 && (c0 + 2) % 8 == c2 && (c0 + 3) % 8 == c3);
        lemma_line_bits(self.b, self.w, black, i);
    }

    /// The set front slots of the columns with room are the words of those
    /// columns.
    proof fn lemma_open_units(self)
        requires
            self.wf(),
        ensures
            hot_bits(room_mask(self.b, self.w)) == marked_units(open_columns(self@)),
    {
        assert forall|d: int| 0 <= d < 8 implies open_columns(self@)[d] == is_set(
            room_mask(self.b, self.w),
            (4 * d) as u32,
        ) by {
            lemma_action_bits(self.b, self.w, true, 0, d as u32);
            self.lemma_front(d, Color::Black);
        }
        lemma_action_bits(self.b, self.w, true, 0, 0);
        lemma_hot_units(room_mask(self.b, self.w), open_columns(self@));
    }

    /// The set front slots of `player` are the words of the columns whose
    /// front stone is theirs.
    proof fn lemma_front_units(self, player: Color)
        requires
            self.wf(),
        ensures
            ({
                let bits = if player == Color::Black {
                    self.b
                } else {
                    self.w
                };
                hot_bits(0x1111_1111u32 & bits) == marked_units(front_columns(self@, player))
            }),
    {
        let black = player == Color::Black;
        let bits = if black {
            self.b
        } else {
            self.w
        };
        assert forall|d: int| 0 <= d < 8 implies front_columns(self@, player)[d] == is_set(
            0x1111_1111u32 & bits,
            (4 * d) as u32,
        ) by {
            lemma_action_bits(self.b, self.w, black, 0, d as u32);
            self.lemma_front(d, player);
        }
        lemma_action_bits(self.b, self.w, black, 0, 0);
        lemma_hot_units(0x1111_1111u32 & bits, front_columns(self@, player));
    }

    /// The set front slots of the columns with room next to column `c` are the
    /// words of the columns to which a stone may move from there.
    proof fn lemma_landing_units(self, c: int)
        requires
            self.wf(),
            0 <= c < 8,
        ensures
            hot_bits(neighbour_mask((4 * c) as u32) & room_mask(self.b, self.w)) == marked_units(
                landing_columns(self@, c),
            ),
    {
        let mask = neighbour_mask((4 * c) as u32) & room_mask(self.b, self.w);
        assert forall|d: int| 0 <= d < 8 implies landing_columns(self@, c)[d] == is_set(
            mask,
            (4 * d) as u32,
        ) by {
            lemma_action_bits(self.b, self.w, true, c as u32, d as u32);
            self.lemma_front(d, Color::Black);
        }
        lemma_action_bits(self.b, self.w, true, c as u32, 0);
        lemma_hot_units(mask, landing_columns(self@, c));
    }
}

impl Board {
    /// The position of a board is a position, and the encoding of the board
    /// is the encoding of its position.
    pub proof fn lemma_id(self)
        requires
            self.wf(),
        ensures
            valid_id(self.id()),
            is_position(self@),
            id_of(self@) == self.id(),
    {
        assert forall|c: int| 0 <= c < 8 implies #[trigger] field(self.id(), c) != 0 by {
            lemma_field(self.id(), c);
            lemma_id_valid(self.b, self.w, c as u32);
        }
        lemma_position_of_id(self.id());
    }

    /// Boards with the same position are the same board.
    pub proof fn lemma_position_determines_board(self, other: Board)
        requires
            self.wf(),
            other.wf(),
            self@ == other@,
        ensures
            self == other,
    {
        self.lemma_id();
        other.lemma_id();
        lemma_id_injective(self.b, self.w, other.b, other.w);
    }
}

impl View for Board {
    type V = Seq<Seq<Color>>;

    /// The position on the board.
    open spec fn view(&self) -> Seq<Seq<Color>> {
        position_of(self.id())
    }
}

impl From<Board> for u32 {
    /// The encoding of the position on `board`.
    fn from(board: Board) -> (id: u32) {
        proof {
            use_type_invariant(&board);
            board.lemma_id();
            lemma_encode_start(board.b, board.w);
        }
        let mut id: u32 = 0;
        let mut bw: u32 = board.b | board.w;
        let mut b: u32 = board.b;
        for n in 0u32..8
            invariant
                wf_bits(board.b, board.w),
                id == id_bits(board.b, board.w) & low(n),
                bw == (board.b | board.w) >> (4 * n),
                b == board.b >> (4 * n),
        {
            proof {
                lemma_encode_step(board.b, board.w, n, id);
            }
            let bw_part: u32 = bw & 0xf;
            let b_part: u32 = b & 0xf;
            let id_part: u32 = (bw_part + 1) | b_part;
            id |= id_part << (4 * n);
            bw >>= 4;
            b >>= 4;
        }
        proof {
            lemma_encode_step(board.b, board.w, 0, 0);
        }
        id
    }
}

impl FromSpecImpl<Board> for u32 {
    open spec fn obeys_from_spec() -> bool {
        true
    }

    open spec fn from_spec(board: Board) -> u32 {
        id_of(board@)
    }
}

impl TryFrom<u32> for Board {
    type Error = InvalidEncoding;

    /// The board with the position that `id` encodes, where it encodes one.
    fn try_from(id: u32) -> (r: Result<Board, InvalidEncoding>) {
        let mut black: u32 = 0;
        let mut white: u32 = 0;
        let mut rest: u32 = id;
        proof {
            lemma_decode_start(id);
            lemma_first_zero_field(id, 0);
        }
        for n in 0u32..8
            invariant
                wf_bits(black, white),
                black & !low(n) == 0,
                white & !low(n) == 0,
                id_bits(black, white) & low(n) == id & low(n),
                rest == id >> (4 * n),
                first_zero_field(id, 0) == first_zero_field(id, n as int),
        {
            let part: u32 = rest & 0xf;
            proof {
                lemma_field(id, n as int);
            }
            if part == 0 {
                return Err(InvalidEncoding { column: n });
            }
            proof {
                vstd::std_specs::bits::axiom_u32_leading_zeros(part);
                lemma_decode_step(black, white, id, n, (31 - part.leading_zeros()) as u32);
            }
            let mask: u32 = (1u32 << (31 - part.leading_zeros())) - 1;
            let black_part: u32 = part & mask;
            let white_part: u32 = black_part ^ mask;
            black |= black_part << (4 * n);
            white |= white_part << (4 * n);
            rest >>= 4;
        }
        proof {
            lemma_decode_start(id);
            lemma_decode_start(id_bits(black, white));
            assert(valid_id(id));
            Board::lemma_of_id(id);
            lemma_id_injective(black, white, Board::of_id(id).b, Board::of_id(id).w);
        }
        Ok(Board { b: black, w: white })
    }
}

impl TryFromSpecImpl<u32> for Board {
    open spec fn obeys_try_from_spec() -> bool {
        true
    }

    open spec fn try_from_spec(id: u32) -> Result<Board, InvalidEncoding> {
        if valid_id(id) {
            Ok(Board::of_id(id))
        } else {
            Err(InvalidEncoding { column: first_zero_field(id, 0) as u32 })
        }
    }
}

} // verus!
