//! Packed-integer helpers: iteration over set bits and reduction of a packed
//! ring of eight fields to the least of its sixteen symmetric images.

use crate::position::unit;
use vstd::prelude::*;
use vstd::std_specs::cmp::PartialOrdIs;
use vstd::std_specs::cmp::PartialOrdSpec;
use vstd::std_specs::convert::FromSpecImpl;

verus! {

/// The number of ones among the binary digits of `n`.
pub open spec fn ones(n: nat) -> nat
    decreases n,
{
    if n == 0 {
        0
    } else {
        n % 2 + ones(n / 2)
    }
}

/// `u32::count_ones` of the standard library: the number of ones in the
/// binary representation of the word.
pub assume_specification[ u32::count_ones ](x: u32) -> (n: u32)
    ensures
        n == ones(x as nat),
;

/// The ones of a number are those of its last four binary digits and those of
/// the digits before them.
pub proof fn lemma_ones_split(n: nat)
    ensures
        ones(n) == ones(n % 16) + ones(n / 16),
        n < 16 ==> ones(n) <= 4,
{
    reveal_with_fuel(ones, 5);
    assert(n / 2 / 2 == n / 4);
    assert(n / 4 / 2 == n / 8);
    assert(n / 8 / 2 == n / 16);
    let m = n % 16;
    assert(m / 2 / 2 == m / 4);
    assert(m / 4 / 2 == m / 8);
    assert(m / 8 / 2 == 0);
}

/// Whether bit `k` of `x` is set.
pub open spec fn is_set(x: u32, k: u32) -> bool {
    (x >> k) & 1u32 == 1u32
}

/// The set bits of `bits` from position `k` up, each as a word with that one
/// bit set, lowest first.
pub open spec fn hot_bits_from(bits: u32, k: nat) -> Seq<u32>
    decreases 32 - k,
{
    if k >= 32 {
        Seq::empty()
    } else if is_set(bits, k as u32) {
        seq![1u32 << (k as u32)] + hot_bits_from(bits, k + 1)
    } else {
        hot_bits_from(bits, k + 1)
    }
}

/// The set bits of `bits`, each as a word with that one bit set, lowest first.
pub open spec fn hot_bits(bits: u32) -> Seq<u32> {
    hot_bits_from(bits, 0)
}

proof fn lemma_cleared_bit(x: u32, t: u32, j: u32)
    by (bit_vector)
    requires
        t < 32,
        j < 32,
    ensures
        is_set(x & !(1u32 << t), j) == (is_set(x, j) && j != t),
{
}

/// Above a cleared bit nothing changes.
proof fn lemma_hot_bits_above(bits: u32, t: u32, k: nat)
    requires
        t < k,
        t < 32,
    ensures
        hot_bits_from(bits & !(1u32 << t), k) == hot_bits_from(bits, k),
    decreases 32 - k,
{
    if k < 32 {
        lemma_cleared_bit(bits, t, k as u32);
        lemma_hot_bits_above(bits, t, k + 1);
    }
}

/// Clearing the lowest set bit takes the first item away.
proof fn lemma_hot_bits_lowest(bits: u32, k: nat)
    requires
        bits != 0,
        k <= bits.trailing_zeros(),
    ensures
        hot_bits_from(bits, k) == seq![1u32 << bits.trailing_zeros()] + hot_bits_from(
            bits & !(1u32 << bits.trailing_zeros()),
            k,
        ),
    decreases 32 - k,
{
    let t = bits.trailing_zeros();
    let rest = bits & !(1u32 << t);
    vstd::std_specs::bits::axiom_u32_trailing_zeros(bits);
    lemma_cleared_bit(bits, t, k as u32);
    if k == t {
        lemma_hot_bits_above(bits, t, k + 1);
        assert(hot_bits_from(rest, k) == hot_bits_from(rest, k + 1));
        assert(seq![1u32 << t] + hot_bits_from(rest, k + 1) =~= hot_bits_from(bits, k));
    } else {
        assert(!is_set(bits, k as u32));
        lemma_hot_bits_lowest(bits, k + 1);
    }
}

/// A word without set bits has no items.
proof fn lemma_hot_bits_none(k: nat)
    ensures
        hot_bits_from(0, k) == Seq::<u32>::empty(),
    decreases 32 - k,
{
    if k < 32 {
        let j = k as u32;
        assert(!is_set(0u32, j)) by (bit_vector);
        lemma_hot_bits_none(k + 1);
    }
}

/// Hands out the set bits of a word one by one, lowest first, each as a word
/// with that one bit set.
pub struct HotBitIter {
    bits: u32,
}

impl HotBitIter {
    /// The word whose set bits are still to come.
    pub closed spec fn bits(self) -> u32 {
        self.bits
    }

    /// The next set bit, if one is left.
    pub fn next(&mut self) -> (r: Option<u32>)
        ensures
            match r {
                Some(unit) => old(self)@.len() > 0 && unit == old(self)@[0] && final(self)@ == old(
                    self,
                )@.drop_first(),
                None => old(self)@.len() == 0 && final(self)@ == old(self)@,
            },
    {
        if self.bits != 0 {
            proof {
                vstd::std_specs::bits::axiom_u32_trailing_zeros(self.bits);
                lemma_hot_bits_lowest(self.bits, 0);
            }
            let unit: u32 = 1u32 << self.bits.trailing_zeros();
            self.bits &= !unit;
            assert(final(self)@ =~= old(self)@.drop_first());
            Some(unit)
        } else {
            proof {
                lemma_hot_bits_none(0);
            }
            None
        }
    }
}

impl View for HotBitIter {
    type V = Seq<u32>;

    /// The items still to come, in the order in which they come.
    open spec fn view(&self) -> Seq<u32> {
        hot_bits(self.bits())
    }
}

impl From<u32> for HotBitIter {
    fn from(value: u32) -> (it: Self)
        ensures
            it.bits() == value,
    {
        HotBitIter { bits: value }
    }
}

impl FromSpecImpl<u32> for HotBitIter {
    open spec fn obeys_from_spec() -> bool {
        true
    }

    closed spec fn from_spec(value: u32) -> Self {
        HotBitIter { bits: value }
    }
}

/// A ring of eight equally wide fields packed into one integer. It can be
/// turned by one field and mirrored, and its values are ordered by a number.
pub trait PackedRing: Copy + Ord {
    /// The number by which values are ordered.
    spec fn rank(self) -> nat;

    /// The ring turned by one field.
    spec fn rotated(self) -> Self;

    /// The ring with the order of its fields inverted.
    spec fn reversed(self) -> Self;

    /// `<` orders values by `rank`, and distinct values have distinct ranks.
    proof fn lemma_ordered_by_rank(self, other: Self)
        ensures
            Self::obeys_partial_cmp_spec(),
            self.is_lt(&other) <==> self.rank() < other.rank(),
            self.rank() == other.rank() ==> self == other,
    ;

    /// Eight turns restore a value, and so do two mirrorings; a mirroring
    /// between two turns is a mirroring.
    proof fn lemma_symmetries(self)
        ensures
            self.rotated().rotated().rotated().rotated().rotated().rotated().rotated().rotated()
                == self,
            self.reversed().reversed() == self,
            self.rotated().reversed().rotated() == self.reversed(),
    ;

    fn reverse(&self) -> (r: Self)
        ensures
            r == self.reversed(),
    ;

    fn rotate(&self) -> (r: Self)
        ensures
            r == self.rotated(),
    ;
}

/// `x` turned `k` times.
pub open spec fn turned<T: PackedRing>(x: T, k: nat) -> T
    decreases k,
{
    if k == 0 {
        x
    } else {
        turned(x, (k - 1) as nat).rotated()
    }
}

/// The `k`-th of the sixteen symmetric images of `x`: its eight turns, then the
/// eight turns of its mirror image.
pub open spec fn image<T: PackedRing>(x: T, k: nat) -> T {
    if k < 8 {
        turned(x, k)
    } else {
        turned(x.reversed(), (k - 8) as nat)
    }
}

/// Whether `y` is one of the sixteen symmetric images of `x`.
pub open spec fn in_orbit<T: PackedRing>(y: T, x: T) -> bool {
    exists|k: nat| k < 16 && y == #[trigger] image(x, k)
}

/// Whether `c` is the least of the sixteen symmetric images of `x`.
pub open spec fn is_least_image<T: PackedRing>(c: T, x: T) -> bool {
    &&& in_orbit(c, x)
    &&& forall|k: nat| k < 16 ==> c.rank() <= (#[trigger] image(x, k)).rank()
}

/// The least of the first `n + 1` symmetric images of `x`.
pub open spec fn least_image_upto<T: PackedRing>(x: T, n: nat) -> T
    decreases n,
{
    if n == 0 {
        x
    } else {
        let rest = least_image_upto(x, (n - 1) as nat);
        if image(x, n).rank() < rest.rank() {
            image(x, n)
        } else {
            rest
        }
    }
}

/// The canonical form of `x`: the least of its sixteen symmetric images.
pub open spec fn canonical<T: PackedRing>(x: T) -> T {
    least_image_upto(x, 15)
}

/// Turning `a` times and then `b` times is turning `a + b` times.
pub proof fn lemma_turned_add<T: PackedRing>(x: T, a: nat, b: nat)
    ensures
        turned(turned(x, a), b) == turned(x, a + b),
    decreases b,
{
    if b > 0 {
        lemma_turned_add(x, a, (b - 1) as nat);
    }
}

/// Eight turns restore any value, also after `k` earlier turns.
pub proof fn lemma_turned_period<T: PackedRing>(x: T, k: nat)
    ensures
        turned(x, 8) == x,
        turned(x, k + 8) == turned(x, k),
{
    reveal_with_fuel(turned, 9);
    x.lemma_symmetries();
    lemma_turned_add(x, 8, k);
    lemma_turned_add(x, k, 8);
    turned(x, k).lemma_symmetries();
}

/// Turning the mirror image of a value that was turned `k` times, `k` times
/// more, gives the mirror image of the value.
pub proof fn lemma_mirror_of_turned<T: PackedRing>(x: T, k: nat)
    ensures
        turned(turned(x, k).reversed(), k) == x.reversed(),
    decreases k,
{
    if k > 0 {
        let y = turned(x, (k - 1) as nat);
        // one turn on each side of the mirroring cancels
        y.lemma_symmetries();
        assert(turned(x, k) == y.rotated());
        lemma_turned_add(y.rotated().reversed(), 1, (k - 1) as nat);
        reveal_with_fuel(turned, 2);
        assert(turned(y.rotated().reversed(), 1) == y.reversed());
        lemma_mirror_of_turned(x, (k - 1) as nat);
    }
}

/// The least of the first `n + 1` images is one of them and no greater than
/// any of them.
pub proof fn lemma_least_image_upto<T: PackedRing>(x: T, n: nat)
    ensures
        exists|k: nat| k <= n && least_image_upto(x, n) == #[trigger] image(x, k),
        forall|k: nat| k <= n ==> least_image_upto(x, n).rank() <= (#[trigger] image(x, k)).rank(),
    decreases n,
{
    if n == 0 {
        assert(least_image_upto(x, 0) == image(x, 0));
    } else {
        lemma_least_image_upto(x, (n - 1) as nat);
        let rest = least_image_upto(x, (n - 1) as nat);
        let k0 = choose|k: nat| k <= n - 1 && rest == #[trigger] image(x, k);
        if image(x, n).rank() < rest.rank() {
            assert(least_image_upto(x, n) == image(x, n));
        } else {
            assert(least_image_upto(x, n) == image(x, k0));
        }
    }
}

/// The canonical form is the least of the sixteen symmetric images, and it is
/// the only value that is.
pub proof fn lemma_canonical_is_least<T: PackedRing>(x: T, c: T)
    ensures
        is_least_image(canonical(x), x),
        is_least_image(c, x) ==> c == canonical(x),
{
    lemma_least_image_upto(x, 15);
    let m = canonical(x);
    let k0 = choose|k: nat| k <= 15 && m == #[trigger] image(x, k);
    assert(k0 < 16 && m == image(x, k0));
    if is_least_image(c, x) {
        let k1 = choose|k: nat| k < 16 && c == #[trigger] image(x, k);
        assert(m.rank() <= image(x, k1).rank());
        assert(c.rank() <= image(x, k0).rank());
        c.lemma_ordered_by_rank(m);
    }
}

/// Any number of turns equals that number of turns modulo eight.
pub proof fn lemma_turned_mod<T: PackedRing>(x: T, n: nat)
    ensures
        turned(x, n) == turned(x, n % 8),
    decreases n,
{
    if n >= 8 {
        lemma_turned_period(x, (n - 8) as nat);
        lemma_turned_mod(x, (n - 8) as nat);
    }
}

/// The mirror image of a value turned `j` times is the mirror image of the
/// value turned the other way: `8 - j` times.
pub proof fn lemma_reversed_turned<T: PackedRing>(x: T, j: nat)
    requires
        j <= 8,
    ensures
        turned(x, j).reversed() == turned(x.reversed(), (8 - j) as nat),
{
    let m = turned(x, j).reversed();
    lemma_mirror_of_turned(x, j);
    lemma_turned_add(m, j, (8 - j) as nat);
    lemma_turned_period(m, 0);
}

/// The number of the image of `x` that the `k`-th image of its `j`-th image is.
pub open spec fn composed(j: nat, k: nat) -> nat {
    if j < 8 && k < 8 {
        (j + k) % 8
    } else if j < 8 {
        (8 + (8 - j + (k - 8)) % 8) as nat
    } else if k < 8 {
        (8 + (j - 8 + k) % 8) as nat
    } else {
        ((16 - j + (k - 8)) % 8) as nat
    }
}

/// An image of an image of `x` is an image of `x`.
pub proof fn lemma_image_of_image<T: PackedRing>(x: T, j: nat, k: nat)
    requires
        j < 16,
        k < 16,
    ensures
        composed(j, k) < 16,
        image(image(x, j), k) == image(x, composed(j, k)),
{
    let m = x.reversed();
    if j < 8 && k < 8 {
        lemma_turned_add(x, j, k);
        lemma_turned_mod(x, j + k);
    } else if j < 8 {
        lemma_reversed_turned(x, j);
        lemma_turned_add(m, (8 - j) as nat, (k - 8) as nat);
        lemma_turned_mod(m, (8 - j + (k - 8)) as nat);
    } else if k < 8 {
        lemma_turned_add(m, (j - 8) as nat, k);
        lemma_turned_mod(m, (j - 8 + k) as nat);
    } else {
        lemma_reversed_turned(m, (j - 8) as nat);
        x.lemma_symmetries();
        lemma_turned_add(x, (16 - j) as nat, (k - 8) as nat);
        lemma_turned_mod(x, (16 - j + (k - 8)) as nat);
    }
}

/// The number of the image of `image(x, j)` that `x` is.
pub open spec fn inverse(j: nat) -> nat {
    if j < 8 {
        ((8 - j) % 8) as nat
    } else {
        j
    }
}

/// Every value is an image of each of its images.
pub proof fn lemma_image_inverse<T: PackedRing>(x: T, j: nat)
    requires
        j < 16,
    ensures
        inverse(j) < 16,
        image(image(x, j), inverse(j)) == x,
{
    lemma_image_of_image(x, j, inverse(j));
    assert(composed(j, inverse(j)) == 0);
}

/// Two values of which one is an image of the other have the same images.
pub proof fn lemma_orbit_shared<T: PackedRing>(x: T, y: T, z: T)
    requires
        in_orbit(y, x),
    ensures
        in_orbit(x, y),
        in_orbit(z, y) <==> in_orbit(z, x),
{
    let j = choose|j: nat| j < 16 && y == #[trigger] image(x, j);
    lemma_image_inverse(x, j);
    assert(x == image(y, inverse(j)));
    if in_orbit(z, y) {
        let k = choose|k: nat| k < 16 && z == #[trigger] image(y, k);
        lemma_image_of_image(x, j, k);
        assert(z == image(x, composed(j, k)));
    }
    if in_orbit(z, x) {
        let k = choose|k: nat| k < 16 && z == #[trigger] image(x, k);
        lemma_image_of_image(y, inverse(j), k);
        assert(z == image(y, composed(inverse(j), k)));
    }
}

/// Every symmetric image of a value has the canonical form of the value.
pub proof fn lemma_canonical_of_image<T: PackedRing>(x: T, y: T)
    requires
        in_orbit(y, x),
    ensures
        canonical(y) == canonical(x),
{
    let c = canonical(x);
    lemma_canonical_is_least(x, c);
    lemma_orbit_shared(x, y, c);
    assert forall|k: nat| k < 16 implies c.rank() <= (#[trigger] image(y, k)).rank() by {
        lemma_orbit_shared(x, y, image(y, k));
        let i = choose|i: nat| i < 16 && image(y, k) == #[trigger] image(x, i);
        assert(c.rank() <= image(x, i).rank());
    }
    lemma_canonical_is_least(y, c);
}

/// Reducing a canonical form again changes nothing.
pub proof fn lemma_canonical_idempotent<T: PackedRing>(x: T)
    ensures
        canonical(canonical(x)) == canonical(x),
{
    lemma_canonical_is_least(x, x);
    lemma_canonical_of_image(x, canonical(x));
}

/// A packed ring that can be reduced to its canonical form.
pub trait Canonicalizable: PackedRing {
    /// The least of the sixteen symmetric images of `self`.
    fn canonicalize(&self) -> (r: Self)
        ensures
            r == canonical(*self),
    {
        let mut out = *self;
        let mut tmp = *self;
        assert(out == image(*self, 0));
        for i in 0usize..7
            invariant
                tmp == turned(*self, i as nat),
                exists|k: nat| k <= i && out == #[trigger] image(*self, k),
                forall|k: nat| k <= i ==> out.rank() <= (#[trigger] image(*self, k)).rank(),
        {
            tmp = tmp.rotate();
            proof {
                tmp.lemma_ordered_by_rank(out);
                assert(tmp == image(*self, (i + 1) as nat));
            }
            if tmp < out {
                out = tmp;
            }
        }
        let ghost mirror = self.reversed();
        proof {
            // the mirror image of the seventh turn is the first turn of the mirror image
            lemma_mirror_of_turned(*self, 7);
            lemma_turned_add(tmp.reversed(), 7, 1);
            lemma_turned_period(tmp.reversed(), 0);
            assert(tmp.reversed() == turned(mirror, 1));
            assert(turned(mirror, 1) == image(*self, 9));
            tmp.reversed().lemma_ordered_by_rank(out);
        }
        tmp = tmp.reverse();
        if tmp < out {
            out = tmp;
        }
        for i in 0usize..7
            invariant
                mirror == self.reversed(),
                tmp == turned(mirror, (i + 1) as nat),
                in_orbit(out, *self),
                forall|k: nat| k < 8 ==> out.rank() <= (#[trigger] image(*self, k)).rank(),
                forall|k: nat|
                    1 <= k <= i + 1 ==> out.rank() <= (#[trigger] turned(mirror, k)).rank(),
        {
            tmp = tmp.rotate();
            proof {
                tmp.lemma_ordered_by_rank(out);
                assert(tmp == turned(mirror, (i + 2) as nat));
                if i + 2 < 8 {
                    assert(tmp == image(*self, (i + 10) as nat));
                } else {
                    lemma_turned_period(mirror, 0);
                    assert(tmp == image(*self, 8));
                }
            }
            if tmp < out {
                out = tmp;
            }
        }
        proof {
            lemma_turned_period(mirror, 0);
            assert forall|k: nat| k < 16 implies out.rank() <= (#[trigger] image(
                *self,
                k,
            )).rank() by {
                if k == 8 {
                    assert(image(*self, 8) == turned(mirror, 8));
                } else if k > 8 {
                    assert(image(*self, k) == turned(mirror, (k - 8) as nat));
                }
            }
            lemma_canonical_is_least(*self, out);
        }
        out
    }
}

impl PackedRing for u32 {
    open spec fn rank(self) -> nat {
        self as nat
    }

    open spec fn rotated(self) -> u32 {
        (self << 4) | (self >> 28)
    }

    open spec fn reversed(self) -> u32 {
        let a = ((self & 0xf0f0f0f0) >> 4) | ((self & 0x0f0f0f0f) << 4);
        let b = ((a & 0xff00ff00) >> 8) | ((a & 0x00ff00ff) << 8);
        ((b & 0xffff0000) >> 16) | ((b & 0x0000ffff) << 16)
    }

    proof fn lemma_ordered_by_rank(self, other: Self) {
    }

    proof fn lemma_symmetries(self) {
        assert(self.rotated().rotated().rotated().rotated().rotated().rotated().rotated().rotated()
            == self && self.reversed().reversed() == self && self.rotated().reversed().rotated()
            == self.reversed()) by (bit_vector);
    }

    fn reverse(&self) -> (r: Self) {
        let mut x: u32 = *self;
        x = ((x & 0xf0f0f0f0) >> 4) | ((x & 0x0f0f0f0f) << 4);
        x = ((x & 0xff00ff00) >> 8) | ((x & 0x00ff00ff) << 8);
        x = ((x & 0xffff0000) >> 16) | ((x & 0x0000ffff) << 16);
        x
    }

    fn rotate(&self) -> (r: Self) {
        (*self << 4) | (*self >> 28)
    }
}

impl Canonicalizable for u32 {

}

impl PackedRing for u16 {
    open spec fn rank(self) -> nat {
        self as nat
    }

    open spec fn rotated(self) -> u16 {
        (self << 2) | (self >> 14)
    }

    open spec fn reversed(self) -> u16 {
        let a = ((self & 0xcccc) >> 2) | ((self & 0x3333) << 2);
        let b = ((a & 0xf0f0) >> 4) | ((a & 0x0f0f) << 4);
        ((b & 0xff00) >> 8) | ((b & 0x00ff) << 8)
    }

    proof fn lemma_ordered_by_rank(self, other: Self) {
    }

    proof fn lemma_symmetries(self) {
        assert(self.rotated().rotated().rotated().rotated().rotated().rotated().rotated().rotated()
            == self && self.reversed().reversed() == self && self.rotated().reversed().rotated()
            == self.reversed()) by (bit_vector);
    }

    fn reverse(&self) -> (r: Self) {
        let mut x: u16 = *self;
        x = ((x & 0xcccc) >> 2) | ((x & 0x3333) << 2);
        x = ((x & 0xf0f0) >> 4) | ((x & 0x0f0f) << 4);
        x = ((x & 0xff00) >> 8) | ((x & 0x00ff) << 8);
        x
    }

    fn rotate(&self) -> (r: Self) {
        (*self << 2) | (*self >> 14)
    }
}

impl Canonicalizable for u16 {

}

} // verus!
