//! Sets of position encodings, kept in hash sets that hash with fxhash.

use fxhash::FxHashSet;
use vstd::prelude::*;
use vstd::std_specs::iter::IteratorSpec;

verus! {

/// The hasher of fxhash. Its state starts at zero and each write is a
/// function of the state and the bytes written, so equal keys always hash
/// alike.
#[verifier::external_type_specification]
#[verifier::external_body]
pub struct ExFxHasher(fxhash::FxHasher);

/// The hasher builder of the standard library that makes each hasher with
/// `Default`; `fxhash::FxBuildHasher` is this builder for the hasher of fxhash.
#[verifier::external_type_specification]
#[verifier::external_body]
#[verifier::reject_recursive_types(H)]
pub struct ExBuildHasherDefault<H>(std::hash::BuildHasherDefault<H>);

/// `HashSet::insert` on a set that hashes with fxhash: afterwards the set
/// holds `id` besides what it held, and the result says whether `id` is new.
#[verifier::external_body]
pub(crate) fn insert_id(set: &mut FxHashSet<u32>, id: u32) -> (fresh: bool)
    ensures
        final(set)@ == old(set)@.insert(id),
        fresh == !old(set)@.contains(id),
{
    set.insert(id)
}

/// `HashSet::contains` on a set that hashes with fxhash: whether the set
/// holds `id`.
#[verifier::external_body]
pub(crate) fn contains_id(set: &FxHashSet<u32>, id: u32) -> (found: bool)
    ensures
        found == set@.contains(id),
{
    set.contains(&id)
}

/// `HashSet::iter` on a set that hashes with fxhash: an iterator that will
/// hand out every item of the set once, in an order that is not stated, and
/// then end. The last two clauses say that it can drive a `for` loop: it
/// counts down, and it is its own starting point.
#[verifier::external_body]
pub(crate) fn iter_ids<'a>(set: &'a FxHashSet<u32>) -> (it: std::collections::hash_set::Iter<
    'a,
    u32,
>)
    ensures
        it.remaining().unref().to_set() == set@,
        it.remaining().unref().no_duplicates(),
        it.decrease() is Some,
        it.initial_value_relation(&it),
{
    set.iter()
}

/// The items of `set`, each once, in the order in which the set is walked.
pub fn ids_in(set: &FxHashSet<u32>) -> (ids: Vec<u32>)
    ensures
        ids@.to_set() == set@,
        ids@.no_duplicates(),
{
    let mut ids: Vec<u32> = Vec::new();
    for id in it: iter_ids(set)
        invariant
            ids@ == it.seq().take(it.index() as int).unref(),
            it.seq().unref().to_set() == set@,
            it.seq().unref().no_duplicates(),
            it.seq().take(it.seq().len() as int) == it.seq(),
    {
        ids.push(*id);
    }
    ids
}

/// The items among the first `n + 1` of a sequence are those among the first
/// `n` and the one after them.
pub proof fn lemma_take_to_set(s: Seq<u32>, n: int)
    requires
        0 <= n < s.len(),
    ensures
        s.take(n + 1).to_set() == s.take(n).to_set().insert(s[n]),
{
    let a = s.take(n + 1);
    let b = s.take(n);
    assert forall|x: u32| a.to_set().contains(x) <==> b.to_set().insert(s[n]).contains(x) by {
        if a.contains(x) {
            let i = choose|i: int| 0 <= i < a.len() && a[i] == x;
            if i < n {
                assert(b[i] == x);
            }
        }
        if b.contains(x) {
            let i = choose|i: int| 0 <= i < b.len() && b[i] == x;
            assert(a[i] == x);
        }
        assert(a[n] == s[n]);
    }
    assert(a.to_set() =~= b.to_set().insert(s[n]));
}

/// The empty set.
pub fn no_ids() -> (set: FxHashSet<u32>)
    ensures
        set@ == Set::<u32>::empty(),
{
    FxHashSet::default()
}

/// Puts every item of `more` into `set`.
pub fn add_ids(set: &mut FxHashSet<u32>, more: &Vec<u32>)
    ensures
        final(set)@ == old(set)@.union(more@.to_set()),
{
    for i in 0..more.len()
        invariant
            set@ == old(set)@.union(more@.take(i as int).to_set()),
    {
        proof {
            lemma_take_to_set(more@, i as int);
        }
        insert_id(set, more[i]);
    }
    assert(more@.take(more.len() as int) =~= more@);
}

} // verus!
