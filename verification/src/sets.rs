//! Hash sets of state identifiers and of guard names.
//!
//! The sets are `bevy_platform`'s `HashSet` with its fixed hasher. A set is
//! known by its members only: [`id_members`] and [`name_members`] name what
//! a set holds, and each of the few operations the engine needs says what it
//! does to the members, as the hash set's documentation gives it. The order
//! in which a set is walked is left open; where order matters, the engine
//! walks the members in ascending order instead.
use bevy_platform::collections::HashSet;
use bevy_platform::hash::FixedHasher;
use vstd::prelude::*;

verus! {

#[verifier::external_type_specification]
#[verifier::external_body]
#[verifier::reject_recursive_types(T)]
#[verifier::reject_recursive_types(S)]
pub struct ExHashSet<T, S>(HashSet<T, S>);

#[verifier::external_type_specification]
#[verifier::external_body]
pub struct ExFixedHasher(FixedHasher);

/// A set of state or edge identifiers.
pub type IdSet = HashSet<usize, FixedHasher>;

/// A set of guard names.
pub type NameSet = HashSet<String, FixedHasher>;

/// The identifiers that a set holds.
pub uninterp spec fn id_members(s: HashSet<usize, FixedHasher>) -> Set<usize>;

/// The names that a set holds, each as its sequence of characters.
pub uninterp spec fn name_members(s: HashSet<String, FixedHasher>) -> Set<Seq<char>>;

/// `HashSet::new`: a set of names that holds nothing.
#[verifier::external_body]
pub(crate) fn name_set_new() -> (s: NameSet)
    ensures
        name_members(s) == Set::<Seq<char>>::empty(),
{
    HashSet::new()
}

/// `HashSet::insert`: afterwards the set holds `name` and whatever it held
/// before; the result tells whether `name` was new to it.
#[verifier::external_body]
pub(crate) fn name_set_insert(s: &mut NameSet, name: String) -> (fresh: bool)
    ensures
        name_members(*final(s)) == name_members(*old(s)).insert(name@),
        fresh == !name_members(*old(s)).contains(name@),
{
    s.insert(name)
}

/// `HashSet::remove`: afterwards the set holds what it held before except
/// `name`; the result tells whether `name` was in it.
#[verifier::external_body]
pub(crate) fn name_set_remove(s: &mut NameSet, name: &str) -> (present: bool)
    ensures
        name_members(*final(s)) == name_members(*old(s)).remove(name@),
        present == name_members(*old(s)).contains(name@),
{
    s.remove(name)
}

/// `HashSet::contains`: whether the set holds `name`.
#[verifier::external_body]
pub(crate) fn name_set_contains(s: &NameSet, name: &str) -> (present: bool)
    ensures
        present == name_members(*s).contains(name@),
{
    s.contains(name)
}

/// `HashSet::is_empty`: whether the set of names holds nothing.
#[verifier::external_body]
pub(crate) fn name_set_is_empty(s: &NameSet) -> (empty: bool)
    ensures
        empty == (name_members(*s) == Set::<Seq<char>>::empty()),
{
    s.is_empty()
}

/// `HashSet::new`: a set that holds nothing.
#[verifier::external_body]
pub(crate) fn id_set_new() -> (s: IdSet)
    ensures
        id_members(s) == Set::<usize>::empty(),
{
    HashSet::new()
}

/// `HashSet::insert`: afterwards the set holds `id` and whatever it held
/// before; the result tells whether `id` was new to it.
#[verifier::external_body]
pub(crate) fn id_set_insert(s: &mut IdSet, id: usize) -> (fresh: bool)
    ensures
        id_members(*final(s)) == id_members(*old(s)).insert(id),
        fresh == !id_members(*old(s)).contains(id),
{
    s.insert(id)
}

/// `HashSet::remove`: afterwards the set holds what it held before except
/// `id`; the result tells whether `id` was in it.
#[verifier::external_body]
pub(crate) fn id_set_remove(s: &mut IdSet, id: usize) -> (present: bool)
    ensures
        id_members(*final(s)) == id_members(*old(s)).remove(id),
        present == id_members(*old(s)).contains(id),
{
    s.remove(&id)
}

/// `HashSet::contains`: whether the set holds `id`.
#[verifier::external_body]
pub(crate) fn id_set_contains(s: &IdSet, id: usize) -> (present: bool)
    ensures
        present == id_members(*s).contains(id),
{
    s.contains(&id)
}

/// `HashSet::is_empty`: whether the set holds nothing.
#[verifier::external_body]
pub(crate) fn id_set_is_empty(s: &IdSet) -> (empty: bool)
    ensures
        empty == (id_members(*s) == Set::<usize>::empty()),
{
    s.is_empty()
}

/// `HashSet::iter`: every identifier of the set, each once, in an order that
/// is left open.
#[verifier::external_body]
pub(crate) fn id_set_to_vec(s: &IdSet) -> (ids: Vec<usize>)
    ensures
        ids@.no_duplicates(),
        ids@.to_set() == id_members(*s),
{
    s.iter().copied().collect()
}

/// The members of `s` from `lo` up to, not including, `hi`, in ascending
/// order.
pub open spec fn ascending(s: Set<usize>, lo: usize, hi: usize) -> Seq<usize>
    decreases hi - lo,
{
    if lo >= hi {
        Seq::empty()
    } else {
        let last = (hi - 1) as usize;
        let rest = ascending(s, lo, last);
        if s.contains(last) {
            rest.push(last)
        } else {
            rest
        }
    }
}

/// `ascending` lists exactly the members in the range.
pub proof fn lemma_ascending_contains(s: Set<usize>, lo: usize, hi: usize, x: usize)
    ensures
        ascending(s, lo, hi).contains(x) <==> (lo <= x < hi && s.contains(x)),
    decreases hi - lo,
{
    if lo < hi {
        let last = (hi - 1) as usize;
        let rest = ascending(s, lo, last);
        lemma_ascending_contains(s, lo, last, x);
        if s.contains(last) {
            assert(ascending(s, lo, hi) == rest.push(last));
            if rest.contains(x) {
                let k = choose|k: int| 0 <= k < rest.len() && rest[k] == x;
                assert(rest.push(last)[k] == x);
            }
            if x == last {
                assert(rest.push(last)[rest.len() as int] == x);
            }
            if rest.push(last).contains(x) {
                let k = choose|k: int| 0 <= k < rest.push(last).len() && rest.push(last)[k] == x;
                if k < rest.len() {
                    assert(rest[k] == x);
                }
            }
        }
    }
}

/// The members of the set from `lo` up to `hi`, ascending.
pub fn members_ascending(s: &IdSet, lo: usize, hi: usize) -> (v: Vec<usize>)
    ensures
        v@ == ascending(id_members(*s), lo, hi),
{
    let mut v: Vec<usize> = Vec::new();
    let mut i: usize = lo;
    while i < hi
        invariant
            lo <= i,
            i <= hi || i == lo,
            v@ == ascending(id_members(*s), lo, i),
        decreases hi - i,
    {
        if id_set_contains(s, i) {
            v.push(i);
        }
        i = i + 1;
    }
    proof {
        if lo >= hi {
            assert(ascending(id_members(*s), lo, hi) == Seq::<usize>::empty());
            assert(ascending(id_members(*s), lo, lo) == Seq::<usize>::empty());
        }
    }
    v
}

} // verus!
