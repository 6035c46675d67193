//! The 64-bit set of small integers that search states are made of.
//!
//! `Set64` comes from `smallbitset`. Its representation is hidden from the
//! verifier: everything known about a value is what [`members`] says it
//! holds, and the contracts below state, method by method, what the crate's
//! source does to that content.

use smallbitset::Set64;
use vstd::prelude::*;

verus! {

/// `smallbitset::Set64`, carried through verified code as an opaque value.
#[verifier::external_type_specification]
#[verifier::external_body]
pub struct ExSet64(Set64);

/// The items that a set holds.
pub uninterp spec fn members(s: Set64) -> Set<u8>;

/// Every item lies below the capacity.
pub open spec fn bounded(s: Set<u8>) -> bool {
    forall|x: u8| s.contains(x) ==> x < 64
}

/// The items below `n`.
pub open spec fn below(n: nat) -> Set<u8> {
    Set::new(|x: u8| (x as nat) < n)
}

/// `Set64::empty`: the set without items.
pub assume_specification[ Set64::empty ]() -> (r: Set64)
    ensures
        members(r) == Set::<u8>::empty(),
;

/// `Set64::full`: all 64 bits set, that is every item below the capacity.
pub assume_specification[ Set64::full ]() -> (r: Set64)
    ensures
        members(r) == below(64),
;

/// `Set64::singleton`: the bit `1 << x` alone. The shift overflows from 64
/// on, so such an `x` is left out.
pub assume_specification[ Set64::singleton ](x: u8) -> (r: Set64)
    requires
        x < 64,
    ensures
        members(r) == set![x],
;

/// `Set64::union`: bitwise or.
pub assume_specification[ Set64::union ](s: Set64, other: Set64) -> (r: Set64)
    ensures
        members(r) == members(s).union(members(other)),
;

/// `Set64::inter`: bitwise and.
pub assume_specification[ Set64::inter ](s: Set64, other: Set64) -> (r: Set64)
    ensures
        members(r) == members(s).intersect(members(other)),
;

/// `Set64::diff`: the bits of the first that the second lacks.
pub assume_specification[ Set64::diff ](s: Set64, other: Set64) -> (r: Set64)
    ensures
        members(r) == members(s).difference(members(other)),
;

/// `Set64::insert`: the union with the singleton of `x`, returned as a new
/// set; the receiver is read and left as it was.
pub assume_specification[ Set64::insert ](s: &mut Set64, x: u8) -> (r: Set64)
    requires
        x < 64,
    ensures
        *final(s) == *old(s),
        members(r) == members(*old(s)).insert(x),
;

/// `Set64::remove`: the difference with the singleton of `x`.
pub assume_specification[ Set64::remove ](s: Set64, x: u8) -> (r: Set64)
    requires
        x < 64,
    ensures
        members(r) == members(s).remove(x),
;

/// `Set64::len`: the number of bits set.
pub assume_specification[ Set64::len ](s: Set64) -> (r: usize)
    ensures
        r == members(s).len(),
;

/// Strictly increasing, so that no item occurs twice.
pub open spec fn increasing(v: Seq<u8>) -> bool {
    forall|i: int, j: int| 0 <= i < j < v.len() ==> v[i] < v[j]
}

/// `Set64::iter`, collected: the iterator walks the positions `0..64`
/// upwards and yields those the set contains, so the items come out in
/// increasing order, each once, and all below 64.
#[verifier::external_body]
pub(crate) fn items(s: Set64) -> (r: Vec<u8>)
    ensures
        increasing(r@),
        forall|x: u8| r@.contains(x) <==> members(s).contains(x),
        forall|i: int| 0 <= i < r@.len() ==> (#[trigger] r@[i]) < 64,
{
    s.iter().collect()
}

/// The items below `n` are finitely many: `n` of them, as long as `n` is at
/// most 256.
pub proof fn lemma_below_finite(n: nat)
    requires
        n <= 256,
    ensures
        below(n).finite(),
        below(n).len() == n,
    decreases n,
{
    if n == 0 {
        assert(below(0) =~= Set::<u8>::empty());
    } else {
        lemma_below_finite((n - 1) as nat);
        let last = (n - 1) as u8;
        assert(below(n) =~= below((n - 1) as nat).insert(last));
    }
}

/// A set within the capacity is finite.
pub proof fn lemma_bounded_finite(s: Set<u8>)
    requires
        bounded(s),
    ensures
        s.finite(),
        s.len() <= 64,
{
    lemma_below_finite(64);
    assert(s.subset_of(below(64)));
    vstd::set_lib::lemma_len_subset(s, below(64));
}

} // verus!
