//! Sorted vectors: ranks, binary search, and insertion without duplicates.

use vstd::prelude::*;
use crate::types::Passenger;

verus! {

/// A strict total order that executable code can decide.
pub trait Ranked: Sized + Copy {
    /// `self` comes strictly before `other`.
    spec fn before(self, other: Self) -> bool;

    /// `before` is irreflexive, transitive and total.
    proof fn lemma_total_order(a: Self, b: Self, c: Self)
        ensures
            !a.before(a),
            a.before(b) && b.before(c) ==> a.before(c),
            a.before(b) || b.before(a) || a == b,
    ;

    /// Decides `before`.
    fn precedes(&self, other: &Self) -> (r: bool)
        ensures
            r == self.before(*other),
    ;
}

impl Ranked for i32 {
    open spec fn before(self, other: i32) -> bool {
        self < other
    }

    proof fn lemma_total_order(a: i32, b: i32, c: i32) {
    }

    fn precedes(&self, other: &i32) -> (r: bool) {
        *self < *other
    }
}

/// Passengers are ordered by pickup floor, then destination, then waiting
/// before riding.
impl Ranked for Passenger {
    open spec fn before(self, other: Passenger) -> bool {
        ||| self.from_floor < other.from_floor
        ||| self.from_floor == other.from_floor && self.to_floor < other.to_floor
        ||| self.from_floor == other.from_floor && self.to_floor == other.to_floor
                && !self.riding && other.riding
    }

    proof fn lemma_total_order(a: Passenger, b: Passenger, c: Passenger) {
    }

    fn precedes(&self, other: &Passenger) -> (r: bool) {
        if self.from_floor != other.from_floor {
            self.from_floor < other.from_floor
        } else if self.to_floor != other.to_floor {
            self.to_floor < other.to_floor
        } else {
            !self.riding && other.riding
        }
    }
}

/// No entry comes before an earlier one. Equal neighbours are allowed.
pub open spec fn sorted<T: Ranked>(s: Seq<T>) -> bool {
    forall|i: int, j: int| 0 <= i < j < s.len() ==> !(#[trigger] s[j]).before(#[trigger] s[i])
}

/// Every entry comes strictly before every later one.
pub open spec fn ascending<T: Ranked>(s: Seq<T>) -> bool {
    forall|i: int, j: int| 0 <= i < j < s.len() ==> (#[trigger] s[i]).before(#[trigger] s[j])
}

/// The number of entries of `s` that come before `x`. In a sorted sequence
/// this is the position at which `x` stands or would be inserted.
pub open spec fn rank<T: Ranked>(s: Seq<T>, x: T) -> int
    decreases s.len(),
{
    if s.len() == 0 {
        0
    } else {
        rank(s.drop_last(), x) + if s.last().before(x) { 1int } else { 0int }
    }
}

/// `s` with `x` put in its place, unless `x` is there already.
pub open spec fn with_item<T: Ranked>(s: Seq<T>, x: T) -> Seq<T> {
    if s.contains(x) {
        s
    } else {
        s.insert(rank(s, x), x)
    }
}

/// `s` without the entry at the place of `x`, if `x` is there.
pub open spec fn without_item<T: Ranked>(s: Seq<T>, x: T) -> Seq<T> {
    if s.contains(x) {
        s.remove(rank(s, x))
    } else {
        s
    }
}

/// A strictly ascending sequence is sorted.
pub proof fn lemma_ascending_is_sorted<T: Ranked>(s: Seq<T>)
    requires
        ascending(s),
    ensures
        sorted(s),
{
    assert forall|i: int, j: int| 0 <= i < j < s.len() implies !(#[trigger] s[j]).before(
        #[trigger] s[i],
    ) by {
        T::lemma_total_order(s[i], s[j], s[i]);
    }
}

/// In a sorted sequence the rank of `x` splits the entries: exactly those
/// below the rank come before `x`.
pub proof fn lemma_rank_splits<T: Ranked>(s: Seq<T>, x: T)
    requires
        sorted(s),
    ensures
        0 <= rank(s, x) <= s.len(),
        forall|i: int| 0 <= i < rank(s, x) ==> (#[trigger] s[i]).before(x),
        forall|i: int| rank(s, x) <= i < s.len() ==> !(#[trigger] s[i]).before(x),
    decreases s.len(),
{
    if s.len() > 0 {
        let t = s.drop_last();
        assert forall|i: int, j: int| 0 <= i < j < t.len() implies !(#[trigger] t[j]).before(
            #[trigger] t[i],
        ) by {
            assert(t[i] == s[i] && t[j] == s[j]);
        }
        lemma_rank_splits(t, x);
        let r = rank(t, x);
        if s.last().before(x) {
            assert forall|i: int| 0 <= i < s.len() implies (#[trigger] s[i]).before(x) by {
                if i < s.len() - 1 {
                    T::lemma_total_order(s[i], s.last(), x);
                    T::lemma_total_order(s[i], s.last(), s[i]);
                    T::lemma_total_order(s.last(), s[i], x);
                }
            }
            if r < t.len() {
                assert(s[r] == t[r]);
                assert(s[r].before(x));
            }
        } else {
            assert forall|i: int| 0 <= i < r implies (#[trigger] s[i]).before(x) by {
                assert(s[i] == t[i]);
            }
            assert forall|i: int| r <= i < s.len() implies !(#[trigger] s[i]).before(x) by {
                if i < t.len() {
                    assert(s[i] == t[i]);
                }
            }
        }
    }
}

/// Only the rank splits a sorted sequence into the entries before `x` and the rest.
pub proof fn lemma_split_is_rank<T: Ranked>(s: Seq<T>, x: T, p: int)
    requires
        sorted(s),
        0 <= p <= s.len(),
        forall|i: int| 0 <= i < p ==> (#[trigger] s[i]).before(x),
        forall|i: int| p <= i < s.len() ==> !(#[trigger] s[i]).before(x),
    ensures
        p == rank(s, x),
{
    lemma_rank_splits(s, x);
    let r = rank(s, x);
    if p < r {
        assert(s[p].before(x));
    }
    if r < p {
        assert(s[r].before(x));
    }
}

/// In a sorted sequence `x` occurs exactly if it stands at its rank.
pub proof fn lemma_found_at_rank<T: Ranked>(s: Seq<T>, x: T)
    requires
        sorted(s),
    ensures
        s.contains(x) <==> (rank(s, x) < s.len() && s[rank(s, x)] == x),
{
    lemma_rank_splits(s, x);
    let r = rank(s, x);
    if s.contains(x) {
        let k = choose|k: int| 0 <= k < s.len() && s[k] == x;
        T::lemma_total_order(x, x, x);
        if k < r {
            assert(s[k].before(x));
        }
        assert(!s[r].before(x));
        if r < k {
            assert(!s[k].before(s[r]));
        }
        T::lemma_total_order(s[r], x, x);
    }
    if r < s.len() && s[r] == x {
        assert(s.contains(x));
    }
}

/// Putting an item in its place keeps a sorted sequence sorted and an
/// ascending one ascending, and adds that item and nothing else.
pub proof fn lemma_with_item<T: Ranked>(s: Seq<T>, x: T)
    requires
        sorted(s),
    ensures
        sorted(with_item(s, x)),
        ascending(s) ==> ascending(with_item(s, x)),
        forall|y: T| with_item(s, x).contains(y) <==> (s.contains(y) || y == x),
        with_item(with_item(s, x), x) == with_item(s, x),
{
    lemma_rank_splits(s, x);
    lemma_found_at_rank(s, x);
    let r = rank(s, x);
    let t = with_item(s, x);
    if !s.contains(x) {
        assert(t[r] == x);
        assert forall|i: int| r <= i < s.len() implies x.before(#[trigger] s[i]) by {
            assert(!s[i].before(x));
            assert(s.contains(s[i]));
            T::lemma_total_order(s[i], x, x);
        }
        assert forall|i: int, j: int| 0 <= i < j < t.len() implies !(#[trigger] t[j]).before(
            #[trigger] t[i],
        ) by {
            let a = if i < r { s[i] } else if i == r { x } else { s[i - 1] };
            let b = if j < r { s[j] } else if j == r { x } else { s[j - 1] };
            assert(t[i] == a && t[j] == b);
            if i < r && j > r {
                assert(s[i].before(x) && x.before(s[j - 1]));
                T::lemma_total_order(s[i], x, s[j - 1]);
                T::lemma_total_order(s[i], s[j - 1], s[i]);
                T::lemma_total_order(s[i], s[i], s[i]);
            } else if i < r && j == r {
                T::lemma_total_order(s[i], x, s[i]);
                T::lemma_total_order(s[i], s[i], s[i]);
            } else if i == r {
                T::lemma_total_order(x, s[j - 1], x);
                T::lemma_total_order(x, x, x);
            } else if j < r {
                assert(!s[j].before(s[i]));
            } else {
                assert(!s[j - 1].before(s[i - 1]));
            }
        }
        if ascending(s) {
            assert forall|i: int, j: int| 0 <= i < j < t.len() implies (#[trigger] t[i]).before(
                #[trigger] t[j],
            ) by {
                let a = if i < r { s[i] } else if i == r { x } else { s[i - 1] };
                let b = if j < r { s[j] } else if j == r { x } else { s[j - 1] };
                assert(t[i] == a && t[j] == b);
                if i < r && j > r {
                    T::lemma_total_order(s[i], x, s[j - 1]);
                } else if i < r && j < r {
                    assert(s[i].before(s[j]));
                } else if i > r {
                    assert(s[i - 1].before(s[j - 1]));
                }
            }
        }
        assert forall|y: T| t.contains(y) <==> (s.contains(y) || y == x) by {
            if t.contains(y) {
                let k = choose|k: int| 0 <= k < t.len() && t[k] == y;
                if k < r {
                    assert(s[k] == y);
                } else if k > r {
                    assert(s[k - 1] == y);
                }
            }
            if s.contains(y) {
                let k = choose|k: int| 0 <= k < s.len() && s[k] == y;
                if k < r {
                    assert(t[k] == y);
                } else {
                    assert(t[k + 1] == y);
                }
            }
        }
        assert(t.contains(x));
    }
}

/// Taking an item out keeps a sorted sequence sorted and an ascending one
/// ascending; from an ascending one it takes that item and nothing else.
pub proof fn lemma_without_item<T: Ranked>(s: Seq<T>, x: T)
    requires
        sorted(s),
    ensures
        sorted(without_item(s, x)),
        ascending(s) ==> ascending(without_item(s, x)),
        ascending(s) ==> forall|y: T| without_item(s, x).contains(y) <==> (s.contains(y) && y != x),
        forall|y: T| without_item(s, x).contains(y) ==> s.contains(y),
{
    lemma_rank_splits(s, x);
    lemma_found_at_rank(s, x);
    let r = rank(s, x);
    let t = without_item(s, x);
    if s.contains(x) {
        assert forall|i: int, j: int| 0 <= i < j < t.len() implies !(#[trigger] t[j]).before(
            #[trigger] t[i],
        ) by {
            let ii = if i < r { i } else { i + 1 };
            let jj = if j < r { j } else { j + 1 };
            assert(t[i] == s[ii] && t[j] == s[jj]);
        }
        assert forall|y: T| t.contains(y) implies s.contains(y) by {
            let k = choose|k: int| 0 <= k < t.len() && t[k] == y;
            let kk = if k < r { k } else { k + 1 };
            assert(s[kk] == y);
        }
        if ascending(s) {
            assert forall|i: int, j: int| 0 <= i < j < t.len() implies (#[trigger] t[i]).before(
                #[trigger] t[j],
            ) by {
                let ii = if i < r { i } else { i + 1 };
                let jj = if j < r { j } else { j + 1 };
                assert(t[i] == s[ii] && t[j] == s[jj]);
            }
            assert forall|y: T| t.contains(y) <==> (s.contains(y) && y != x) by {
                if t.contains(y) {
                    let k = choose|k: int| 0 <= k < t.len() && t[k] == y;
                    let kk = if k < r { k } else { k + 1 };
                    assert(s[kk] == y);
                    T::lemma_total_order(x, x, x);
                    if kk < r {
                        assert(s[kk].before(s[r]));
                    } else {
                        assert(s[r].before(s[kk]));
                    }
                }
                if s.contains(y) && y != x {
                    let k = choose|k: int| 0 <= k < s.len() && s[k] == y;
                    if k < r {
                        assert(t[k] == y);
                    } else {
                        assert(t[k - 1] == y);
                    }
                }
            }
        }
    }
}

/// Looks `x` up in a sorted vector by halving the range that can hold it.
/// `Ok` carries the place where `x` stands, `Err` the place where it would
/// have to be inserted; either way that place is the rank of `x`.
pub fn locate<T: Ranked>(v: &Vec<T>, x: &T) -> (r: Result<usize, usize>)
    requires
        sorted(v@),
    ensures
        v@.contains(*x) ==> r == Ok::<usize, usize>(rank(v@, *x) as usize),
        !v@.contains(*x) ==> r == Err::<usize, usize>(rank(v@, *x) as usize),
        0 <= rank(v@, *x) <= v.len(),
        v@.contains(*x) ==> rank(v@, *x) < v.len() && v@[rank(v@, *x)] == *x,
{
    let mut lo: usize = 0;
    let mut hi: usize = v.len();
    while lo < hi
        invariant
            sorted(v@),
            0 <= lo <= hi <= v.len(),
            forall|i: int| 0 <= i < lo ==> (#[trigger] v@[i]).before(*x),
            forall|i: int| hi <= i < v.len() ==> !(#[trigger] v@[i]).before(*x),
        decreases hi - lo,
    {
        let mid: usize = lo + (hi - lo) / 2;
        if v[mid].precedes(x) {
            proof {
                assert forall|i: int| 0 <= i < mid + 1 implies (#[trigger] v@[i]).before(*x) by {
                    if i < mid {
                        T::lemma_total_order(v@[i], v@[mid as int], *x);
                        T::lemma_total_order(v@[mid as int], v@[i], *x);
                    }
                }
            }
            lo = mid + 1;
        } else {
            proof {
                assert forall|i: int| mid <= i < v.len() implies !(#[trigger] v@[i]).before(
                    *x,
                ) by {
                    if mid < i {
                        T::lemma_total_order(v@[mid as int], v@[i], *x);
                        T::lemma_total_order(v@[i], v@[mid as int], *x);
                    }
                }
            }
            hi = mid;
        }
    }
    proof {
        lemma_split_is_rank(v@, *x, lo as int);
        lemma_found_at_rank(v@, *x);
        if lo < v.len() {
            T::lemma_total_order(v@[lo as int], *x, *x);
        }
    }
    if lo < v.len() && !x.precedes(&v[lo]) {
        Ok(lo)
    } else {
        Err(lo)
    }
}

/// Inserts `item` at its place in a sorted vector, unless it is there already.
pub fn binary_add<T: Ranked>(vec: &mut Vec<T>, item: T)
    requires
        sorted(old(vec)@),
    ensures
        final(vec)@ == with_item(old(vec)@, item),
        sorted(final(vec)@),
        ascending(old(vec)@) ==> ascending(final(vec)@),
{
    proof {
        lemma_with_item(vec@, item);
    }
    match locate(vec, &item) {
        Ok(_) => {},
        Err(pos) => {
            vec.insert(pos, item);
        },
    }
}

/// Removes `item` from a sorted vector and says whether it was there.
pub fn binary_remove<T: Ranked>(vec: &mut Vec<T>, item: T) -> (found: bool)
    requires
        sorted(old(vec)@),
    ensures
        found == old(vec)@.contains(item),
        final(vec)@ == without_item(old(vec)@, item),
        sorted(final(vec)@),
        ascending(old(vec)@) ==> ascending(final(vec)@),
{
    proof {
        lemma_without_item(vec@, item);
    }
    match locate(vec, &item) {
        Ok(pos) => {
            vec.remove(pos);
            true
        },
        Err(_) => false,
    }
}

} // verus!
