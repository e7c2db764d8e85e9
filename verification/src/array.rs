//! The sparse encoding: the members of one chunk as an ascending list.

use crate::bitmap::BitmapContainer;
use vstd::prelude::*;

verus! {

/// Each element is smaller than every element after it.
pub open spec fn ascending(s: Seq<u16>) -> bool {
    forall|i: int, j: int| 0 <= i < j < s.len() ==> s[i] < s[j]
}

/// Whether `v` stands among the first `n` elements of `s`.
pub open spec fn among_first(s: Seq<u16>, n: int, v: u16) -> bool {
    exists|k: int| 0 <= k < n && k < s.len() && s[k] == v
}

/// Which values a two-way merge keeps: those found only on the left, those
/// found on both sides, those found only on the right.
#[derive(Clone, Copy)]
pub struct Selection {
    pub left_only: bool,
    pub both: bool,
    pub right_only: bool,
}

impl Selection {
    /// Whether a value is kept, given on which sides it was found.
    pub open spec fn keeps(&self, left: bool, right: bool) -> bool {
        ||| left && !right && self.left_only
        ||| left && right && self.both
        ||| !left && right && self.right_only
    }
}

pub proof fn lemma_among_first_step(s: Seq<u16>, n: int, v: u16)
    requires
        0 <= n < s.len(),
    ensures
        among_first(s, n + 1, v) <==> among_first(s, n, v) || s[n] == v,
{
    if among_first(s, n + 1, v) {
        let k = choose|k: int| 0 <= k < n + 1 && k < s.len() && s[k] == v;
        if k < n {
            assert(among_first(s, n, v));
        }
    }
    if among_first(s, n, v) {
        let k = choose|k: int| 0 <= k < n && k < s.len() && s[k] == v;
        assert(0 <= k < n + 1 && k < s.len() && s[k] == v);
    }
    if s[n] == v {
        assert(0 <= n < n + 1 && n < s.len() && s[n] == v);
    }
}

pub proof fn lemma_among_first_push(s: Seq<u16>, x: u16, v: u16)
    ensures
        among_first(s.push(x), s.len() as int + 1, v) <==> among_first(s, s.len() as int, v) || x == v,
{
    let t = s.push(x);
    if among_first(t, s.len() as int + 1, v) {
        let k = choose|k: int| 0 <= k < s.len() + 1 && k < t.len() && t[k] == v;
        if k < s.len() {
            assert(s[k] == v);
            assert(among_first(s, s.len() as int, v));
        }
    }
    if among_first(s, s.len() as int, v) {
        let k = choose|k: int| 0 <= k < s.len() && k < s.len() && s[k] == v;
        assert(0 <= k < s.len() + 1 && k < t.len() && t[k] == v);
    }
    if x == v {
        let k = s.len() as int;
        assert(0 <= k < s.len() + 1 && k < t.len() && t[k] == v);
    }
}

pub proof fn lemma_among_first_all(s: Seq<u16>, v: u16)
    ensures
        among_first(s, s.len() as int, v) <==> s.to_set().contains(v),
        among_first(s, s.len() as int, v) <==> s.contains(v),
{
    if among_first(s, s.len() as int, v) {
        let k = choose|k: int| 0 <= k < s.len() && k < s.len() && s[k] == v;
        assert(s[k] == v);
        assert(s.contains(v));
    }
    if s.contains(v) {
        let k = choose|k: int| 0 <= k < s.len() && s[k] == v;
        assert(0 <= k < s.len() && k < s.len() && s[k] == v);
    }
}

/// In an ascending list nothing occurs twice, so the list is as long as its
/// set of elements is large.
pub proof fn lemma_ascending_len(s: Seq<u16>)
    requires
        ascending(s),
    ensures
        s.no_duplicates(),
        s.to_set().finite(),
        s.to_set().len() == s.len(),
{
    assert(s.no_duplicates()) by {
        assert forall|i: int, j: int| 0 <= i < s.len() && 0 <= j < s.len() && i != j implies s[i]
            != s[j] by {
            if i < j {
                assert(s[i] < s[j]);
            } else {
                assert(s[j] < s[i]);
            }
        }
    }
    s.unique_seq_to_set();
}

/// An element of an ascending list is at least as large as its index, so
/// the list has at most 65536 elements.
pub proof fn lemma_ascending_bound(s: Seq<u16>, i: int)
    requires
        ascending(s),
        0 <= i < s.len(),
    ensures
        s[i] >= i,
        s.len() <= 65536,
    decreases s.len() - i,
{
    lemma_ascending_floor(s, i);
    lemma_ascending_floor(s, s.len() - 1);
}

proof fn lemma_ascending_floor(s: Seq<u16>, i: int)
    requires
        ascending(s),
        0 <= i < s.len(),
    ensures
        s[i] >= i,
    decreases i,
{
    if i > 0 {
        lemma_ascending_floor(s, i - 1);
        assert(s[i - 1] < s[i]);
    }
}

/// An ascending list is determined by its set of elements.
pub proof fn lemma_ascending_unique(a: Seq<u16>, b: Seq<u16>)
    requires
        ascending(a),
        ascending(b),
        a.to_set() == b.to_set(),
    ensures
        a == b,
    decreases a.len(),
{
    lemma_ascending_len(a);
    lemma_ascending_len(b);
    assert(a.len() == b.len());
    if a.len() > 0 {
        let n = a.len() - 1;
        assert(a.to_set().contains(b[n])) by {
            assert(b.contains(b[n]));
        }
        assert(b.to_set().contains(a[n])) by {
            assert(a.contains(a[n]));
        }
        let ia = choose|k: int| 0 <= k < a.len() && a[k] == b[n];
        let ib = choose|k: int| 0 <= k < b.len() && b[k] == a[n];
        assert(a[ia] == b[n] && b[ib] == a[n]);
        assert(a[n] == b[n]) by {
            if ia < n {
                assert(a[ia] < a[n]);
            }
            if ib < n {
                assert(b[ib] < b[n]);
            }
        }
        let a0 = a.drop_last();
        let b0 = b.drop_last();
        assert(a0.to_set() =~= b0.to_set()) by {
            assert forall|v: u16| a0.to_set().contains(v) == b0.to_set().contains(v) by {
                if a0.contains(v) {
                    let k = choose|k: int| 0 <= k < a0.len() && a0[k] == v;
                    assert(a[k] == v && a[k] < a[n]);
                    assert(a.contains(v));
                    assert(b.to_set().contains(v));
                    let m = choose|m: int| 0 <= m < b.len() && b[m] == v;
                    assert(b0[m] == v);
                    assert(b0.contains(v));
                }
                if b0.contains(v) {
                    let k = choose|k: int| 0 <= k < b0.len() && b0[k] == v;
                    assert(b[k] == v && b[k] < b[n]);
                    assert(b.contains(v));
                    assert(a.to_set().contains(v));
                    let m = choose|m: int| 0 <= m < a.len() && a[m] == v;
                    assert(a0[m] == v);
                    assert(a0.contains(v));
                }
            }
        }
        lemma_ascending_unique(a0, b0);
        assert(a =~= a0.push(a[n]));
        assert(b =~= b0.push(b[n]));
    } else {
        assert(a =~= b);
    }
}

/// The members of one chunk, each written out, in ascending order.
pub struct ArrayContainer {
    inner: Vec<u16>,
}

impl View for ArrayContainer {
    type V = Set<u16>;

    /// The set of members.
    open spec fn view(&self) -> Set<u16> {
        self.elements().to_set()
    }
}

impl Clone for ArrayContainer {
    fn clone(&self) -> (copy: Self)
        ensures
            copy.elements() == self.elements(),
    {
        ArrayContainer { inner: self.inner.clone() }
    }
}

impl ArrayContainer {
    /// The members in the order in which they are stored.
    pub closed spec fn elements(&self) -> Seq<u16> {
        self.inner@
    }

    /// The stored list is ascending, and so holds no member twice.
    pub open spec fn wf(&self) -> bool {
        ascending(self.elements())
    }

    /// A list without members.
    pub fn new() -> (a: Self)
        ensures
            a.wf(),
            a.elements() == Seq::<u16>::empty(),
            a@ == Set::<u16>::empty(),
    {
        let a = ArrayContainer { inner: Vec::new() };
        assert(a@ =~= Set::<u16>::empty());
        a
    }

    /// The number of members.
    pub fn len(&self) -> (n: usize)
        requires
            self.wf(),
        ensures
            n == self.elements().len(),
            n == self@.len(),
            n <= 65536,
    {
        proof {
            lemma_ascending_len(self.elements());
            if self.elements().len() > 0 {
                lemma_ascending_bound(self.elements(), 0);
            }
        }
        self.inner.len()
    }

    /// The member at place `i` of the ascending order.
    pub fn get(&self, i: usize) -> (v: u16)
        requires
            i < self.elements().len(),
        ensures
            v == self.elements()[i as int],
    {
        self.inner[i]
    }

    /// The members in ascending order.
    pub fn to_vec(&self) -> (v: Vec<u16>)
        ensures
            v@ == self.elements(),
    {
        self.inner.clone()
    }

    /// The first place whose member is not below `value`, or the length where
    /// every member is below it.
    fn search(&self, value: u16) -> (at: usize)
        requires
            self.wf(),
        ensures
            at <= self.elements().len(),
            forall|k: int| 0 <= k < at ==> self.elements()[k] < value,
            forall|k: int| at <= k < self.elements().len() ==> self.elements()[k] >= value,
    {
        let mut lo: usize = 0;
        let mut hi: usize = self.inner.len();
        while lo < hi
            invariant
                self.wf(),
                lo <= hi <= self.inner@.len(),
                forall|k: int| 0 <= k < lo ==> self.inner@[k] < value,
                forall|k: int| hi <= k < self.inner@.len() ==> self.inner@[k] >= value,
            decreases hi - lo,
        {
            let mid: usize = lo + (hi - lo) / 2;
            if self.inner[mid] < value {
                assert forall|k: int| 0 <= k < mid + 1 implies self.inner@[k] < value by {
                    if k < mid {
                        assert(self.inner@[k] < self.inner@[mid as int]);
                    }
                }
                lo = mid + 1;
            } else {
                assert forall|k: int| mid <= k < self.inner@.len() implies self.inner@[k]
                    >= value by {
                    if mid < k {
                        assert(self.inner@[mid as int] < self.inner@[k]);
                    }
                }
                hi = mid;
            }
        }
        lo
    }

    /// Whether `value` is a member.
    pub fn contains(&self, value: u16) -> (found: bool)
        requires
            self.wf(),
        ensures
            found == self@.contains(value),
    {
        let at: usize = self.search(value);
        let found: bool = at < self.inner.len() && self.inner[at] == value;
        proof {
            if found {
                assert(self.inner@.contains(value));
            } else if self.inner@.contains(value) {
                let k = choose|k: int| 0 <= k < self.inner@.len() && self.inner@[k] == value;
                assert(false);
            }
        }
        found
    }

    /// Makes `value` a member, at its place in the ascending order. Says
    /// whether it was new.
    pub fn insert(&mut self, value: u16) -> (added: bool)
        requires
            old(self).wf(),
        ensures
            final(self).wf(),
            final(self)@ == old(self)@.insert(value),
            added == !old(self)@.contains(value),
            !added ==> final(self).elements() == old(self).elements(),
    {
        let at: usize = self.search(value);
        if at < self.inner.len() && self.inner[at] == value {
            proof {
                assert(self.inner@.contains(value));
                assert(self@ =~= self@.insert(value));
            }
            return false;
        }
        let ghost before = self.inner@;
        self.inner.insert(at, value);
        proof {
            let after = self.inner@;
            assert(after == before.insert(at as int, value));
            assert(ascending(after)) by {
                assert forall|i: int, j: int| 0 <= i < j < after.len() implies after[i]
                    < after[j] by {
                    if j < at {
                        assert(after[i] == before[i] && after[j] == before[j]);
                    } else if j == at {
                        assert(after[i] == before[i]);
                    } else if i < at {
                        assert(after[i] == before[i] && after[j] == before[j - 1]);
                    } else if i == at {
                        assert(after[j] == before[j - 1]);
                    } else {
                        assert(after[i] == before[i - 1] && after[j] == before[j - 1]);
                    }
                }
            }
            if before.contains(value) {
                let k = choose|k: int| 0 <= k < before.len() && before[k] == value;
                assert(false);
            }
            assert(after.to_set() =~= before.to_set().insert(value)) by {
                assert forall|v: u16| after.to_set().contains(v) == (before.to_set().contains(v)
                    || v == value) by {
                    if after.contains(v) {
                        let k = choose|k: int| 0 <= k < after.len() && after[k] == v;
                        if k < at {
                            assert(before[k] == v);
                            assert(before.contains(v));
                        } else if k > at {
                            assert(before[k - 1] == v);
                            assert(before.contains(v));
                        }
                    }
                    if before.contains(v) {
                        let k = choose|k: int| 0 <= k < before.len() && before[k] == v;
                        if k < at {
                            assert(after[k] == v);
                        } else {
                            assert(after[k + 1] == v);
                        }
                        assert(after.contains(v));
                    }
                    if v == value {
                        assert(after[at as int] == v);
                        assert(after.contains(v));
                    }
                }
            }
        }
        true
    }

    /// Takes `value` out of the members. Says whether it was one.
    pub fn remove(&mut self, value: u16) -> (removed: bool)
        requires
            old(self).wf(),
        ensures
            final(self).wf(),
            final(self)@ == old(self)@.remove(value),
            removed == old(self)@.contains(value),
            !removed ==> final(self).elements() == old(self).elements(),
    {
        let at: usize = self.search(value);
        if !(at < self.inner.len() && self.inner[at] == value) {
            proof {
                if self.inner@.contains(value) {
                    let k = choose|k: int| 0 <= k < self.inner@.len() && self.inner@[k] == value;
                    assert(false);
                }
                assert(self@ =~= self@.remove(value));
            }
            return false;
        }
        let ghost before = self.inner@;
        self.inner.remove(at);
        proof {
            let after = self.inner@;
            assert(after == before.remove(at as int));
            assert(before.contains(value));
            assert(ascending(after)) by {
                assert forall|i: int, j: int| 0 <= i < j < after.len() implies after[i]
                    < after[j] by {
                    let bi = if i < at { i } else { i + 1 };
                    let bj = if j < at { j } else { j + 1 };
                    assert(after[i] == before[bi] && after[j] == before[bj]);
                }
            }
            assert(after.to_set() =~= before.to_set().remove(value)) by {
                assert forall|v: u16| after.to_set().contains(v) == (before.to_set().contains(v)
                    && v != value) by {
                    if after.contains(v) {
                        let k = choose|k: int| 0 <= k < after.len() && after[k] == v;
                        let bk = if k < at { k } else { k + 1 };
                        assert(before[bk] == v);
                        assert(before.contains(v));
                        if bk < at {
                            assert(before[bk] < before[at as int]);
                        } else {
                            assert(before[at as int] < before[bk]);
                        }
                    }
                    if before.contains(v) && v != value {
                        let k = choose|k: int| 0 <= k < before.len() && before[k] == v;
                        if k < at {
                            assert(after[k] == v);
                        } else {
                            assert(after[k - 1] == v);
                        }
                        assert(after.contains(v));
                    }
                }
            }
        }
        true
    }
    /// Walks both ascending lists at once and keeps, in ascending order, the
    /// values that `keep` selects.
    pub fn merge(&self, other: &ArrayContainer, keep: Selection) -> (out: ArrayContainer)
        requires
            self.wf(),
            other.wf(),
        ensures
            out.wf(),
            forall|v: u16|
                out@.contains(v) <==> keep.keeps(self@.contains(v), other@.contains(v)),
    {
        let mut out: Vec<u16> = Vec::new();
        let n: usize = self.inner.len();
        let m: usize = other.inner.len();
        let mut i: usize = 0;
        let mut j: usize = 0;
        let ghost a = self.inner@;
        let ghost b = other.inner@;
        while i < n || j < m
            invariant
                a == self.inner@,
                b == other.inner@,
                ascending(a),
                ascending(b),
                n == a.len(),
                m == b.len(),
                i <= n,
                j <= m,
                ascending(out@),
                forall|k: int| 0 <= k < out@.len() && i < n ==> out@[k] < a[i as int],
                forall|k: int| 0 <= k < out@.len() && j < m ==> out@[k] < b[j as int],
                i < n && j > 0 ==> b[j - 1] < a[i as int],
                j < m && i > 0 ==> a[i - 1] < b[j as int],
                forall|v: u16|
                    among_first(out@, out@.len() as int, v) <==> keep.keeps(
                        among_first(a, i as int, v),
                        among_first(b, j as int, v),
                    ),
            decreases (n - i) + (m - j),
        {
            let left: bool = j >= m || (i < n && self.inner[i] <= other.inner[j]);
            let right: bool = i >= n || (j < m && other.inner[j] <= self.inner[i]);
            let x: u16 = if left {
                self.inner[i]
            } else {
                other.inner[j]
            };
            let wanted: bool = if left && right {
                keep.both
            } else if left {
                keep.left_only
            } else {
                keep.right_only
            };
            let ghost i0 = i as int;
            let ghost j0 = j as int;
            let ghost out0 = out@;
            proof {
                if among_first(a, i0, x) {
                    let k = choose|k: int| 0 <= k < i0 && k < a.len() && a[k] == x;
                    if k < i0 - 1 {
                        assert(a[k] < a[i0 - 1]);
                    }
                    if i0 < n {
                        assert(a[k] < a[i0]);
                    }
                    assert(false);
                }
                if among_first(b, j0, x) {
                    let k = choose|k: int| 0 <= k < j0 && k < b.len() && b[k] == x;
                    if k < j0 - 1 {
                        assert(b[k] < b[j0 - 1]);
                    }
                    if j0 < m {
                        assert(b[k] < b[j0]);
                    }
                    assert(false);
                }
            }
            if wanted {
                out.push(x);
            }
            if left {
                i += 1;
            }
            if right {
                j += 1;
            }
            proof {
                assert forall|v: u16|
                    among_first(out@, out@.len() as int, v) <==> keep.keeps(
                        among_first(a, i as int, v),
                        among_first(b, j as int, v),
                    ) by {
                    if left {
                        lemma_among_first_step(a, i0, v);
                    }
                    if right {
                        lemma_among_first_step(b, j0, v);
                    }
                    if wanted {
                        lemma_among_first_push(out0, x, v);
                    }
                }
                if i < n && i0 < i {
                    assert(a[i0] < a[i as int]);
                }
                if j < m && j0 < j {
                    assert(b[j0] < b[j as int]);
                }
            }
        }
        let out = ArrayContainer { inner: out };
        proof {
            assert forall|v: u16|
                out@.contains(v) <==> keep.keeps(self@.contains(v), other@.contains(v)) by {
                lemma_among_first_all(out.inner@, v);
                lemma_among_first_all(a, v);
                lemma_among_first_all(b, v);
            }
        }
        out
    }

    /// The values that are members of `self`, of `other`, or of both.
    pub fn union(&self, other: &ArrayContainer) -> (out: ArrayContainer)
        requires
            self.wf(),
            other.wf(),
        ensures
            out.wf(),
            out@ == self@.union(other@),
    {
        let out = self.merge(other, Selection { left_only: true, both: true, right_only: true });
        assert(out@ =~= self@.union(other@));
        out
    }

    /// The values that are members of both `self` and `other`.
    pub fn intersection(&self, other: &ArrayContainer) -> (out: ArrayContainer)
        requires
            self.wf(),
            other.wf(),
        ensures
            out.wf(),
            out@ == self@.intersect(other@),
    {
        let out = self.merge(other, Selection { left_only: false, both: true, right_only: false });
        assert(out@ =~= self@.intersect(other@));
        out
    }

    /// The members of `self` that are not members of `other`.
    pub fn difference(&self, other: &ArrayContainer) -> (out: ArrayContainer)
        requires
            self.wf(),
            other.wf(),
        ensures
            out.wf(),
            out@ == self@.difference(other@),
    {
        let out = self.merge(other, Selection { left_only: true, both: false, right_only: false });
        assert(out@ =~= self@.difference(other@));
        out
    }

    /// The values that are members of exactly one of `self` and `other`.
    pub fn symmetric_difference(&self, other: &ArrayContainer) -> (out: ArrayContainer)
        requires
            self.wf(),
            other.wf(),
        ensures
            out.wf(),
            out@ == self@.difference(other@).union(other@.difference(self@)),
    {
        let out = self.merge(other, Selection { left_only: true, both: false, right_only: true });
        assert(out@ =~= self@.difference(other@).union(other@.difference(self@)));
        out
    }
    /// The ascending list that has the members of `bitmap`.
    pub fn from(bitmap: &BitmapContainer) -> (out: ArrayContainer)
        requires
            bitmap.wf(),
        ensures
            out.wf(),
            out@ == bitmap@,
    {
        let mut out: Vec<u16> = Vec::new();
        let (lo, hi): (u16, u16) = match (bitmap.first(), bitmap.last()) {
            (Some(lo), Some(hi)) => (lo, hi),
            _ => {
                let out = ArrayContainer { inner: out };
                assert(out@ =~= bitmap@);
                return out;
            },
        };
        let end: u32 = hi as u32 + 1;
        let mut v: u32 = lo as u32;
        while v < end
            invariant
                bitmap.wf(),
                lo <= v <= end,
                end == hi + 1,
                forall|u: u16| bitmap@.contains(u) ==> lo <= u <= hi,
                ascending(out@),
                forall|k: int| 0 <= k < out@.len() ==> out@[k] < v,
                forall|u: u16|
                    among_first(out@, out@.len() as int, u) <==> u < v && bitmap@.contains(u),
            decreases end - v,
        {
            let x: u16 = v as u16;
            let ghost before = out@;
            let member: bool = bitmap.is_set(x);
            if member {
                out.push(x);
            }
            v += 1;
            proof {
                assert forall|u: u16|
                    among_first(out@, out@.len() as int, u) <==> u < v && bitmap@.contains(
                        u,
                    ) by {
                    if member {
                        lemma_among_first_push(before, x, u);
                    }
                }
            }
        }
        let out = ArrayContainer { inner: out };
        proof {
            assert forall|u: u16| out@.contains(u) == bitmap@.contains(u) by {
                lemma_among_first_all(out.inner@, u);
            }
            assert(out@ =~= bitmap@);
        }
        out
    }

    /// The members of `self` whose membership in `bitmap` is `wanted`.
    fn filter(&self, bitmap: &BitmapContainer, wanted: bool) -> (out: ArrayContainer)
        requires
            self.wf(),
            bitmap.wf(),
        ensures
            out.wf(),
            forall|v: u16|
                out@.contains(v) <==> self@.contains(v) && bitmap@.contains(v) == wanted,
    {
        let mut out: Vec<u16> = Vec::new();
        let n: usize = self.inner.len();
        let mut i: usize = 0;
        let ghost a = self.inner@;
        while i < n
            invariant
                a == self.inner@,
                ascending(a),
                bitmap.wf(),
                n == a.len(),
                i <= n,
                ascending(out@),
                forall|k: int| 0 <= k < out@.len() && i < n ==> out@[k] < a[i as int],
                forall|v: u16|
                    among_first(out@, out@.len() as int, v) <==> among_first(a, i as int, v)
                        && bitmap@.contains(v) == wanted,
            decreases n - i,
        {
            let x: u16 = self.inner[i];
            let ghost before = out@;
            let kept: bool = bitmap.is_set(x) == wanted;
            if kept {
                out.push(x);
            }
            i += 1;
            proof {
                assert forall|v: u16|
                    among_first(out@, out@.len() as int, v) <==> among_first(a, i as int, v)
                        && bitmap@.contains(v) == wanted by {
                    lemma_among_first_step(a, i - 1, v);
                    if kept {
                        lemma_among_first_push(before, x, v);
                    }
                }
                if i < n {
                    assert(a[i - 1] < a[i as int]);
                }
            }
        }
        let out = ArrayContainer { inner: out };
        proof {
            assert forall|v: u16|
                out@.contains(v) <==> self@.contains(v) && bitmap@.contains(v) == wanted by {
                lemma_among_first_all(out.inner@, v);
                lemma_among_first_all(a, v);
            }
        }
        out
    }

    /// The members of `self` that are members of `bitmap` too.
    pub fn intersection_bitmap(&self, bitmap: &BitmapContainer) -> (out: ArrayContainer)
        requires
            self.wf(),
            bitmap.wf(),
        ensures
            out.wf(),
            out@ == self@.intersect(bitmap@),
    {
        let out = self.filter(bitmap, true);
        assert(out@ =~= self@.intersect(bitmap@));
        out
    }

    /// The members of `self` that are not members of `bitmap`.
    pub fn difference_bitmap(&self, bitmap: &BitmapContainer) -> (out: ArrayContainer)
        requires
            self.wf(),
            bitmap.wf(),
        ensures
            out.wf(),
            out@ == self@.difference(bitmap@),
    {
        let out = self.filter(bitmap, false);
        assert(out@ =~= self@.difference(bitmap@));
        out
    }
}

} // verus!
