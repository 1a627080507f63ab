//! Finite sets of versions, kept as strictly ascending vectors.
//!
//! The persisted record and the engine work over ordered sets of
//! versions.  Here such a set is a vector sorted in strictly
//! increasing version order, viewed in contracts as a `Set<GoVersion>`.

use crate::version::{version_lt, GoVersion};
use vstd::prelude::*;

verus! {

/// Strictly ascending: sorted, and therefore free of duplicates.
pub open spec fn strictly_sorted(s: Seq<GoVersion>) -> bool {
    forall|i: int, j: int| 0 <= i < j < s.len() ==> version_lt(s[i], s[j])
}

/// An ordered set of versions.
#[derive(Debug)]
pub struct VersionSet {
    pub items: Vec<GoVersion>,
}

impl View for VersionSet {
    type V = Set<GoVersion>;

    open spec fn view(&self) -> Set<GoVersion> {
        self.items@.to_set()
    }
}

impl Clone for VersionSet {
    /// An element-for-element copy.
    fn clone(&self) -> (r: Self)
        ensures
            r.items@ == self.items@,
    {
        let mut out: Vec<GoVersion> = Vec::new();
        let mut i: usize = 0;
        let n = self.items.len();
        while i < n
            invariant
                0 <= i <= n,
                n == self.items@.len(),
                out@ == self.items@.subrange(0, i as int),
            decreases n - i,
        {
            out.push(self.items[i]);
            proof {
                assert(out@ =~= self.items@.subrange(0, i + 1));
            }
            i = i + 1;
        }
        proof {
            assert(out@ =~= self.items@);
        }
        VersionSet { items: out }
    }
}

impl VersionSet {
    /// Sortedness of the underlying vector.
    pub open spec fn wf(self) -> bool {
        strictly_sorted(self.items@)
    }

    /// The empty set.
    pub fn new() -> (r: Self)
        ensures
            r.wf(),
            r@ == Set::<GoVersion>::empty(),
            r.items@.len() == 0,
    {
        let r = VersionSet { items: Vec::new() };
        proof {
            assert(r@ =~= Set::<GoVersion>::empty());
        }
        r
    }

    /// How many versions the set holds.
    pub fn len(&self) -> (r: usize)
        ensures
            r == self.items@.len(),
    {
        self.items.len()
    }

    /// Whether the set is empty.
    pub fn is_empty(&self) -> (r: bool)
        ensures
            r == (self@ == Set::<GoVersion>::empty()),
    {
        let r = self.items.len() == 0;
        proof {
            if r {
                assert(self@ =~= Set::<GoVersion>::empty());
            } else {
                assert(self@.contains(self.items@[0]));
            }
        }
        r
    }

    /// Membership.
    pub fn contains(&self, v: &GoVersion) -> (r: bool)
        ensures
            r == self@.contains(*v),
    {
        let n = self.items.len();
        let mut i: usize = 0;
        while i < n
            invariant
                0 <= i <= n,
                n == self.items@.len(),
                forall|k: int| 0 <= k < i ==> self.items@[k] != *v,
            decreases n - i,
        {
            if self.items[i] == *v {
                return true;
            }
            i = i + 1;
        }
        proof {
            assert(!self.items@.contains(*v));
        }
        false
    }

    /// The set extended with `v`.  Inserting a member changes nothing,
    /// down to the underlying vector.
    pub fn insert(&self, v: GoVersion) -> (r: Self)
        requires
            self.wf(),
        ensures
            r.wf(),
            r@ == self@.insert(v),
            self@.contains(v) ==> r.items@ == self.items@,
            !self@.contains(v) ==> r.items@.len() == self.items@.len() + 1,
    {
        let n = self.items.len();
        let mut pos: usize = 0;
        while pos < n && self.items[pos].lt(&v)
            invariant
                0 <= pos <= n,
                n == self.items@.len(),
                strictly_sorted(self.items@),
                forall|k: int| 0 <= k < pos ==> version_lt(#[trigger] self.items@[k], v),
            decreases n - pos,
        {
            pos = pos + 1;
        }
        let found = pos < n && self.items[pos] == v;
        let mut out: Vec<GoVersion> = Vec::new();
        let mut j: usize = 0;
        while j < pos
            invariant
                0 <= j <= pos <= n,
                n == self.items@.len(),
                out@ == self.items@.subrange(0, j as int),
            decreases pos - j,
        {
            out.push(self.items[j]);
            proof {
                assert(out@ =~= self.items@.subrange(0, j + 1));
            }
            j = j + 1;
        }
        if !found {
            out.push(v);
        }
        let ghost mid: Seq<GoVersion> = if found {
            Seq::empty()
        } else {
            seq![v]
        };
        proof {
            assert(out@ =~= self.items@.subrange(0, pos as int) + mid);
        }
        while j < n
            invariant
                pos <= j <= n,
                n == self.items@.len(),
                out@ == self.items@.subrange(0, pos as int) + mid + self.items@.subrange(
                    pos as int,
                    j as int,
                ),
            decreases n - j,
        {
            out.push(self.items[j]);
            proof {
                assert(out@ =~= self.items@.subrange(0, pos as int) + mid
                    + self.items@.subrange(pos as int, j + 1));
            }
            j = j + 1;
        }
        let r = VersionSet { items: out };
        proof {
            let s = self.items@;
            if found {
                assert(r.items@ =~= s);
                assert(s.contains(v));
                assert(self@.insert(v) =~= self@);
            } else {
                // Everything at or past `pos` is strictly above `v`.
                assert forall|k: int| pos <= k < n implies version_lt(v, #[trigger] s[k]) by {
                    lemma_at_least(s, pos as int, k, v);
                }
                assert(strictly_sorted(r.items@));
                assert forall|x: GoVersion| r@.contains(x) implies self@.insert(v).contains(x) by {
                    let idx = choose|idx: int| 0 <= idx < r.items@.len() && r.items@[idx] == x;
                    if idx < pos {
                        assert(s[idx] == x);
                        assert(s.contains(x));
                    } else if idx == pos {
                        assert(x == v);
                    } else {
                        assert(s[idx - 1] == x);
                        assert(s.contains(x));
                    }
                }
                assert forall|x: GoVersion| self@.insert(v).contains(x) implies r@.contains(x) by {
                    if x == v {
                        assert(r.items@[pos as int] == x);
                        assert(r.items@.contains(x));
                    } else {
                        let k = choose|k: int| 0 <= k < s.len() && s[k] == x;
                        if k < pos {
                            assert(r.items@[k] == x);
                        } else {
                            assert(r.items@[k + 1] == x);
                        }
                        assert(r.items@.contains(x));
                    }
                }
                assert(r@ =~= self@.insert(v));
            }
        }
        r
    }

    /// The set without `v`.  Removing a non-member changes nothing,
    /// down to the underlying vector.
    pub fn remove(&self, v: &GoVersion) -> (r: Self)
        requires
            self.wf(),
        ensures
            r.wf(),
            r@ == self@.remove(*v),
            !self@.contains(*v) ==> r.items@ == self.items@,
    {
        let n = self.items.len();
        let mut out: Vec<GoVersion> = Vec::new();
        let mut i: usize = 0;
        while i < n
            invariant
                0 <= i <= n,
                n == self.items@.len(),
                strictly_sorted(self.items@),
                strictly_sorted(out@),
                forall|k: int, m: int|
                    0 <= k < out@.len() && i <= m < n ==> version_lt(
                        #[trigger] out@[k],
                        #[trigger] self.items@[m],
                    ),
                forall|x: GoVersion|
                    out@.contains(x) <==> (self.items@.subrange(0, i as int).contains(x) && x
                        != *v),
            decreases n - i,
        {
            let ghost prev = out@;
            if !(self.items[i] == *v) {
                out.push(self.items[i]);
            }
            proof {
                lemma_filter_step(
                    self.items@,
                    i as int,
                    prev,
                    out@,
                    Set::new(|x: GoVersion| x != *v),
                );
            }
            i = i + 1;
        }
        let r = VersionSet { items: out };
        proof {
            assert(self.items@.subrange(0, n as int) =~= self.items@);
            assert(r@ =~= self@.remove(*v));
            if !self@.contains(*v) {
                assert forall|k: int| 0 <= k < n implies out@.contains(
                    #[trigger] self.items@[k],
                ) by {
                    assert(self.items@.contains(self.items@[k]));
                }
                lemma_same_sorted(out@, self.items@);
            }
        }
        r
    }

    /// The versions this set shares with `other`.
    pub fn intersect(&self, other: &VersionSet) -> (r: Self)
        requires
            self.wf(),
        ensures
            r.wf(),
            r@ == self@.intersect(other@),
    {
        let n = self.items.len();
        let mut out: Vec<GoVersion> = Vec::new();
        let mut i: usize = 0;
        while i < n
            invariant
                0 <= i <= n,
                n == self.items@.len(),
                strictly_sorted(self.items@),
                strictly_sorted(out@),
                forall|k: int, m: int|
                    0 <= k < out@.len() && i <= m < n ==> version_lt(
                        #[trigger] out@[k],
                        #[trigger] self.items@[m],
                    ),
                forall|x: GoVersion|
                    out@.contains(x) <==> (self.items@.subrange(0, i as int).contains(x)
                        && other@.contains(x)),
            decreases n - i,
        {
            let ghost prev = out@;
            if other.contains(&self.items[i]) {
                out.push(self.items[i]);
            }
            proof {
                lemma_filter_step(self.items@, i as int, prev, out@, other@);
            }
            i = i + 1;
        }
        let r = VersionSet { items: out };
        proof {
            assert(self.items@.subrange(0, n as int) =~= self.items@);
            assert(r@ =~= self@.intersect(other@));
        }
        r
    }

    /// The versions of this set that `other` lacks.
    pub fn difference(&self, other: &VersionSet) -> (r: Self)
        requires
            self.wf(),
        ensures
            r.wf(),
            r@ == self@.difference(other@),
    {
        let n = self.items.len();
        let mut out: Vec<GoVersion> = Vec::new();
        let mut i: usize = 0;
        while i < n
            invariant
                0 <= i <= n,
                n == self.items@.len(),
                strictly_sorted(self.items@),
                strictly_sorted(out@),
                forall|k: int, m: int|
                    0 <= k < out@.len() && i <= m < n ==> version_lt(
                        #[trigger] out@[k],
                        #[trigger] self.items@[m],
                    ),
                forall|x: GoVersion|
                    out@.contains(x) <==> (self.items@.subrange(0, i as int).contains(x)
                        && !other@.contains(x)),
            decreases n - i,
        {
            let ghost prev = out@;
            if !other.contains(&self.items[i]) {
                out.push(self.items[i]);
            }
            proof {
                lemma_filter_step(self.items@, i as int, prev, out@, other@.complement());
            }
            i = i + 1;
        }
        let r = VersionSet { items: out };
        proof {
            assert(self.items@.subrange(0, n as int) =~= self.items@);
            assert(r@ =~= self@.difference(other@));
        }
        r
    }

    /// The union of the two sets.
    pub fn union(&self, other: &VersionSet) -> (r: Self)
        requires
            self.wf(),
        ensures
            r.wf(),
            r@ == self@.union(other@),
    {
        let mut r = self.clone();
        let n = other.items.len();
        let mut i: usize = 0;
        proof {
            assert(r@ =~= self@.union(other.items@.subrange(0, 0).to_set()));
        }
        while i < n
            invariant
                0 <= i <= n,
                n == other.items@.len(),
                r.wf(),
                r@ == self@.union(other.items@.subrange(0, i as int).to_set()),
            decreases n - i,
        {
            let ghost prev = r@;
            r = r.insert(other.items[i]);
            proof {
                assert(other.items@.subrange(0, i + 1).drop_last() =~= other.items@.subrange(
                    0,
                    i as int,
                ));
                assert forall|x: GoVersion|
                    other.items@.subrange(0, i + 1).to_set().contains(x) <==> (other.items@.subrange(
                        0,
                        i as int,
                    ).to_set().contains(x) || x == other.items@[i as int]) by {
                    let t = other.items@.subrange(0, i + 1);
                    if t.to_set().contains(x) {
                        let k = choose|k: int| 0 <= k < t.len() && t[k] == x;
                        if k < i {
                            assert(other.items@.subrange(0, i as int)[k] == x);
                        }
                    }
                    if other.items@.subrange(0, i as int).to_set().contains(x) {
                        let k = choose|k: int|
                            0 <= k < i && other.items@.subrange(0, i as int)[k] == x;
                        assert(t[k] == x);
                    }
                    if x == other.items@[i as int] {
                        assert(t[i as int] == x);
                    }
                }
                assert(r@ =~= self@.union(other.items@.subrange(0, i + 1).to_set()));
            }
            i = i + 1;
        }
        proof {
            assert(other.items@.subrange(0, n as int) =~= other.items@);
            assert(r@ =~= self@.union(other@));
        }
        r
    }

    /// The greatest version in the set, when there is one.
    pub fn max(&self) -> (r: Option<GoVersion>)
        requires
            self.wf(),
        ensures
            match r {
                Some(m) => self@.contains(m) && forall|x: GoVersion|
                    self@.contains(x) ==> x == m || version_lt(x, m),
                None => self@ == Set::<GoVersion>::empty() && self.items@.len() == 0,
            },
    {
        let n = self.items.len();
        if n == 0 {
            proof {
                assert(self@ =~= Set::<GoVersion>::empty());
            }
            None
        } else {
            let m = self.items[n - 1];
            proof {
                assert(self.items@.contains(m));
                assert forall|x: GoVersion| self@.contains(x) implies x == m || version_lt(x, m) by {
                    let k = choose|k: int| 0 <= k < n && self.items@[k] == x;
                    if k < n - 1 {
                        assert(version_lt(self.items@[k], self.items@[n - 1]));
                    }
                }
            }
            Some(m)
        }
    }

    /// The set of the versions in a vector, in whatever order and with
    /// whatever repetition they come.
    pub fn from_vec(items: &Vec<GoVersion>) -> (r: Self)
        ensures
            r.wf(),
            r@ == items@.to_set(),
    {
        let mut r = VersionSet::new();
        let n = items.len();
        let mut i: usize = 0;
        proof {
            assert(r@ =~= items@.subrange(0, 0).to_set());
        }
        while i < n
            invariant
                0 <= i <= n,
                n == items@.len(),
                r.wf(),
                r@ == items@.subrange(0, i as int).to_set(),
            decreases n - i,
        {
            r = r.insert(items[i]);
            proof {
                assert forall|x: GoVersion|
                    items@.subrange(0, i + 1).to_set().contains(x) <==> (items@.subrange(
                        0,
                        i as int,
                    ).to_set().contains(x) || x == items@[i as int]) by {
                    let t = items@.subrange(0, i + 1);
                    if t.to_set().contains(x) {
                        let k = choose|k: int| 0 <= k < t.len() && t[k] == x;
                        if k < i {
                            assert(items@.subrange(0, i as int)[k] == x);
                        }
                    }
                    if items@.subrange(0, i as int).to_set().contains(x) {
                        let k = choose|k: int| 0 <= k < i && items@.subrange(0, i as int)[k] == x;
                        assert(t[k] == x);
                    }
                    if x == items@[i as int] {
                        assert(t[i as int] == x);
                    }
                }
                assert(r@ =~= items@.subrange(0, i + 1).to_set());
            }
            i = i + 1;
        }
        proof {
            assert(items@.subrange(0, n as int) =~= items@);
        }
        r
    }
}

proof fn lemma_at_least(s: Seq<GoVersion>, pos: int, k: int, v: GoVersion)
    requires
        strictly_sorted(s),
        0 <= pos <= k < s.len(),
        !version_lt(s[pos], v),
        s[pos] != v,
    ensures
        version_lt(v, s[k]),
{
    crate::version::lemma_version_order_total(s[pos], v, v);
    if pos < k {
        assert(version_lt(s[pos], s[k]));
        crate::version::lemma_version_order_total(v, s[pos], s[k]);
    }
}

/// One step of filtering a sorted vector: extending the kept prefix by
/// `s[i]` (when `keep` holds it) preserves sortedness, the bound on the
/// unprocessed tail, and the membership characterization.
proof fn lemma_filter_step(
    s: Seq<GoVersion>,
    i: int,
    prev: Seq<GoVersion>,
    out: Seq<GoVersion>,
    keep: Set<GoVersion>,
)
    requires
        0 <= i < s.len(),
        strictly_sorted(s),
        strictly_sorted(prev),
        forall|k: int, m: int|
            0 <= k < prev.len() && i <= m < s.len() ==> version_lt(
                #[trigger] prev[k],
                #[trigger] s[m],
            ),
        forall|x: GoVersion|
            prev.contains(x) <==> (s.subrange(0, i).contains(x) && keep.contains(x)),
        out == if keep.contains(s[i]) {
            prev.push(s[i])
        } else {
            prev
        },
    ensures
        strictly_sorted(out),
        forall|k: int, m: int|
            0 <= k < out.len() && i + 1 <= m < s.len() ==> version_lt(
                #[trigger] out[k],
                #[trigger] s[m],
            ),
        forall|x: GoVersion|
            out.contains(x) <==> (s.subrange(0, i + 1).contains(x) && keep.contains(x)),
{
    let t = s.subrange(0, i + 1);
    assert(t =~= s.subrange(0, i).push(s[i]));
    if keep.contains(s[i]) {
        assert forall|a: int, b: int| 0 <= a < b < out.len() implies version_lt(
            out[a],
            out[b],
        ) by {
            if b == out.len() - 1 {
                assert(version_lt(prev[a], s[i]));
            }
        }
    }
    assert forall|k: int, m: int|
        0 <= k < out.len() && i + 1 <= m < s.len() implies version_lt(out[k], s[m]) by {
        if k < prev.len() {
            assert(version_lt(prev[k], s[m]));
        } else {
            assert(out[k] == s[i]);
            assert(version_lt(s[i], s[m]));
        }
    }
    assert forall|x: GoVersion| out.contains(x) implies (t.contains(x) && keep.contains(x)) by {
        let k = choose|k: int| 0 <= k < out.len() && out[k] == x;
        if k < prev.len() {
            assert(prev[k] == x);
            assert(prev.contains(x));
            let j = choose|j: int| 0 <= j < i && s.subrange(0, i)[j] == x;
            assert(t[j] == x);
        } else {
            assert(x == s[i]);
            assert(t[i] == x);
        }
    }
    assert forall|x: GoVersion| t.contains(x) && keep.contains(x) implies out.contains(x) by {
        let k = choose|k: int| 0 <= k < t.len() && t[k] == x;
        if k < i {
            assert(s.subrange(0, i)[k] == x);
            assert(s.subrange(0, i).contains(x));
            assert(prev.contains(x));
            let j = choose|j: int| 0 <= j < prev.len() && prev[j] == x;
            assert(out[j] == x);
        } else {
            assert(x == s[i]);
            assert(out[out.len() - 1] == x);
        }
    }
}

/// Two strictly sorted sequences with the same members are the same
/// sequence.
proof fn lemma_same_sorted(a: Seq<GoVersion>, b: Seq<GoVersion>)
    requires
        strictly_sorted(a),
        strictly_sorted(b),
        forall|x: GoVersion| a.contains(x) <==> b.contains(x),
    ensures
        a == b,
    decreases a.len(),
{
    if a.len() == 0 {
        if b.len() > 0 {
            assert(b.contains(b[0]));
            assert(a.contains(b[0]));
        }
        assert(a =~= b);
    } else {
        assert(a.contains(a.last()));
        assert(b.contains(a.last()));
        assert(b.len() > 0);
        assert(b.contains(b.last()));
        assert(a.contains(b.last()));
        let la = a.last();
        let lb = b.last();
        let k = choose|k: int| 0 <= k < b.len() && b[k] == la;
        let j = choose|j: int| 0 <= j < a.len() && a[j] == lb;
        if k < b.len() - 1 {
            assert(version_lt(b[k], b.last()));
        }
        if j < a.len() - 1 {
            assert(version_lt(a[j], a.last()));
        }
        crate::version::lemma_version_order_total(la, lb, la);
        assert(la == lb);
        assert forall|x: GoVersion| a.drop_last().contains(x) <==> b.drop_last().contains(x) by {
            lemma_drop_last_member(a, x);
            lemma_drop_last_member(b, x);
        }
        assert(strictly_sorted(a.drop_last()));
        assert(strictly_sorted(b.drop_last()));
        lemma_same_sorted(a.drop_last(), b.drop_last());
        assert(a.len() == b.len());
        assert forall|i: int| 0 <= i < a.len() implies a[i] == b[i] by {
            if i < a.len() - 1 {
                assert(a.drop_last()[i] == b.drop_last()[i]);
            } else {
                assert(a[i] == la);
                assert(b[i] == lb);
            }
        }
        assert(a =~= b);
    }
}

/// In a strictly sorted sequence, the members of all but the last slot
/// are exactly the members other than the last one.
proof fn lemma_drop_last_member(a: Seq<GoVersion>, x: GoVersion)
    requires
        strictly_sorted(a),
        a.len() > 0,
    ensures
        a.drop_last().contains(x) <==> (a.contains(x) && x != a.last()),
{
    if a.drop_last().contains(x) {
        let k = choose|k: int| 0 <= k < a.len() - 1 && a.drop_last()[k] == x;
        assert(a[k] == x);
        assert(version_lt(a[k], a.last()));
        crate::version::lemma_version_order_total(a[k], a.last(), a.last());
    }
    if a.contains(x) && x != a.last() {
        let k = choose|k: int| 0 <= k < a.len() && a[k] == x;
        assert(k < a.len() - 1);
        assert(a.drop_last()[k] == x);
    }
}

} // verus!
