//! A set of node indices, stored as a strictly increasing vector.
//!
//! Keeping the elements sorted gives every set a canonical layout, so
//! iteration order is deterministic for a fixed set of members, and two
//! sets with the same members are structurally equal.

use vstd::prelude::*;

verus! {

/// The elements of `s` are in strictly increasing order (hence unique).
pub open spec fn strictly_sorted(s: Seq<usize>) -> bool {
    forall|k: int, l: int| 0 <= k < l < s.len() ==> s[k] < s[l]
}

/// `b` holds the members of `a` together with `x`, in canonical order.
pub open spec fn seq_with(b: Seq<usize>, a: Seq<usize>, x: usize) -> bool {
    &&& strictly_sorted(b)
    &&& forall|y: usize| b.contains(y) <==> a.contains(y) || y == x
}

/// `b` holds the members of `a` except `x`, in canonical order.
pub open spec fn seq_without(b: Seq<usize>, a: Seq<usize>, x: usize) -> bool {
    &&& strictly_sorted(b)
    &&& forall|y: usize| b.contains(y) <==> a.contains(y) && y != x
}

/// A strictly sorted sequence has no repeated elements.
pub proof fn lemma_sorted_no_duplicates(s: Seq<usize>)
    requires
        strictly_sorted(s),
    ensures
        s.no_duplicates(),
{
    assert forall|i: int, j: int| 0 <= i < s.len() && 0 <= j < s.len() && i != j implies s[i]
        != s[j] by {
        if i < j {
            assert(s[i] < s[j]);
        } else {
            assert(s[j] < s[i]);
        }
    }
}

/// Every member of a nonempty sorted sequence is at most its last element.
pub proof fn lemma_sorted_last_max(s: Seq<usize>)
    requires
        strictly_sorted(s),
        s.len() > 0,
    ensures
        forall|y: usize| s.contains(y) ==> y <= s.last(),
{
    assert forall|y: usize| s.contains(y) implies y <= s.last() by {
        let k = choose|k: int| 0 <= k < s.len() && s[k] == y;
        if k < s.len() - 1 {
            assert(s[k] < s[s.len() - 1]);
        }
    }
}

/// Dropping the last element of a sorted sequence removes exactly that member.
pub proof fn lemma_sorted_drop_last(s: Seq<usize>)
    requires
        strictly_sorted(s),
        s.len() > 0,
    ensures
        strictly_sorted(s.drop_last()),
        forall|y: usize| s.drop_last().contains(y) <==> s.contains(y) && y != s.last(),
{
    assert forall|y: usize| s.drop_last().contains(y) implies s.contains(y) && y != s.last() by {
        let k = choose|k: int| 0 <= k < s.drop_last().len() && s.drop_last()[k] == y;
        assert(s[k] == y);
        assert(s[k] < s[s.len() - 1]);
    }
    assert forall|y: usize| s.contains(y) && y != s.last() implies s.drop_last().contains(y) by {
        let k = choose|k: int| 0 <= k < s.len() && s[k] == y;
        assert(k < s.len() - 1);
        assert(s.drop_last()[k] == y);
    }
}

/// Two sorted sequences with the same members are equal.
pub proof fn lemma_sorted_same_membership(a: Seq<usize>, b: Seq<usize>)
    requires
        strictly_sorted(a),
        strictly_sorted(b),
        forall|y: usize| a.contains(y) <==> b.contains(y),
    ensures
        a == b,
    decreases a.len(),
{
    if a.len() == 0 {
        if b.len() > 0 {
            assert(b.contains(b[0]));
            assert(false);
        }
        assert(a =~= b);
    } else if b.len() == 0 {
        assert(a.contains(a[0]));
        assert(false);
    } else {
        assert(a.contains(a.last()));
        assert(b.contains(b.last()));
        lemma_sorted_last_max(a);
        lemma_sorted_last_max(b);
        assert(a.last() == b.last());
        lemma_sorted_drop_last(a);
        lemma_sorted_drop_last(b);
        assert forall|y: usize| a.drop_last().contains(y) <==> b.drop_last().contains(y) by {
            assert(a.drop_last().contains(y) <==> a.contains(y) && y != a.last());
            assert(b.drop_last().contains(y) <==> b.contains(y) && y != b.last());
        }
        lemma_sorted_same_membership(a.drop_last(), b.drop_last());
        assert(a =~= b) by {
            assert(a.len() == b.len());
            assert(forall|k: int|
                0 <= k < a.len() - 1 ==> a[k] == a.drop_last()[k] && b[k] == b.drop_last()[k]);
        }
    }
}

/// A sorted sequence has at most as many elements as a sorted sequence
/// containing all its members.
pub proof fn lemma_sorted_subset_len(a: Seq<usize>, b: Seq<usize>)
    requires
        strictly_sorted(a),
        strictly_sorted(b),
        forall|y: usize| a.contains(y) ==> b.contains(y),
    ensures
        a.len() <= b.len(),
    decreases a.len(),
{
    if a.len() > 0 {
        assert(a.contains(a.last()));
        assert(b.contains(a.last()));
        lemma_sorted_last_max(a);
        lemma_sorted_last_max(b);
        lemma_sorted_drop_last(a);
        lemma_sorted_drop_last(b);
        assert forall|y: usize| a.drop_last().contains(y) implies b.drop_last().contains(y) by {
            let k = choose|k: int| 0 <= k < a.len() - 1 && a[k] == y;
            assert(a[k] < a[a.len() - 1]);
            assert(y < a.last());
            assert(b.contains(y));
            assert(y != b.last());
        }
        lemma_sorted_subset_len(a.drop_last(), b.drop_last());
    }
}

/// Adding one fresh member to a sorted sequence grows it by exactly one.
pub proof fn lemma_sorted_plus_len(b: Seq<usize>, a: Seq<usize>, x: usize)
    requires
        strictly_sorted(a),
        !a.contains(x),
        seq_with(b, a, x),
    ensures
        b.len() == a.len() + 1,
    decreases a.len(),
{
    assert(b.contains(x));
    if a.len() == 0 {
        assert(seq![x].contains(x)) by {
            assert(seq![x][0] == x);
        }
        assert forall|y: usize| b.contains(y) <==> seq![x].contains(y) by {
            if seq![x].contains(y) {
                let w = choose|w: int| 0 <= w < 1 && seq![x][w] == y;
                assert(y == x);
            }
        }
        assert(strictly_sorted(seq![x]));
        lemma_sorted_same_membership(b, seq![x]);
    } else {
        assert(a.contains(a.last()));
        assert(b.contains(a.last()));
        lemma_sorted_last_max(a);
        lemma_sorted_last_max(b);
        lemma_sorted_drop_last(a);
        lemma_sorted_drop_last(b);
        if a.last() < x {
            // the largest member of b is x itself
            assert(b.last() == x) by {
                assert(x <= b.last());
                assert(b.contains(b.last()));
                if b.last() != x {
                    assert(a.contains(b.last()));
                    assert(b.last() <= a.last());
                }
            }
            assert forall|y: usize| b.drop_last().contains(y) <==> a.contains(y) by {
                if a.contains(y) {
                    assert(y <= a.last());
                    assert(b.contains(y));
                }
            }
            lemma_sorted_same_membership(b.drop_last(), a);
        } else {
            assert(a.last() != x);
            assert(x < a.last());
            // the largest member of b is the largest member of a
            assert(b.last() == a.last()) by {
                assert(a.last() <= b.last());
                assert(b.contains(b.last()));
                if b.last() != a.last() {
                    if a.contains(b.last()) {
                        assert(b.last() <= a.last());
                    } else {
                        assert(b.last() == x);
                    }
                }
            }
            assert forall|y: usize|
                b.drop_last().contains(y) <==> a.drop_last().contains(y) || y == x by {
                assert(b.drop_last().contains(y) <==> b.contains(y) && y != b.last());
                assert(a.drop_last().contains(y) <==> a.contains(y) && y != a.last());
            }
            lemma_sorted_plus_len(b.drop_last(), a.drop_last(), x);
        }
    }
}

/// Removing one present member from a sorted sequence shrinks it by exactly one.
pub proof fn lemma_sorted_minus_len(b: Seq<usize>, a: Seq<usize>, x: usize)
    requires
        strictly_sorted(a),
        a.contains(x),
        seq_without(b, a, x),
    ensures
        a.len() == b.len() + 1,
{
    assert(!b.contains(x));
    lemma_sorted_plus_len(a, b, x);
}

/// A duplicate-free sequence has at most as many elements as a sorted
/// sequence containing all its members.
pub proof fn lemma_nodup_subset_len(a: Seq<usize>, s: Seq<usize>)
    requires
        a.no_duplicates(),
        strictly_sorted(s),
        forall|y: usize| a.contains(y) ==> s.contains(y),
    ensures
        a.len() <= s.len(),
    decreases a.len(),
{
    if a.len() > 0 {
        let x = a.last();
        assert(a.contains(x));
        assert(s.contains(x));
        let w = choose|w: int| 0 <= w < s.len() && s[w] == x;
        lemma_sorted_seq_remove(s, w);
        let s2 = s.remove(w);
        let a2 = a.drop_last();
        assert(a2.no_duplicates());
        assert forall|y: usize| a2.contains(y) implies s2.contains(y) by {
            let v = choose|v: int| 0 <= v < a2.len() && a2[v] == y;
            assert(a[v] == y);
            assert(y != x);
            assert(a.contains(y));
        }
        lemma_nodup_subset_len(a2, s2);
    }
}

/// A duplicate-free sequence whose members lie in a sorted sequence of
/// the same length covers all of it.
pub proof fn lemma_nodup_cover(a: Seq<usize>, s: Seq<usize>)
    requires
        a.no_duplicates(),
        strictly_sorted(s),
        forall|y: usize| a.contains(y) ==> s.contains(y),
        a.len() == s.len(),
    ensures
        forall|y: usize| #[trigger] s.contains(y) ==> a.contains(y),
{
    assert forall|y: usize| #[trigger] s.contains(y) implies a.contains(y) by {
        if !a.contains(y) {
            let w = choose|w: int| 0 <= w < s.len() && s[w] == y;
            lemma_sorted_seq_remove(s, w);
            let s2 = s.remove(w);
            assert forall|z: usize| a.contains(z) implies s2.contains(z) by {
                assert(s.contains(z));
                assert(z != y);
            }
            lemma_nodup_subset_len(a, s2);
        }
    }
}

/// Inserting `x` at the boundary between the smaller and the larger
/// elements of a sorted sequence keeps it sorted and adds `x` as a member.
proof fn lemma_sorted_seq_insert(s: Seq<usize>, k: int, x: usize)
    requires
        strictly_sorted(s),
        0 <= k <= s.len(),
        forall|l: int| 0 <= l < k ==> s[l] < x,
        forall|l: int| k <= l < s.len() ==> s[l] > x,
    ensures
        strictly_sorted(s.insert(k, x)),
        forall|y: usize| s.insert(k, x).contains(y) <==> s.contains(y) || y == x,
        s.insert(k, x).len() == s.len() + 1,
        !s.contains(x),
{
    s.insert_ensures(k, x);
    let t = s.insert(k, x);
    assert forall|l: int| 0 <= l < s.len() implies s[l] != x by {
        if l < k {
            assert(s[l] < x);
        } else {
            assert(s[l] > x);
        }
    }
    assert(!s.contains(x));
    assert forall|y: usize| t.contains(y) implies s.contains(y) || y == x by {
        let w = choose|w: int| 0 <= w < t.len() && t[w] == y;
        if w < k {
            assert(s[w] == y);
        } else if w > k {
            assert(s[w - 1] == y);
        }
    }
    assert forall|y: usize| s.contains(y) || y == x implies t.contains(y) by {
        if s.contains(y) {
            let w = choose|w: int| 0 <= w < s.len() && s[w] == y;
            if w < k {
                assert(t[w] == y);
            } else {
                assert(t[w + 1] == y);
            }
        } else {
            assert(t[k] == x);
        }
    }
    assert forall|u: int, v: int| 0 <= u < v < t.len() implies t[u] < t[v] by {
        if u < k && v < k {
            assert(t[u] == s[u] && t[v] == s[v]);
        } else if u < k && v == k {
            assert(t[u] == s[u] && t[v] == x);
        } else if u < k && v > k {
            assert(t[u] == s[u] && t[v] == s[v - 1]);
            assert(s[u] < x && x < s[v - 1]);
        } else if u == k {
            assert(t[u] == x && t[v] == s[v - 1]);
            assert(x < s[v - 1]);
        } else {
            assert(t[u] == s[u - 1] && t[v] == s[v - 1]);
        }
    }
}

/// Removing position `k` from a sorted sequence keeps it sorted and
/// removes exactly the member that was there.
proof fn lemma_sorted_seq_remove(s: Seq<usize>, k: int)
    requires
        strictly_sorted(s),
        0 <= k < s.len(),
    ensures
        strictly_sorted(s.remove(k)),
        forall|y: usize| s.remove(k).contains(y) <==> s.contains(y) && y != s[k],
        s.remove(k).len() == s.len() - 1,
{
    s.remove_ensures(k);
    lemma_sorted_no_duplicates(s);
    let t = s.remove(k);
    assert forall|y: usize| t.contains(y) implies s.contains(y) && y != s[k] by {
        let w = choose|w: int| 0 <= w < t.len() && t[w] == y;
        if w < k {
            assert(s[w] == y);
            assert(s[w] != s[k]);
        } else {
            assert(s[w + 1] == y);
            assert(s[w + 1] != s[k]);
        }
    }
    assert forall|y: usize| s.contains(y) && y != s[k] implies t.contains(y) by {
        let w = choose|w: int| 0 <= w < s.len() && s[w] == y;
        assert(w != k);
        if w < k {
            assert(t[w] == y);
        } else {
            assert(t[w - 1] == y);
        }
    }
    assert forall|u: int, v: int| 0 <= u < v < t.len() implies t[u] < t[v] by {
        if v < k {
            assert(t[u] == s[u] && t[v] == s[v]);
        } else if u < k {
            assert(t[u] == s[u] && t[v] == s[v + 1]);
        } else {
            assert(t[u] == s[u + 1] && t[v] == s[v + 1]);
        }
    }
}

/// A finite set of node indices with a canonical in-memory order.
///
/// The view of a set is the sequence of its members in increasing order.
pub struct NodeIndexSet {
    elems: Vec<usize>,
}

impl View for NodeIndexSet {
    type V = Seq<usize>;

    closed spec fn view(&self) -> Seq<usize> {
        self.elems@
    }
}

impl NodeIndexSet {
    /// The members are strictly increasing; every well-formed set keeps this.
    pub open spec fn wf(&self) -> bool {
        strictly_sorted(self@)
    }

    /// An empty set.
    pub fn new() -> (r: NodeIndexSet)
        ensures
            r@ == Seq::<usize>::empty(),
            r.wf(),
    {
        NodeIndexSet { elems: Vec::new() }
    }

    /// A set over an already sorted vector of members.
    pub fn from_sorted(elems: Vec<usize>) -> (r: NodeIndexSet)
        requires
            strictly_sorted(elems@),
        ensures
            r@ == elems@,
            r.wf(),
    {
        NodeIndexSet { elems }
    }

    /// The number of members.
    pub fn len(&self) -> (r: usize)
        ensures
            r == self@.len(),
    {
        self.elems.len()
    }

    /// True when the set has no members.
    pub fn is_empty(&self) -> (r: bool)
        ensures
            r == (self@.len() == 0),
    {
        self.elems.len() == 0
    }

    /// The member at position `k` in increasing order.
    pub fn get(&self, k: usize) -> (r: usize)
        requires
            k < self@.len(),
        ensures
            r == self@[k as int],
    {
        self.elems[k]
    }

    /// Membership test.
    pub fn contains(&self, x: usize) -> (r: bool)
        ensures
            r == self@.contains(x),
    {
        let mut k: usize = 0;
        while k < self.elems.len()
            invariant
                k <= self.elems@.len(),
                forall|l: int| 0 <= l < k ==> self.elems@[l] != x,
            decreases self.elems@.len() - k,
        {
            if self.elems[k] == x {
                return true;
            }
            k = k + 1;
        }
        false
    }

    /// Position of a member within the canonical order.
    pub fn position_of(&self, x: usize) -> (r: usize)
        requires
            self@.contains(x),
        ensures
            r < self@.len(),
            self@[r as int] == x,
    {
        let mut k: usize = 0;
        while k < self.elems.len()
            invariant
                k <= self.elems@.len(),
                forall|l: int| 0 <= l < k ==> self.elems@[l] != x,
            decreases self.elems@.len() - k,
        {
            if self.elems[k] == x {
                return k;
            }
            k = k + 1;
        }
        proof {
            let w = choose|w: int| 0 <= w < self@.len() && self@[w] == x;
            assert(false);
        }
        0
    }

    /// The members as a vector, in increasing order.
    pub fn to_vec(&self) -> (r: Vec<usize>)
        ensures
            r@ == self@,
    {
        let mut elems: Vec<usize> = Vec::new();
        let mut k: usize = 0;
        while k < self.elems.len()
            invariant
                k <= self.elems@.len(),
                elems@ == self.elems@.take(k as int),
            decreases self.elems@.len() - k,
        {
            elems.push(self.elems[k]);
            proof {
                assert(elems@ =~= self.elems@.take(k + 1));
            }
            k = k + 1;
        }
        proof {
            assert(elems@ =~= self.elems@);
        }
        elems
    }

    /// An independent copy with the same members.
    pub fn duplicate(&self) -> (r: NodeIndexSet)
        ensures
            r@ == self@,
    {
        NodeIndexSet { elems: self.to_vec() }
    }

    /// Insert `x`, returning whether it was newly added.
    pub fn insert(&mut self, x: usize) -> (r: bool)
        requires
            old(self).wf(),
        ensures
            final(self).wf(),
            r == !old(self)@.contains(x),
            forall|y: usize| final(self)@.contains(y) <==> old(self)@.contains(y) || y == x,
            final(self)@.len() == old(self)@.len() + (if old(self)@.contains(x) {
                0int
            } else {
                1int
            }),
    {
        let ghost s = self.elems@;
        let mut k: usize = 0;
        while k < self.elems.len() && self.elems[k] < x
            invariant
                self.elems@ == s,
                k <= s.len(),
                forall|l: int| 0 <= l < k ==> s[l] < x,
                strictly_sorted(s),
            decreases s.len() - k,
        {
            k = k + 1;
        }
        if k < self.elems.len() && self.elems[k] == x {
            // already present
            assert(self@.contains(x));
            return false;
        }
        // x is absent: everything before position k is smaller, the rest larger
        proof {
            assert forall|l: int| k <= l < s.len() implies s[l] > x by {
                if k < l {
                    assert(s[k as int] < s[l]);
                }
            }
            lemma_sorted_seq_insert(s, k as int, x);
        }
        self.elems.insert(k, x);
        true
    }

    /// Remove `x`, returning whether it had been present.
    #[verifier::loop_isolation(false)]
    pub fn remove(&mut self, x: usize) -> (r: bool)
        requires
            old(self).wf(),
        ensures
            final(self).wf(),
            r == old(self)@.contains(x),
            forall|y: usize| final(self)@.contains(y) <==> old(self)@.contains(y) && y != x,
            final(self)@.len() == old(self)@.len() - (if old(self)@.contains(x) {
                1int
            } else {
                0int
            }),
    {
        let ghost s = self.elems@;
        let mut k: usize = 0;
        while k < self.elems.len()
            invariant
                self.elems@ == s,
                k <= s.len(),
                forall|l: int| 0 <= l < k ==> s[l] != x,
                strictly_sorted(s),
            decreases s.len() - k,
        {
            if self.elems[k] == x {
                proof {
                    assert(s.contains(x));
                    lemma_sorted_seq_remove(s, k as int);
                }
                self.elems.remove(k);
                return true;
            }
            k = k + 1;
        }
        assert(!s.contains(x));
        false
    }
}

} // verus!
