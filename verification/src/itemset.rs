//! Canonical itemsets: sets of item identifiers kept as strictly increasing
//! vectors, so that equality is independent of insertion order.

use vstd::prelude::*;

verus! {

broadcast use vstd::seq_lib::seq_to_set_is_finite;

/// A sequence is in canonical order: strictly increasing, hence duplicate-free.
pub open spec fn strictly_increasing(s: Seq<usize>) -> bool {
    forall|i: int, j: int| 0 <= i < j < s.len() ==> s[i] < s[j]
}

/// A set of unique items. The items are stored in canonical (strictly
/// increasing) order, so two well-formed itemsets over the same items hold
/// identical vectors.
pub struct ItemSet {
    pub items: Vec<usize>,
}

/// A dataset: an ordered sequence of transactions, each one an itemset.
/// Duplicates are allowed and each is counted independently.
pub type ItemSetList = Vec<ItemSet>;

impl View for ItemSet {
    type V = Set<usize>;

    open spec fn view(&self) -> Set<usize> {
        self.items@.to_set()
    }
}

impl ItemSet {
    /// The canonical-order invariant.
    pub open spec fn wf(&self) -> bool {
        strictly_increasing(self.items@)
    }

    /// The empty itemset.
    pub fn new() -> (r: ItemSet)
        ensures
            r.wf(),
            r@ == Set::<usize>::empty(),
            r.items@ == Seq::<usize>::empty(),
    {
        let r = ItemSet { items: Vec::new() };
        proof {
            assert(r@ =~= Set::<usize>::empty());
        }
        r
    }

    /// Build an itemset from any sequence of items, deduplicating and
    /// establishing canonical order. Empty input yields an empty itemset.
    pub fn from_vec(values: &Vec<usize>) -> (r: ItemSet)
        ensures
            r.wf(),
            r@ == values@.to_set(),
    {
        let mut r = ItemSet { items: Vec::new() };
        let mut i: usize = 0;
        proof {
            assert(r@ =~= values@.take(0).to_set());
        }
        while i < values.len()
            invariant
                i <= values@.len(),
                r.wf(),
                r@ == values@.take(i as int).to_set(),
            decreases values@.len() - i,
        {
            r.insert_item(values[i]);
            proof {
                assert(values@.take(i + 1) =~= values@.take(i as int).push(values@[i as int]));
                lemma_to_set_push(values@.take(i as int), values@[i as int]);
            }
            i = i + 1;
        }
        proof {
            assert(values@.take(values@.len() as int) =~= values@);
        }
        r
    }

    /// Insert one item, keeping canonical order; a present item is left alone.
    fn insert_item(&mut self, x: usize)
        requires
            old(self).wf(),
        ensures
            final(self).wf(),
            final(self)@ == old(self)@.insert(x),
    {
        let mut idx: usize = 0;
        while idx < self.items.len() && self.items[idx] < x
            invariant
                idx <= self.items@.len(),
                forall|k: int| 0 <= k < idx ==> self.items@[k] < x,
                self == old(self),
            decreases self.items@.len() - idx,
        {
            idx = idx + 1;
        }
        if idx < self.items.len() && self.items[idx] == x {
            proof {
                assert(self.items@.to_set().contains(x)) by {
                    assert(self.items@.contains(x));
                }
                assert(self@ =~= old(self)@.insert(x));
            }
            return;
        }
        proof {
            assert(forall|k: int| idx <= k < self.items@.len() ==> x < self.items@[k]) by {
                assert(idx < self.items@.len() ==> self.items@[idx as int] > x);
                assert(forall|k: int|
                    idx < k < self.items@.len() ==> self.items@[idx as int] < self.items@[k]);
            }
        }
        let ghost pre = self.items@;
        self.items.insert(idx, x);
        proof {
            let post = self.items@;
            assert(post == pre.insert(idx as int, x));
            assert forall|i: int, j: int| 0 <= i < j < post.len() implies post[i] < post[j] by {
                assert(post.len() == pre.len() + 1);
                assert(forall|k: int| 0 <= k < idx ==> post[k] == pre[k]);
                assert(post[idx as int] == x);
                assert(forall|k: int| idx < k < post.len() ==> post[k] == pre[k - 1]);
            }
            assert(post.to_set() =~= pre.to_set().insert(x)) by {
                assert forall|y: usize| post.to_set().contains(y) implies pre.to_set().insert(
                    x,
                ).contains(y) by {
                    let i = choose|i: int| 0 <= i < post.len() && post[i] == y;
                    if i < idx {
                        assert(pre[i] == y);
                    } else if i > idx {
                        assert(pre[i - 1] == y);
                    }
                }
                assert forall|y: usize| pre.to_set().insert(x).contains(y) implies post.to_set().contains(
                    y,
                ) by {
                    if y == x {
                        assert(post[idx as int] == y);
                    } else {
                        let i = choose|i: int| 0 <= i < pre.len() && pre[i] == y;
                        if i < idx {
                            assert(post[i] == y);
                        } else {
                            assert(post[i + 1] == y);
                        }
                    }
                }
            }
        }
    }

    /// Membership test.
    pub fn contains(&self, x: usize) -> (r: bool)
        requires
            self.wf(),
        ensures
            r == self@.contains(x),
    {
        let mut i: usize = 0;
        while i < self.items.len()
            invariant
                i <= self.items@.len(),
                forall|k: int| 0 <= k < i ==> self.items@[k] != x,
            decreases self.items@.len() - i,
        {
            if self.items[i] == x {
                proof {
                    assert(self.items@.contains(x));
                }
                return true;
            }
            i = i + 1;
        }
        proof {
            assert(!self.items@.contains(x));
        }
        false
    }

    /// Number of items.
    pub fn len(&self) -> (r: usize)
        requires
            self.wf(),
        ensures
            r == self@.len(),
            r == self.items@.len(),
    {
        proof {
            self.lemma_set_len();
        }
        self.items.len()
    }

    /// A well-formed itemset holds exactly as many items as its set of items.
    pub proof fn lemma_set_len(&self)
        requires
            self.wf(),
        ensures
            self@.len() == self.items@.len(),
            self@.finite(),
    {
        assert(self.items@.no_duplicates());
        self.items@.unique_seq_to_set();
    }

    /// An exact copy.
    pub fn duplicate(&self) -> (r: ItemSet)
        ensures
            r.items@ == self.items@,
            r@ == self@,
            self.wf() ==> r.wf(),
    {
        let mut v: Vec<usize> = Vec::new();
        let mut i: usize = 0;
        while i < self.items.len()
            invariant
                i <= self.items@.len(),
                v@ == self.items@.take(i as int),
            decreases self.items@.len() - i,
        {
            v.push(self.items[i]);
            proof {
                assert(self.items@.take(i + 1) =~= self.items@.take(i as int).push(
                    self.items@[i as int],
                ));
            }
            i = i + 1;
        }
        proof {
            assert(self.items@.take(self.items@.len() as int) =~= self.items@);
        }
        ItemSet { items: v }
    }

    /// Union with another itemset.
    pub fn union(&self, other: &ItemSet) -> (r: ItemSet)
        requires
            self.wf(),
            other.wf(),
        ensures
            r.wf(),
            r@ == self@.union(other@),
    {
        let mut v: Vec<usize> = Vec::new();
        let mut i: usize = 0;
        while i < self.items.len()
            invariant
                i <= self.items@.len(),
                v@ == self.items@.take(i as int),
            decreases self.items@.len() - i,
        {
            v.push(self.items[i]);
            proof {
                assert(self.items@.take(i + 1) =~= self.items@.take(i as int).push(
                    self.items@[i as int],
                ));
            }
            i = i + 1;
        }
        proof {
            assert(self.items@.take(self.items@.len() as int) =~= self.items@);
        }
        let mut j: usize = 0;
        while j < other.items.len()
            invariant
                j <= other.items@.len(),
                v@ == self.items@ + other.items@.take(j as int),
            decreases other.items@.len() - j,
        {
            v.push(other.items[j]);
            proof {
                assert(self.items@ + other.items@.take(j + 1) =~= (self.items@
                    + other.items@.take(j as int)).push(other.items@[j as int]));
            }
            j = j + 1;
        }
        proof {
            assert(self.items@ + other.items@.take(other.items@.len() as int) =~= self.items@
                + other.items@);
        }
        let r = ItemSet::from_vec(&v);
        proof {
            lemma_to_set_add(self.items@, other.items@);
        }
        r
    }

    /// Extend with an item smaller than every present item.
    pub(crate) fn with_front(&self, x: usize) -> (r: ItemSet)
        requires
            self.wf(),
            forall|y: usize| self@.contains(y) ==> x < y,
        ensures
            r.wf(),
            r@ == self@.insert(x),
    {
        let mut v: Vec<usize> = Vec::new();
        v.push(x);
        let mut i: usize = 0;
        proof {
            assert(v@ =~= seq![x] + self.items@.take(0));
        }
        while i < self.items.len()
            invariant
                i <= self.items@.len(),
                v@ == seq![x] + self.items@.take(i as int),
            decreases self.items@.len() - i,
        {
            v.push(self.items[i]);
            proof {
                assert(seq![x] + self.items@.take(i + 1) =~= (seq![x] + self.items@.take(
                    i as int,
                )).push(self.items@[i as int]));
            }
            i = i + 1;
        }
        proof {
            assert(seq![x] + self.items@.take(self.items@.len() as int) =~= seq![x] + self.items@);
        }
        let r = ItemSet { items: v };
        proof {
            assert forall|k: int| 0 <= k < self.items@.len() implies x < self.items@[k] by {
                assert(self.items@.contains(self.items@[k]));
                assert(self@.contains(self.items@[k]));
            }
            assert(strictly_increasing(r.items@)) by {
                assert(r.items@.len() == self.items@.len() + 1);
                assert(r.items@[0] == x);
                assert(forall|k: int|
                    1 <= k < r.items@.len() ==> r.items@[k] == self.items@[k - 1]);
            }
            lemma_to_set_add(seq![x], self.items@);
            assert(seq![x].to_set() =~= Set::<usize>::empty().insert(x)) by {
                assert(seq![x][0] == x);
                assert(seq![x].contains(x));
            }
            assert(r@ =~= self@.insert(x));
        }
        r
    }

    /// Set equality of two canonical itemsets.
    pub fn equals(&self, other: &ItemSet) -> (r: bool)
        requires
            self.wf(),
            other.wf(),
        ensures
            r == (self@ == other@),
    {
        if self.items.len() != other.items.len() {
            proof {
                if self@ == other@ {
                    lemma_canonical_unique(self.items@, other.items@);
                }
            }
            return false;
        }
        let mut i: usize = 0;
        while i < self.items.len()
            invariant
                self.wf(),
                other.wf(),
                self.items@.len() == other.items@.len(),
                i <= self.items@.len(),
                forall|k: int| 0 <= k < i ==> self.items@[k] == other.items@[k],
            decreases self.items@.len() - i,
        {
            if self.items[i] != other.items[i] {
                proof {
                    if self@ == other@ {
                        lemma_canonical_unique(self.items@, other.items@);
                    }
                }
                return false;
            }
            i = i + 1;
        }
        proof {
            assert(self.items@ =~= other.items@);
        }
        true
    }
}

/// Pushing an item onto a sequence inserts it into the sequence's set of items.
pub proof fn lemma_to_set_push(s: Seq<usize>, x: usize)
    ensures
        s.push(x).to_set() == s.to_set().insert(x),
{
    assert(s.push(x).to_set() =~= s.to_set().insert(x)) by {
        assert forall|y: usize| s.push(x).to_set().contains(y) implies s.to_set().insert(
            x,
        ).contains(y) by {
            let i = choose|i: int| 0 <= i < s.push(x).len() && s.push(x)[i] == y;
            if i < s.len() {
                assert(s[i] == y);
            }
        }
        assert forall|y: usize| s.to_set().insert(x).contains(y) implies s.push(x).to_set().contains(
            y,
        ) by {
            if y == x {
                assert(s.push(x)[s.len() as int] == y);
            } else {
                let i = choose|i: int| 0 <= i < s.len() && s[i] == y;
                assert(s.push(x)[i] == y);
            }
        }
    }
}

/// The set of items of a concatenation is the union of the parts' sets.
pub proof fn lemma_to_set_add(a: Seq<usize>, b: Seq<usize>)
    ensures
        (a + b).to_set() == a.to_set().union(b.to_set()),
{
    assert((a + b).to_set() =~= a.to_set().union(b.to_set())) by {
        assert forall|y: usize| (a + b).to_set().contains(y) implies a.to_set().union(
            b.to_set(),
        ).contains(y) by {
            let i = choose|i: int| 0 <= i < (a + b).len() && (a + b)[i] == y;
            if i < a.len() {
                assert(a[i] == y);
            } else {
                assert(b[i - a.len()] == y);
            }
        }
        assert forall|y: usize| a.to_set().union(b.to_set()).contains(y) implies (
        a + b).to_set().contains(y) by {
            if a.to_set().contains(y) {
                let i = choose|i: int| 0 <= i < a.len() && a[i] == y;
                assert((a + b)[i] == y);
            } else {
                let i = choose|i: int| 0 <= i < b.len() && b[i] == y;
                assert((a + b)[a.len() + i] == y);
            }
        }
    }
}

/// Dropping the last element of a canonical sequence removes exactly that
/// item from its set of items.
proof fn lemma_canonical_drop_last(s: Seq<usize>)
    requires
        strictly_increasing(s),
        s.len() > 0,
    ensures
        s.drop_last().to_set() == s.to_set().remove(s.last()),
{
    assert(s.drop_last().to_set() =~= s.to_set().remove(s.last())) by {
        assert forall|y: usize| s.drop_last().to_set().contains(y) implies s.to_set().remove(
            s.last(),
        ).contains(y) by {
            let i = choose|i: int| 0 <= i < s.drop_last().len() && s.drop_last()[i] == y;
            assert(s[i] == y);
            assert(s[i] < s.last());
        }
        assert forall|y: usize| s.to_set().remove(s.last()).contains(y) implies s.drop_last().to_set().contains(
            y,
        ) by {
            let i = choose|i: int| 0 <= i < s.len() && s[i] == y;
            assert(i != s.len() - 1);
            assert(s.drop_last()[i] == y);
        }
    }
}

/// The canonical form is unique: two strictly increasing sequences over the
/// same set of items are identical. Hence converting a row of items to an
/// `ItemSet` is idempotent and independent of the row's order: any two
/// conversions that yield the same items yield the very same vector.
pub proof fn lemma_canonical_unique(s1: Seq<usize>, s2: Seq<usize>)
    requires
        strictly_increasing(s1),
        strictly_increasing(s2),
        s1.to_set() == s2.to_set(),
    ensures
        s1 == s2,
    decreases s1.len(),
{
    if s1.len() == 0 {
        if s2.len() > 0 {
            assert(s2.to_set().contains(s2[0]));
            assert(s1.to_set().contains(s2[0]));
            assert(false);
        }
        assert(s1 =~= s2);
    } else {
        if s2.len() == 0 {
            assert(s1.to_set().contains(s1[0]));
            assert(s2.to_set().contains(s1[0]));
            assert(false);
        }
        assert(s1.last() == s2.last()) by {
            assert(s1.to_set().contains(s1.last()));
            assert(s2.to_set().contains(s2.last()));
            let i = choose|i: int| 0 <= i < s2.len() && s2[i] == s1.last();
            assert(s2[i] <= s2.last());
            let j = choose|j: int| 0 <= j < s1.len() && s1[j] == s2.last();
            assert(s1[j] <= s1.last());
        }
        lemma_canonical_drop_last(s1);
        lemma_canonical_drop_last(s2);
        assert(strictly_increasing(s1.drop_last()));
        assert(strictly_increasing(s2.drop_last()));
        lemma_canonical_unique(s1.drop_last(), s2.drop_last());
        assert(s1 =~= s1.drop_last().push(s1.last()));
        assert(s2 =~= s2.drop_last().push(s2.last()));
        assert(s1 =~= s2);
    }
}

/// Two well-formed itemsets over the same items are the same value: the
/// canonical conversion is idempotent.
pub proof fn lemma_conversion_idempotent(a: &ItemSet, b: &ItemSet)
    requires
        a.wf(),
        b.wf(),
        a@ == b@,
    ensures
        a.items@ == b.items@,
{
    lemma_canonical_unique(a.items@, b.items@);
}

} // verus!
