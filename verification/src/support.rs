//! Support counting and pruning: how many transactions of a dataset contain
//! each candidate itemset, and the filter by the minimum-support threshold.

use crate::itemset::ItemSet;
use vstd::prelude::*;

verus! {

/// The views of a dataset's transactions.
pub open spec fn views_of(d: Seq<ItemSet>) -> Seq<Set<usize>> {
    d.map_values(|t: ItemSet| t@)
}

/// The set of views of a list of candidate itemsets.
pub open spec fn cands(l: Seq<ItemSet>) -> Set<Set<usize>> {
    Set::new(|c: Set<usize>| exists|i: int| 0 <= i < l.len() && l[i]@ == c)
}

/// The support of `c`: how many transactions of `data` contain it as a subset.
pub open spec fn support_count(data: Seq<Set<usize>>, c: Set<usize>) -> nat
    decreases data.len(),
{
    if data.len() == 0 {
        0
    } else {
        support_count(data.drop_last(), c) + if c.subset_of(data.last()) {
            1nat
        } else {
            0nat
        }
    }
}

/// The support table of the candidates `cs` over `data`, thresholded at
/// `min`: a candidate appears iff it occurs at all and its support reaches
/// the threshold, mapped to its exact support.
pub open spec fn supports_map(data: Seq<Set<usize>>, cs: Set<Set<usize>>, min: nat) -> Map<
    Set<usize>,
    nat,
> {
    Map::new(
        |c: Set<usize>|
            cs.contains(c) && 1 <= support_count(data, c) && min <= support_count(data, c),
        |c: Set<usize>| support_count(data, c),
    )
}

/// The entries of `m` whose count reaches `min`, counts unchanged.
pub open spec fn pruned_map(m: Map<Set<usize>, nat>, min: nat) -> Map<Set<usize>, nat> {
    Map::new(|c: Set<usize>| m.dom().contains(c) && min <= m[c], |c: Set<usize>| m[c])
}

/// The mapping that a sequence of (itemset, count) entries denotes.
pub open spec fn map_of(entries: Seq<(ItemSet, usize)>) -> Map<Set<usize>, nat>
    decreases entries.len(),
{
    if entries.len() == 0 {
        Map::<Set<usize>, nat>::empty()
    } else {
        map_of(entries.drop_last()).insert(entries.last().0@, entries.last().1 as nat)
    }
}

/// Itemsets associated with their occurrence count: a mapping from canonical
/// itemsets to positive support counts, stored as entries with distinct keys.
pub struct Supports {
    pub entries: Vec<(ItemSet, usize)>,
}

impl View for Supports {
    type V = Map<Set<usize>, nat>;

    open spec fn view(&self) -> Map<Set<usize>, nat> {
        map_of(self.entries@)
    }
}

/// An entry sequence with pairwise distinct keys denotes a mapping with one
/// key per entry, carrying that entry's count.
pub proof fn lemma_map_of_entries(entries: Seq<(ItemSet, usize)>)
    requires
        forall|i: int, j: int| 0 <= i < j < entries.len() ==> entries[i].0@ != entries[j].0@,
    ensures
        map_of(entries).dom().finite(),
        map_of(entries).dom().len() == entries.len(),
        forall|k: Set<usize>|
            #[trigger] map_of(entries).dom().contains(k) <==> exists|i: int|
                0 <= i < entries.len() && entries[i].0@ == k,
        forall|i: int|
            0 <= i < entries.len() ==> map_of(entries)[#[trigger] entries[i].0@] == entries[i].1
                as nat,
    decreases entries.len(),
{
    if entries.len() > 0 {
        let head = entries.drop_last();
        lemma_map_of_entries(head);
        let key = entries.last().0@;
        assert(!map_of(head).dom().contains(key)) by {
            if map_of(head).dom().contains(key) {
                let i = choose|i: int| 0 <= i < head.len() && head[i].0@ == key;
                assert(entries[i].0@ == entries[entries.len() - 1].0@);
            }
        }
        assert forall|k: Set<usize>| #[trigger]
            map_of(entries).dom().contains(k) implies exists|i: int|
            0 <= i < entries.len() && entries[i].0@ == k by {
            if k == key {
                assert(entries[entries.len() - 1].0@ == k);
            } else {
                let i = choose|i: int| 0 <= i < head.len() && head[i].0@ == k;
                assert(entries[i].0@ == k);
            }
        }
        assert forall|k: Set<usize>|
            (exists|i: int|
                0 <= i < entries.len() && entries[i].0@ == k) implies #[trigger] map_of(
            entries,
        ).dom().contains(k) by {
            let i = choose|i: int| 0 <= i < entries.len() && entries[i].0@ == k;
            if i < entries.len() - 1 {
                assert(head[i].0@ == k);
            }
        }
        assert forall|i: int| 0 <= i < entries.len() implies map_of(entries)[#[trigger] entries[i].0@]
            == entries[i].1 as nat by {
            if i < entries.len() - 1 {
                assert(head[i] == entries[i]);
                assert(entries[i].0@ != key);
                assert(map_of(head)[head[i].0@] == head[i].1 as nat);
            }
        }
    }
}

impl Supports {
    /// Every key is a well-formed itemset and no key repeats.
    pub open spec fn wf(&self) -> bool {
        &&& forall|i: int| 0 <= i < self.entries@.len() ==> (#[trigger] self.entries@[i]).0.wf()
        &&& forall|i: int, j: int|
            0 <= i < j < self.entries@.len() ==> self.entries@[i].0@ != self.entries@[j].0@
    }

    /// The empty table.
    pub fn new() -> (r: Supports)
        ensures
            r.wf(),
            r@ == Map::<Set<usize>, nat>::empty(),
    {
        Supports { entries: Vec::new() }
    }

    /// Add an entry under a key that is not yet present.
    fn push_entry(&mut self, key: ItemSet, count: usize)
        requires
            old(self).wf(),
            key.wf(),
            forall|i: int| 0 <= i < old(self).entries@.len() ==> old(self).entries@[i].0@ != key@,
        ensures
            final(self).wf(),
            final(self)@ == old(self)@.insert(key@, count as nat),
    {
        let ghost pre = self.entries@;
        let ghost k = key@;
        self.entries.push((key, count));
        proof {
            assert(self.entries@.drop_last() =~= pre);
            assert(self.entries@.last().0@ == k);
        }
    }

    /// Number of entries.
    pub fn len(&self) -> (r: usize)
        requires
            self.wf(),
        ensures
            r == self@.dom().len(),
    {
        proof {
            lemma_map_of_entries(self.entries@);
        }
        self.entries.len()
    }

    /// Whether the table has no entry at all.
    pub fn is_empty(&self) -> (r: bool)
        requires
            self.wf(),
        ensures
            r <==> (self@.dom() =~= Set::<Set<usize>>::empty()),
    {
        proof {
            lemma_map_of_entries(self.entries@);
            if self.entries@.len() > 0 {
                assert(self@.dom().contains(self.entries@[0].0@));
            }
        }
        self.entries.len() == 0
    }

    /// The count recorded for an itemset, if it is present.
    pub fn get(&self, key: &ItemSet) -> (r: Option<usize>)
        requires
            self.wf(),
            key.wf(),
        ensures
            match r {
                Some(c) => self@.dom().contains(key@) && self@[key@] == c as nat,
                None => !self@.dom().contains(key@),
            },
    {
        proof {
            lemma_map_of_entries(self.entries@);
        }
        let mut i: usize = 0;
        while i < self.entries.len()
            invariant
                self.wf(),
                key.wf(),
                i <= self.entries@.len(),
                forall|j: int| 0 <= j < i ==> self.entries@[j].0@ != key@,
            decreases self.entries@.len() - i,
        {
            if self.entries[i].0.equals(key) {
                proof {
                    lemma_map_of_entries(self.entries@);
                }
                return Some(self.entries[i].1);
            }
            i = i + 1;
        }
        proof {
            if self@.dom().contains(key@) {
                let j = choose|j: int|
                    0 <= j < self.entries@.len() && self.entries@[j].0@ == key@;
            }
        }
        None
    }
}

/// Check whether all of a combination's items are present in a transaction's
/// itemset.
pub fn combination_is_in_itemset(itemset: &ItemSet, combination: &ItemSet) -> (r: bool)
    requires
        itemset.wf(),
        combination.wf(),
    ensures
        r == combination@.subset_of(itemset@),
{
    let mut i: usize = 0;
    while i < combination.items.len()
        invariant
            itemset.wf(),
            combination.wf(),
            i <= combination.items@.len(),
            forall|k: int| 0 <= k < i ==> itemset@.contains(#[trigger] combination.items@[k]),
        decreases combination.items@.len() - i,
    {
        if !itemset.contains(combination.items[i]) {
            proof {
                assert(combination.items@.contains(combination.items@[i as int]));
                assert(combination@.contains(combination.items@[i as int]));
            }
            return false;
        }
        i = i + 1;
    }
    proof {
        assert forall|y: usize| combination@.contains(y) implies itemset@.contains(y) by {
            let k = choose|k: int|
                0 <= k < combination.items@.len() && combination.items@[k] == y;
        }
    }
    true
}

/// The number of transactions of `data` containing `candidate` as a subset.
fn count_support(data: &Vec<ItemSet>, candidate: &ItemSet) -> (r: usize)
    requires
        forall|i: int| 0 <= i < data@.len() ==> (#[trigger] data@[i]).wf(),
        candidate.wf(),
    ensures
        r as nat == support_count(views_of(data@), candidate@),
{
    let mut count: usize = 0;
    let mut i: usize = 0;
    while i < data.len()
        invariant
            forall|k: int| 0 <= k < data@.len() ==> (#[trigger] data@[k]).wf(),
            candidate.wf(),
            i <= data@.len(),
            count <= i,
            count as nat == support_count(views_of(data@).take(i as int), candidate@),
        decreases data@.len() - i,
    {
        proof {
            let dv = views_of(data@);
            assert(dv.take(i + 1).drop_last() =~= dv.take(i as int));
            assert(dv.take(i + 1).last() == data@[i as int]@);
        }
        if combination_is_in_itemset(&data[i], candidate) {
            count = count + 1;
        }
        i = i + 1;
    }
    proof {
        assert(views_of(data@).take(data@.len() as int) =~= views_of(data@));
    }
    count
}

/// Remove itemsets with support lower than the minimum support; every other
/// entry keeps its count unchanged.
pub fn prune(supports: &Supports, support_minimum: usize) -> (r: Supports)
    requires
        supports.wf(),
    ensures
        r.wf(),
        r@ == pruned_map(supports@, support_minimum as nat),
{
    let mut out = Supports::new();
    let mut i: usize = 0;
    while i < supports.entries.len()
        invariant
            supports.wf(),
            out.wf(),
            i <= supports.entries@.len(),
            forall|k: Set<usize>|
                #[trigger] out@.dom().contains(k) <==> exists|j: int|
                    0 <= j < i && supports.entries@[j].0@ == k && support_minimum <= supports.entries@[j].1,
            forall|j: int|
                0 <= j < i && support_minimum <= supports.entries@[j].1 ==> out@[
                    #[trigger] supports.entries@[j].0@
                ] == supports.entries@[j].1 as nat,
        decreases supports.entries@.len() - i,
    {
        if support_minimum <= supports.entries[i].1 {
            let key = supports.entries[i].0.duplicate();
            proof {
                assert forall|j: int| 0 <= j < out.entries@.len() implies out.entries@[j].0@
                    != key@ by {
                    assert(out@.dom().contains(out.entries@[j].0@)) by {
                        lemma_map_of_entries(out.entries@);
                    }
                    if out.entries@[j].0@ == key@ {
                        let j2 = choose|j2: int|
                            0 <= j2 < i && supports.entries@[j2].0@ == key@ && support_minimum
                                <= supports.entries@[j2].1;
                    }
                }
            }
            out.push_entry(key, supports.entries[i].1);
        }
        i = i + 1;
    }
    proof {
        lemma_map_of_entries(supports.entries@);
        assert(out@ =~= pruned_map(supports@, support_minimum as nat)) by {
            assert forall|k: Set<usize>| #[trigger]
                out@.dom().contains(k) implies pruned_map(
                supports@,
                support_minimum as nat,
            ).dom().contains(k) && out@[k] == supports@[k] by {
                let j = choose|j: int|
                    0 <= j < supports.entries@.len() && supports.entries@[j].0@ == k
                        && support_minimum <= supports.entries@[j].1;
            }
            assert forall|k: Set<usize>| #[trigger]
                pruned_map(supports@, support_minimum as nat).dom().contains(
                k,
            ) implies out@.dom().contains(k) by {
                let j = choose|j: int|
                    0 <= j < supports.entries@.len() && supports.entries@[j].0@ == k;
                assert(supports@[k] == supports.entries@[j].1 as nat);
            }
        }
    }
    out
}

/// Count the support of each candidate over the dataset and keep those that
/// occur at all and reach the minimum support, each with its exact count.
pub fn solve_supports(data: &Vec<ItemSet>, combinations: &Vec<ItemSet>, support_minimum: usize) -> (r:
    Supports)
    requires
        forall|i: int| 0 <= i < data@.len() ==> (#[trigger] data@[i]).wf(),
        forall|i: int| 0 <= i < combinations@.len() ==> (#[trigger] combinations@[i]).wf(),
        forall|i: int, j: int|
            0 <= i < j < combinations@.len() ==> combinations@[i]@ != combinations@[j]@,
    ensures
        r.wf(),
        r@ == supports_map(views_of(data@), cands(combinations@), support_minimum as nat),
{
    let ghost dv = views_of(data@);
    let mut raw = Supports::new();
    let mut ci: usize = 0;
    while ci < combinations.len()
        invariant
            forall|k: int| 0 <= k < data@.len() ==> (#[trigger] data@[k]).wf(),
            forall|k: int| 0 <= k < combinations@.len() ==> (#[trigger] combinations@[k]).wf(),
            forall|i: int, j: int|
                0 <= i < j < combinations@.len() ==> combinations@[i]@ != combinations@[j]@,
            dv == views_of(data@),
            ci <= combinations@.len(),
            raw.wf(),
            forall|k: Set<usize>|
                #[trigger] raw@.dom().contains(k) <==> exists|j: int|
                    0 <= j < ci && combinations@[j]@ == k && 1 <= support_count(dv, k),
            forall|k: Set<usize>| #[trigger]
                raw@.dom().contains(k) ==> raw@[k] == support_count(dv, k),
        decreases combinations@.len() - ci,
    {
        let count = count_support(data, &combinations[ci]);
        if count >= 1 {
            let key = combinations[ci].duplicate();
            proof {
                assert forall|j: int| 0 <= j < raw.entries@.len() implies raw.entries@[j].0@
                    != key@ by {
                    assert(raw@.dom().contains(raw.entries@[j].0@)) by {
                        lemma_map_of_entries(raw.entries@);
                    }
                    if raw.entries@[j].0@ == key@ {
                        let j2 = choose|j2: int|
                            0 <= j2 < ci && combinations@[j2]@ == key@ && 1 <= support_count(
                                dv,
                                key@,
                            );
                    }
                }
            }
            raw.push_entry(key, count);
            proof {
                assert forall|k: Set<usize>| #[trigger] raw@.dom().contains(k) implies exists|j: int|
                    0 <= j < ci + 1 && combinations@[j]@ == k && 1 <= support_count(dv, k) by {
                    if k == combinations@[ci as int]@ {
                        assert(combinations@[ci as int]@ == k && 1 <= support_count(dv, k));
                    } else {
                        let j = choose|j: int|
                            0 <= j < ci && combinations@[j]@ == k && 1 <= support_count(dv, k);
                    }
                }
            }
        } else {
            proof {
                assert forall|k: Set<usize>| #[trigger] raw@.dom().contains(k) implies exists|j: int|
                    0 <= j < ci + 1 && combinations@[j]@ == k && 1 <= support_count(dv, k) by {
                    let j = choose|j: int|
                        0 <= j < ci && combinations@[j]@ == k && 1 <= support_count(dv, k);
                }
                assert forall|k: Set<usize>|
                    (exists|j: int|
                        0 <= j < ci + 1 && combinations@[j]@ == k && 1 <= support_count(
                            dv,
                            k,
                        )) implies #[trigger] raw@.dom().contains(k) by {
                    let j = choose|j: int|
                        0 <= j < ci + 1 && combinations@[j]@ == k && 1 <= support_count(dv, k);
                    assert(j < ci);
                }
            }
        }
        ci = ci + 1;
    }
    let r = prune(&raw, support_minimum);
    proof {
        assert(r@ =~= supports_map(dv, cands(combinations@), support_minimum as nat)) by {
            assert forall|k: Set<usize>| #[trigger] r@.dom().contains(k) implies supports_map(
                dv,
                cands(combinations@),
                support_minimum as nat,
            ).dom().contains(k) && r@[k] == support_count(dv, k) by {
                assert(cands(combinations@).contains(k));
            }
            assert forall|k: Set<usize>| #[trigger]
                supports_map(dv, cands(combinations@), support_minimum as nat).dom().contains(
                k,
            ) implies r@.dom().contains(k) by {
                let j = choose|j: int|
                    0 <= j < combinations@.len() && combinations@[j]@ == k;
                assert(raw@.dom().contains(k));
            }
        }
    }
    r
}

/// The itemsets of a support table, one per entry.
pub fn extract_itemsets(items: &Supports) -> (r: Vec<ItemSet>)
    requires
        items.wf(),
    ensures
        forall|i: int| 0 <= i < r@.len() ==> (#[trigger] r@[i]).wf(),
        forall|i: int, j: int| 0 <= i < j < r@.len() ==> r@[i]@ != r@[j]@,
        forall|k: Set<usize>| #[trigger]
            items@.dom().contains(k) <==> exists|i: int| 0 <= i < r@.len() && r@[i]@ == k,
{
    proof {
        lemma_map_of_entries(items.entries@);
    }
    let mut r: Vec<ItemSet> = Vec::new();
    let mut i: usize = 0;
    while i < items.entries.len()
        invariant
            items.wf(),
            i <= items.entries@.len(),
            r@.len() == i,
            forall|j: int| 0 <= j < i ==> (#[trigger] r@[j]).wf() && r@[j]@ == items.entries@[j].0@,
        decreases items.entries@.len() - i,
    {
        r.push(items.entries[i].0.duplicate());
        i = i + 1;
    }
    proof {
        lemma_map_of_entries(items.entries@);
        assert forall|k: Set<usize>| #[trigger] items@.dom().contains(k) implies exists|i: int|
            0 <= i < r@.len() && r@[i]@ == k by {
            let j = choose|j: int| 0 <= j < items.entries@.len() && items.entries@[j].0@ == k;
            assert(r@[j]@ == k);
        }
        assert forall|k: Set<usize>|
            (exists|i: int| 0 <= i < r@.len() && r@[i]@ == k) implies #[trigger] items@.dom().contains(
            k,
        ) by {
            let i = choose|i: int| 0 <= i < r@.len() && r@[i]@ == k;
            assert(items.entries@[i].0@ == k);
        }
    }
    r
}

} // verus!
