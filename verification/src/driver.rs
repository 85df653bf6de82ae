//! The level-wise driver: generate candidates of growing size, count their
//! supports, prune by the threshold, and stop at the last level that keeps
//! any itemset.

use crate::combination::all_k_subsets;
use crate::combination::is_k_subset;
use crate::combination::solve_combinations;
use crate::itemset::ItemSet;
use crate::itemset::ItemSetList;
use crate::support::cands;
use crate::support::extract_itemsets;
use crate::support::pruned_map;
use crate::support::solve_supports;
use crate::support::support_count;
use crate::support::supports_map;
use crate::support::views_of;
use crate::support::Supports;
use vstd::prelude::*;
use vstd::set_lib::lemma_len_subset;

verus! {

/// The support table of level `k`: every size-`k` subset of the working
/// items that occurs at all and whose support reaches `min`, with its count.
pub open spec fn level_map(data: Seq<Set<usize>>, working: Set<usize>, k: nat, min: nat) -> Map<
    Set<usize>,
    nat,
> {
    supports_map(data, all_k_subsets(working, k), min)
}

/// The union of the items of all itemsets in a table's domain.
pub open spec fn keys_union(m: Map<Set<usize>, nat>) -> Set<usize> {
    Set::new(|x: usize| exists|c: Set<usize>| #[trigger] m.dom().contains(c) && c.contains(x))
}

/// The union of the items of a list of itemsets.
pub open spec fn items_union(l: Seq<ItemSet>) -> Set<usize> {
    Set::new(|x: usize| exists|i: int| 0 <= i < l.len() && (#[trigger] l[i])@.contains(x))
}

/// The union of the items of all transactions of a dataset.
pub open spec fn dataset_items(data: Seq<Set<usize>>) -> Set<usize> {
    Set::new(|x: usize| exists|i: int| 0 <= i < data.len() && (#[trigger] data[i]).contains(x))
}

/// When a level keeps at least one itemset, the items of its survivors form
/// a subset of the working items that is at least `k` items large.
pub proof fn lemma_level_step(data: Seq<Set<usize>>, working: Set<usize>, k: nat, min: nat)
    requires
        working.finite(),
        !(level_map(data, working, k, min).dom() =~= Set::<Set<usize>>::empty()),
    ensures
        keys_union(level_map(data, working, k, min)).subset_of(working),
        keys_union(level_map(data, working, k, min)).finite(),
        keys_union(level_map(data, working, k, min)).len() <= working.len(),
        k <= keys_union(level_map(data, working, k, min)).len(),
{
    let t = level_map(data, working, k, min);
    let u = keys_union(t);
    assert(exists|c: Set<usize>| t.dom().contains(c)) by {
        if forall|c: Set<usize>| !(#[trigger] t.dom().contains(c)) {
            assert(t.dom() =~= Set::<Set<usize>>::empty());
        }
    }
    let c0 = choose|c: Set<usize>| t.dom().contains(c);
    assert(is_k_subset(c0, working, k));
    assert(u.subset_of(working)) by {
        assert forall|x: usize| u.contains(x) implies working.contains(x) by {
            let c = choose|c: Set<usize>| #[trigger] t.dom().contains(c) && c.contains(x);
            assert(is_k_subset(c, working, k));
        }
    }
    lemma_len_subset(u, working);
    assert(c0.subset_of(u)) by {
        assert forall|x: usize| c0.contains(x) implies u.contains(x) by {
            assert(t.dom().contains(c0) && c0.contains(x));
        }
    }
    lemma_len_subset(c0, u);
}

/// Once the level exceeds the number of working items, no candidate exists
/// and the level keeps nothing.
pub proof fn lemma_level_empty(data: Seq<Set<usize>>, working: Set<usize>, k: nat, min: nat)
    requires
        working.finite(),
        working.len() < k,
    ensures
        level_map(data, working, k, min).dom() =~= Set::<Set<usize>>::empty(),
{
    let t = level_map(data, working, k, min);
    assert forall|c: Set<usize>| !(#[trigger] t.dom().contains(c)) by {
        if t.dom().contains(c) {
            assert(is_k_subset(c, working, k));
            lemma_len_subset(c, working);
        }
    }
}

/// The level-wise loop, one recursive step per level: while level `k` keeps
/// any itemset, its table becomes the accumulated result and the items of
/// its survivors the next working set; otherwise the accumulated result
/// stands. The decreases measure proves termination for every finite
/// dataset: the working set never grows, while a surviving level `k` needs
/// at least `k` working items.
pub open spec fn apriori_from(
    data: Seq<Set<usize>>,
    working: Set<usize>,
    k: nat,
    min: nat,
    acc: Map<Set<usize>, nat>,
) -> Map<Set<usize>, nat>
    decreases working.len() + 1 - k,
        when working.finite() && 1 <= k
{
    let t = level_map(data, working, k, min);
    if t.dom() =~= Set::<Set<usize>>::empty() {
        acc
    } else {
        proof {
            lemma_level_step(data, working, k, min);
        }
        apriori_from(data, keys_union(t), k + 1, min, t)
    }
}

/// The frequent itemsets of a dataset at a threshold: the support table of
/// the last enumeration level that keeps any itemset, starting at level 1
/// from all items of the dataset; empty when level 1 already keeps nothing.
pub open spec fn spec_frequent_itemsets(data: Seq<Set<usize>>, min: nat) -> Map<Set<usize>, nat> {
    apriori_from(data, dataset_items(data), 1, min, Map::<Set<usize>, nat>::empty())
}

/// Get the unique items of a collection of itemsets.
pub fn solve_unique_itemset(itemsets: &ItemSetList) -> (r: ItemSet)
    requires
        forall|i: int| 0 <= i < itemsets@.len() ==> (#[trigger] itemsets@[i]).wf(),
    ensures
        r.wf(),
        r@ == items_union(itemsets@),
{
    let mut r = ItemSet::new();
    let mut i: usize = 0;
    proof {
        assert(r@ =~= items_union(itemsets@.take(0)));
    }
    while i < itemsets.len()
        invariant
            forall|j: int| 0 <= j < itemsets@.len() ==> (#[trigger] itemsets@[j]).wf(),
            i <= itemsets@.len(),
            r.wf(),
            r@ == items_union(itemsets@.take(i as int)),
        decreases itemsets@.len() - i,
    {
        let next = r.union(&itemsets[i]);
        r = next;
        proof {
            assert(items_union(itemsets@.take(i + 1)) =~= items_union(
                itemsets@.take(i as int),
            ).union(itemsets@[i as int]@)) by {
                assert forall|x: usize|
                    items_union(itemsets@.take(i + 1)).contains(x) implies items_union(
                    itemsets@.take(i as int),
                ).union(itemsets@[i as int]@).contains(x) by {
                    let j = choose|j: int|
                        0 <= j < i + 1 && (#[trigger] itemsets@.take(i + 1)[j])@.contains(x);
                    if j < i {
                        assert(itemsets@.take(i as int)[j]@.contains(x));
                    }
                }
                assert forall|x: usize|
                    items_union(itemsets@.take(i as int)).union(
                        itemsets@[i as int]@,
                    ).contains(x) implies items_union(itemsets@.take(i + 1)).contains(x) by {
                    if items_union(itemsets@.take(i as int)).contains(x) {
                        let j = choose|j: int|
                            0 <= j < i && (#[trigger] itemsets@.take(i as int)[j])@.contains(x);
                        assert(itemsets@.take(i + 1)[j]@.contains(x));
                    } else {
                        assert(itemsets@.take(i + 1)[i as int]@.contains(x));
                    }
                }
            }
        }
        i = i + 1;
    }
    proof {
        assert(itemsets@.take(itemsets@.len() as int) =~= itemsets@);
    }
    r
}

/// Transform a jagged array of rows into a dataset of canonical itemsets,
/// deduplicating the items within each row.
pub fn jagged_array_to_itemsetlist(input: &Vec<Vec<usize>>) -> (r: ItemSetList)
    ensures
        r@.len() == input@.len(),
        forall|i: int|
            0 <= i < r@.len() ==> (#[trigger] r@[i]).wf() && r@[i]@ == input@[i]@.to_set(),
{
    let mut r: Vec<ItemSet> = Vec::new();
    let mut i: usize = 0;
    while i < input.len()
        invariant
            i <= input@.len(),
            r@.len() == i,
            forall|j: int|
                0 <= j < i ==> (#[trigger] r@[j]).wf() && r@[j]@ == input@[j]@.to_set(),
        decreases input@.len() - i,
    {
        r.push(ItemSet::from_vec(&input[i]));
        i = i + 1;
    }
    r
}

/// Solve the frequent itemsets of a dataset: the support table of the
/// largest enumeration level that still keeps at least one itemset, empty
/// when the dataset is empty or no candidate at level 1 meets the threshold.
/// Every reported itemset carries its exact support — the number of
/// transactions containing it as a subset, recomputed independently by
/// `support_count` — and that support meets the threshold.
pub fn frequent_itemsets(data: &ItemSetList, support_minimum: usize) -> (result: Supports)
    requires
        forall|i: int| 0 <= i < data@.len() ==> (#[trigger] data@[i]).wf(),
    ensures
        result.wf(),
        result@ == spec_frequent_itemsets(views_of(data@), support_minimum as nat),
        forall|c: Set<usize>| #[trigger]
            result@.dom().contains(c) ==> result@[c] == support_count(views_of(data@), c)
                && support_minimum as nat <= result@[c] && 1 <= result@[c],
{
    let ghost dv = views_of(data@);
    let ghost min = support_minimum as nat;
    let mut result = Supports::new();
    let mut working = solve_unique_itemset(data);
    proof {
        working.lemma_set_len();
        assert(working@ =~= dataset_items(dv)) by {
            assert forall|x: usize| items_union(data@).contains(x) implies dataset_items(
                dv,
            ).contains(x) by {
                let i = choose|i: int| 0 <= i < data@.len() && (#[trigger] data@[i])@.contains(x);
                assert(dv[i].contains(x));
            }
            assert forall|x: usize| dataset_items(dv).contains(x) implies items_union(
                data@,
            ).contains(x) by {
                let i = choose|i: int| 0 <= i < dv.len() && (#[trigger] dv[i]).contains(x);
                assert(data@[i]@.contains(x));
            }
        }
    }
    let ghost goal = spec_frequent_itemsets(dv, min);
    let mut k: usize = 1;
    loop
        invariant_except_break
            apriori_from(dv, working@, k as nat, min, result@) == goal,
        invariant
            forall|i: int| 0 <= i < data@.len() ==> (#[trigger] data@[i]).wf(),
            dv == views_of(data@),
            min == support_minimum as nat,
            working.wf(),
            result.wf(),
            1 <= k,
            working@.finite(),
            k as int <= working@.len() + 1,
            forall|c: Set<usize>| #[trigger]
                result@.dom().contains(c) ==> result@[c] == support_count(dv, c) && min
                    <= result@[c] && 1 <= result@[c],
        ensures
            result.wf(),
            result@ == goal,
            forall|c: Set<usize>| #[trigger]
                result@.dom().contains(c) ==> result@[c] == support_count(dv, c) && min
                    <= result@[c] && 1 <= result@[c],
        decreases working@.len() + 1 - k,
    {
        let combinations = solve_combinations(&working, k);
        let supports = solve_supports(data, &combinations, support_minimum);
        let ghost t = level_map(dv, working@, k as nat, min);
        proof {
            assert(cands(combinations@) =~= all_k_subsets(working@, k as nat)) by {
                assert forall|c: Set<usize>| #[trigger]
                    cands(combinations@).contains(c) implies all_k_subsets(
                    working@,
                    k as nat,
                ).contains(c) by {
                    let i = choose|i: int|
                        0 <= i < combinations@.len() && combinations@[i]@ == c;
                }
                assert forall|c: Set<usize>| #[trigger]
                    all_k_subsets(working@, k as nat).contains(c) implies cands(
                    combinations@,
                ).contains(c) by {
                    assert(is_k_subset(c, working@, k as nat));
                    let i = choose|i: int|
                        0 <= i < combinations@.len() && combinations@[i]@ == c;
                }
            }
            assert(supports@ == t);
        }
        if supports.is_empty() {
            proof {
                assert(t.dom() =~= Set::<Set<usize>>::empty());
                assert(apriori_from(dv, working@, k as nat, min, result@) == result@);
            }
            break;
        }
        proof {
            assert(!(t.dom() =~= Set::<Set<usize>>::empty()));
            lemma_level_step(dv, working@, k as nat, min);
            assert(apriori_from(dv, working@, k as nat, min, result@) == apriori_from(
                dv,
                keys_union(t),
                k as nat + 1,
                min,
                t,
            ));
        }
        result = supports;
        let keys = extract_itemsets(&result);
        working = solve_unique_itemset(&keys);
        proof {
            working.lemma_set_len();
            assert(working@ =~= keys_union(result@)) by {
                assert forall|x: usize| items_union(keys@).contains(x) implies keys_union(
                    result@,
                ).contains(x) by {
                    let i = choose|i: int| 0 <= i < keys@.len() && (#[trigger] keys@[i])@.contains(x);
                    assert(result@.dom().contains(keys@[i]@));
                }
                assert forall|x: usize| keys_union(result@).contains(x) implies items_union(
                    keys@,
                ).contains(x) by {
                    let c = choose|c: Set<usize>| #[trigger]
                        result@.dom().contains(c) && c.contains(x);
                    let i = choose|i: int| 0 <= i < keys@.len() && keys@[i]@ == c;
                    assert(keys@[i]@.contains(x));
                }
            }
            assert(apriori_from(dv, working@, k as nat + 1, min, result@) == goal);
        }
        if working.len() <= k {
            proof {
                lemma_level_empty(dv, working@, k as nat + 1, min);
                assert(apriori_from(dv, working@, k as nat + 1, min, result@) == result@);
            }
            break;
        }
        k = k + 1;
    }
    result
}

/// At any one level, with a working set that has not grown and a raised
/// threshold, the surviving itemsets form a subset of those surviving at the
/// lower threshold, with identical counts, and the items handed to the next
/// level shrink likewise: raising the minimum support never increases the
/// surviving itemsets at any level.
pub proof fn lemma_threshold_monotonic(
    data: Seq<Set<usize>>,
    w1: Set<usize>,
    w2: Set<usize>,
    k: nat,
    min1: nat,
    min2: nat,
)
    requires
        w2.subset_of(w1),
        min1 <= min2,
    ensures
        level_map(data, w2, k, min2).dom().subset_of(level_map(data, w1, k, min1).dom()),
        forall|c: Set<usize>| #[trigger]
            level_map(data, w2, k, min2).dom().contains(c) ==> level_map(data, w2, k, min2)[c]
                == level_map(data, w1, k, min1)[c],
        keys_union(level_map(data, w2, k, min2)).subset_of(
            keys_union(level_map(data, w1, k, min1)),
        ),
{
    let t2 = level_map(data, w2, k, min2);
    let t1 = level_map(data, w1, k, min1);
    assert forall|c: Set<usize>| #[trigger] t2.dom().contains(c) implies t1.dom().contains(c) by {
        assert(is_k_subset(c, w2, k));
        assert(c.subset_of(w1));
    }
    assert forall|x: usize| keys_union(t2).contains(x) implies keys_union(t1).contains(x) by {
        let c = choose|c: Set<usize>| #[trigger] t2.dom().contains(c) && c.contains(x);
        assert(t1.dom().contains(c));
    }
}

/// The working item set at each level of a run, for a fixed dataset and
/// threshold: all items of the dataset at level 1, thereafter the items of
/// the previous level's survivors.
pub open spec fn working_at(data: Seq<Set<usize>>, min: nat, k: nat) -> Set<usize>
    decreases k,
{
    if k <= 1 {
        dataset_items(data)
    } else {
        keys_union(level_map(data, working_at(data, min, (k - 1) as nat), (k - 1) as nat, min))
    }
}

/// The survivors of a level feed only their own items to the next level.
proof fn lemma_keys_union_in_working(data: Seq<Set<usize>>, w: Set<usize>, k: nat, min: nat)
    ensures
        keys_union(level_map(data, w, k, min)).subset_of(w),
{
    assert forall|x: usize|
        keys_union(level_map(data, w, k, min)).contains(x) implies w.contains(x) by {
        let c = choose|c: Set<usize>| #[trigger]
            level_map(data, w, k, min).dom().contains(c) && c.contains(x);
        assert(is_k_subset(c, w, k));
    }
}

/// The working set of every level stays within the items of the dataset.
proof fn lemma_working_at_finite(data: Seq<Set<usize>>, min: nat, k: nat)
    requires
        1 <= k,
        dataset_items(data).finite(),
    ensures
        working_at(data, min, k).finite(),
        working_at(data, min, k).subset_of(dataset_items(data)),
    decreases k,
{
    if k > 1 {
        lemma_working_at_finite(data, min, (k - 1) as nat);
        lemma_keys_union_in_working(
            data,
            working_at(data, min, (k - 1) as nat),
            (k - 1) as nat,
            min,
        );
    }
    lemma_len_subset(working_at(data, min, k), dataset_items(data));
}

/// Threshold monotonicity over a whole run: for a fixed dataset, raising the
/// minimum support never increases the surviving itemsets at any level. At
/// every level `k`, the survivors at the higher threshold form a subset of
/// the survivors at the lower one, each with the same count, so their number
/// never increases.
pub proof fn lemma_threshold_monotonic_run(
    data: Seq<Set<usize>>,
    min1: nat,
    min2: nat,
    k: nat,
)
    requires
        min1 <= min2,
        1 <= k,
        dataset_items(data).finite(),
    ensures
        working_at(data, min2, k).subset_of(working_at(data, min1, k)),
        level_map(data, working_at(data, min2, k), k, min2).dom().subset_of(
            level_map(data, working_at(data, min1, k), k, min1).dom(),
        ),
        forall|c: Set<usize>| #[trigger]
            level_map(data, working_at(data, min2, k), k, min2).dom().contains(c) ==> level_map(
                data,
                working_at(data, min2, k),
                k,
                min2,
            )[c] == level_map(data, working_at(data, min1, k), k, min1)[c],
        level_map(data, working_at(data, min2, k), k, min2).dom().len() <= level_map(
            data,
            working_at(data, min1, k),
            k,
            min1,
        ).dom().len(),
    decreases k,
{
    let w1 = working_at(data, min1, k);
    let w2 = working_at(data, min2, k);
    if k == 1 {
        assert(w2.subset_of(w1));
    } else {
        lemma_threshold_monotonic_run(data, min1, min2, (k - 1) as nat);
        lemma_threshold_monotonic(
            data,
            working_at(data, min1, (k - 1) as nat),
            working_at(data, min2, (k - 1) as nat),
            (k - 1) as nat,
            min1,
            min2,
        );
    }
    lemma_threshold_monotonic(data, w1, w2, k, min1, min2);
    let dom1 = level_map(data, w1, k, min1).dom();
    let dom2 = level_map(data, w2, k, min2).dom();
    lemma_working_at_finite(data, min1, k);
    crate::combination::lemma_k_subsets_finite(w1, k);
    assert(dom1.subset_of(all_k_subsets(w1, k))) by {
        assert forall|c: Set<usize>| dom1.contains(c) implies all_k_subsets(w1, k).contains(
            c,
        ) by {
            assert(is_k_subset(c, w1, k));
        }
    }
    lemma_len_subset(dom1, all_k_subsets(w1, k));
    lemma_len_subset(dom2, dom1);
}

/// Raising the threshold never increases the number of entries that survive
/// the pruning of a support table.
pub proof fn lemma_prune_monotonic(m: Map<Set<usize>, nat>, min1: nat, min2: nat)
    requires
        m.dom().finite(),
        min1 <= min2,
    ensures
        pruned_map(m, min2).dom().subset_of(pruned_map(m, min1).dom()),
        pruned_map(m, min2).dom().len() <= pruned_map(m, min1).dom().len(),
{
    assert(pruned_map(m, min1).dom().subset_of(m.dom()));
    lemma_len_subset(pruned_map(m, min1).dom(), m.dom());
    assert(pruned_map(m, min2).dom().subset_of(pruned_map(m, min1).dom()));
    lemma_len_subset(pruned_map(m, min2).dom(), pruned_map(m, min1).dom());
}

} // verus!
