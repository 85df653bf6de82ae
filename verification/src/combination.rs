//! Enumeration of all fixed-size subsets of an itemset: the candidate
//! generator of the level-wise loop.

use crate::itemset::strictly_increasing;
use crate::itemset::ItemSet;
use vstd::prelude::*;
use vstd::set_lib::lemma_len_subset;

verus! {

broadcast use vstd::seq_lib::seq_to_set_is_finite;

/// `c` is a size-`k` subset of `avail`.
pub open spec fn is_k_subset(c: Set<usize>, avail: Set<usize>, k: nat) -> bool {
    c.finite() && c.subset_of(avail) && c.len() == k
}

/// All size-`k` subsets of `avail`.
pub open spec fn all_k_subsets(avail: Set<usize>, k: nat) -> Set<Set<usize>> {
    Set::new(|c: Set<usize>| is_k_subset(c, avail, k))
}

/// The binomial coefficient: how many size-`k` subsets an `n`-item set has,
/// by Pascal's rule.
pub open spec fn binomial(n: nat, k: nat) -> nat
    decreases n, k,
{
    if k == 0 {
        1
    } else if n == 0 {
        0
    } else {
        binomial((n - 1) as nat, (k - 1) as nat) + binomial((n - 1) as nat, k)
    }
}

/// Fewer items than the subset size leave no subset at all.
proof fn lemma_binomial_zero(n: nat, k: nat)
    requires
        n < k,
    ensures
        binomial(n, k) == 0,
    decreases n,
{
    if n > 0 {
        lemma_binomial_zero((n - 1) as nat, (k - 1) as nat);
        lemma_binomial_zero((n - 1) as nat, k);
    }
}

/// A finite set has finitely many size-`k` subsets.
pub proof fn lemma_k_subsets_finite(avail: Set<usize>, k: nat)
    requires
        avail.finite(),
    ensures
        all_k_subsets(avail, k).finite(),
    decreases avail.len(), k,
{
    if k == 0 {
        let just_empty = Set::<Set<usize>>::empty().insert(Set::<usize>::empty());
        assert(all_k_subsets(avail, 0) =~= just_empty) by {
            assert forall|c: Set<usize>| all_k_subsets(avail, 0).contains(c) implies just_empty.contains(
                c,
            ) by {
                c.lemma_len0_is_empty();
            }
            assert(is_k_subset(Set::<usize>::empty(), avail, 0));
        }
    } else if avail.len() == 0 {
        avail.lemma_len0_is_empty();
        assert(all_k_subsets(avail, k) =~= Set::<Set<usize>>::empty()) by {
            assert forall|c: Set<usize>| !(#[trigger] all_k_subsets(avail, k).contains(c)) by {
                if all_k_subsets(avail, k).contains(c) {
                    lemma_len_subset(c, avail);
                }
            }
        }
    } else {
        assert(exists|x: usize| avail.contains(x)) by {
            if forall|x: usize| !(#[trigger] avail.contains(x)) {
                assert(avail =~= Set::<usize>::empty());
            }
        }
        let x = choose|x: usize| avail.contains(x);
        let rest = avail.remove(x);
        lemma_k_subsets_finite(rest, k);
        lemma_k_subsets_finite(rest, (k - 1) as nat);
        let smaller = all_k_subsets(rest, (k - 1) as nat);
        let mapped = smaller.map(|c: Set<usize>| c.insert(x));
        smaller.lemma_map_finite(|c: Set<usize>| c.insert(x));
        assert(all_k_subsets(avail, k) =~= all_k_subsets(rest, k).union(mapped)) by {
            assert forall|c: Set<usize>| all_k_subsets(avail, k).contains(c) implies all_k_subsets(
                rest,
                k,
            ).union(mapped).contains(c) by {
                if c.contains(x) {
                    let c2 = c.remove(x);
                    assert(c2.subset_of(rest)) by {
                        assert forall|y: usize| c2.contains(y) implies rest.contains(y) by {
                            assert(avail.contains(y));
                        }
                    }
                    assert(is_k_subset(c2, rest, (k - 1) as nat));
                    assert(c2.insert(x) =~= c);
                    assert(smaller.contains(c2) && c2.insert(x) == c);
                } else {
                    assert(c.subset_of(rest)) by {
                        assert forall|y: usize| c.contains(y) implies rest.contains(y) by {
                            assert(avail.contains(y));
                        }
                    }
                    assert(is_k_subset(c, rest, k));
                }
            }
            assert forall|c: Set<usize>|
                all_k_subsets(rest, k).union(mapped).contains(c) implies all_k_subsets(
                avail,
                k,
            ).contains(c) by {
                if all_k_subsets(rest, k).contains(c) {
                    assert(is_k_subset(c, rest, k));
                    assert(c.subset_of(avail));
                } else {
                    let c2 = choose|c2: Set<usize>|
                        #[trigger] smaller.contains(c2) && c2.insert(x) == c;
                    assert(is_k_subset(c2, rest, (k - 1) as nat));
                    assert(!c2.contains(x));
                    assert(c.len() == k);
                    assert(c.subset_of(avail)) by {
                        assert forall|y: usize| c.contains(y) implies avail.contains(y) by {
                            if y != x {
                                assert(rest.contains(y));
                            }
                        }
                    }
                    assert(is_k_subset(c, avail, k));
                }
            }
        }
    }
}

/// The set of items stored at positions `start..` of `items`.
pub open spec fn suffix_items(items: Seq<usize>, start: int) -> Set<usize> {
    items.skip(start).to_set()
}

/// Walking one position into a canonical sequence removes exactly its first
/// item, which is smaller than all the items that remain.
proof fn lemma_suffix_step(items: Seq<usize>, start: int)
    requires
        strictly_increasing(items),
        0 <= start < items.len(),
    ensures
        suffix_items(items, start) == suffix_items(items, start + 1).insert(items[start]),
        !suffix_items(items, start + 1).contains(items[start]),
        forall|y: usize| #[trigger]
            suffix_items(items, start + 1).contains(y) ==> items[start] < y,
{
    let a = items.skip(start);
    let b = items.skip(start + 1);
    assert forall|y: usize| b.to_set().contains(y) implies items[start] < y by {
        let j = choose|j: int| 0 <= j < b.len() && b[j] == y;
        assert(items[start + 1 + j] == y);
    }
    assert(!b.to_set().contains(items[start]));
    assert(a.to_set() =~= b.to_set().insert(items[start])) by {
        assert forall|y: usize| a.to_set().contains(y) implies b.to_set().insert(
            items[start],
        ).contains(y) by {
            let j = choose|j: int| 0 <= j < a.len() && a[j] == y;
            if j > 0 {
                assert(b[j - 1] == items[start + j]);
                assert(b.to_set().contains(y));
            }
        }
        assert forall|y: usize| b.to_set().insert(items[start]).contains(y) implies a.to_set().contains(
            y,
        ) by {
            if y == items[start] {
                assert(a[0] == y);
            } else {
                let j = choose|j: int| 0 <= j < b.len() && b[j] == y;
                assert(a[j + 1] == items[start + 1 + j]);
            }
        }
    }
}

/// A canonical sequence's suffix holds as many items as positions.
proof fn lemma_suffix_card(items: Seq<usize>, start: int)
    requires
        strictly_increasing(items),
        0 <= start <= items.len(),
    ensures
        suffix_items(items, start).finite(),
        suffix_items(items, start).len() == items.len() - start,
{
    let a = items.skip(start);
    assert(a.no_duplicates()) by {
        assert(forall|i: int, j: int| 0 <= i < j < a.len() ==> a[i] < a[j]);
    }
    a.unique_seq_to_set();
}

/// All distinct size-`size` subsets of the items at positions `start..`,
/// each in canonical form: sound, duplicate-free and complete.
fn combos_from(items: &Vec<usize>, start: usize, size: usize) -> (r: Vec<ItemSet>)
    requires
        strictly_increasing(items@),
        start <= items@.len(),
    ensures
        forall|i: int|
            0 <= i < r@.len() ==> (#[trigger] r@[i]).wf() && is_k_subset(
                r@[i]@,
                suffix_items(items@, start as int),
                size as nat,
            ),
        forall|i: int, j: int| 0 <= i < j < r@.len() ==> r@[i]@ != r@[j]@,
        forall|c: Set<usize>|
            is_k_subset(c, suffix_items(items@, start as int), size as nat) ==> exists|i: int|
                0 <= i < r@.len() && r@[i]@ == c,
        r@.len() == binomial((items@.len() - start) as nat, size as nat),
    decreases items@.len() - start,
{
    let ghost suf = suffix_items(items@, start as int);
    if size == 0 {
        let mut r: Vec<ItemSet> = Vec::new();
        r.push(ItemSet::new());
        proof {
            assert(r@[0]@.len() == 0) by {
                assert(r@[0]@ =~= Set::<usize>::empty());
            }
            assert forall|c: Set<usize>| is_k_subset(c, suf, 0nat) implies exists|i: int|
                0 <= i < r@.len() && r@[i]@ == c by {
                c.lemma_len0_is_empty();
                assert(r@[0]@ =~= Set::<usize>::empty());
                assert(r@[0]@ == c);
            }
        }
        return r;
    }
    if items.len() - start < size {
        let r: Vec<ItemSet> = Vec::new();
        proof {
            lemma_binomial_zero((items@.len() - start) as nat, size as nat);
            lemma_suffix_card(items@, start as int);
            assert forall|c: Set<usize>| is_k_subset(c, suf, size as nat) implies exists|i: int|
                0 <= i < r@.len() && r@[i]@ == c by {
                lemma_len_subset(c, suf);
                assert(false);
            }
        }
        return r;
    }
    let x = items[start];
    let tails = combos_from(items, start + 1, size - 1);
    let ghost suf1 = suffix_items(items@, start as int + 1);
    let mut r: Vec<ItemSet> = Vec::new();
    let mut i: usize = 0;
    while i < tails.len()
        invariant
            strictly_increasing(items@),
            start < items@.len(),
            1 <= size,
            x == items@[start as int],
            forall|j: int|
                0 <= j < tails@.len() ==> (#[trigger] tails@[j]).wf() && is_k_subset(
                    tails@[j]@,
                    suffix_items(items@, start as int + 1),
                    (size - 1) as nat,
                ),
            i <= tails@.len(),
            r@.len() == i,
            forall|j: int|
                0 <= j < i ==> (#[trigger] r@[j]).wf() && r@[j]@ == tails@[j]@.insert(
                    items@[start as int],
                ),
        decreases tails@.len() - i,
    {
        proof {
            lemma_suffix_step(items@, start as int);
            assert forall|y: usize| tails@[i as int]@.contains(y) implies x < y by {
                assert(suffix_items(items@, start as int + 1).contains(y));
            }
        }
        let t = tails[i].with_front(x);
        r.push(t);
        i = i + 1;
    }
    let mut rest = combos_from(items, start + 1, size);
    let ghost nfirst = r@.len() as int;
    let ghost rpre = r@;
    let ghost rest0 = rest@;
    r.append(&mut rest);
    proof {
        lemma_suffix_step(items@, start as int);
        assert(r@ == rpre + rest0);
        assert(r@.len() == nfirst + rest0.len());
        // Soundness: every output is a well-formed size-`size` subset.
        assert forall|i: int| 0 <= i < r@.len() implies (#[trigger] r@[i]).wf() && is_k_subset(
            r@[i]@,
            suf,
            size as nat,
        ) by {
            if i < nfirst {
                let t = tails@[i]@;
                assert(r@[i]@ == t.insert(x));
                assert(!t.contains(x));
                assert(t.insert(x).len() == t.len() + 1);
                assert(t.insert(x).subset_of(suf)) by {
                    assert(suf1.subset_of(suf));
                    assert(suf.contains(x));
                }
            } else {
                assert(r@[i] == rest0[i - nfirst]);
                assert(suf1.subset_of(suf));
            }
        }
        // No duplicates.
        assert forall|i: int, j: int| 0 <= i < j < r@.len() implies r@[i]@ != r@[j]@ by {
            if j < nfirst {
                if r@[i]@ == r@[j]@ {
                    assert(tails@[i]@ =~= tails@[i]@.insert(x).remove(x));
                    assert(tails@[j]@ =~= tails@[j]@.insert(x).remove(x));
                    assert(tails@[i]@ == tails@[j]@);
                }
            } else if i >= nfirst {
                assert(r@[i] == rest0[i - nfirst]);
                assert(r@[j] == rest0[j - nfirst]);
            } else {
                assert(r@[i]@.contains(x));
                assert(r@[j] == rest0[j - nfirst]);
                assert(r@[j]@.subset_of(suf1));
                assert(!r@[j]@.contains(x));
            }
        }
        // Completeness: every size-`size` subset of the suffix appears.
        assert forall|c: Set<usize>| is_k_subset(c, suf, size as nat) implies exists|i: int|
            0 <= i < r@.len() && r@[i]@ == c by {
            if c.contains(x) {
                let c2 = c.remove(x);
                assert(c2.subset_of(suf1)) by {
                    assert forall|y: usize| c2.contains(y) implies suf1.contains(y) by {
                        assert(suf.contains(y));
                        assert(y != x);
                    }
                }
                assert(c2.len() == size - 1);
                assert(is_k_subset(c2, suf1, (size - 1) as nat));
                let j = choose|j: int| 0 <= j < tails@.len() && tails@[j]@ == c2;
                assert(r@[j]@ == c2.insert(x));
                assert(c2.insert(x) =~= c);
                assert(r@[j]@ == c);
            } else {
                assert(c.subset_of(suf1)) by {
                    assert forall|y: usize| c.contains(y) implies suf1.contains(y) by {
                        assert(suf.contains(y));
                        assert(y != x);
                    }
                }
                assert(is_k_subset(c, suf1, size as nat));
                let j = choose|j: int| 0 <= j < rest0.len() && rest0[j]@ == c;
                assert(r@[nfirst + j]@ == c);
            }
        }
    }
    r
}

/// All distinct size-`size` subsets of `itemset`, each an itemset of its own.
/// When `size` exceeds the number of available items the result is empty.
pub fn solve_combinations(itemset: &ItemSet, size: usize) -> (r: Vec<ItemSet>)
    requires
        itemset.wf(),
    ensures
        forall|i: int|
            0 <= i < r@.len() ==> (#[trigger] r@[i]).wf() && is_k_subset(
                r@[i]@,
                itemset@,
                size as nat,
            ),
        forall|i: int, j: int| 0 <= i < j < r@.len() ==> r@[i]@ != r@[j]@,
        forall|c: Set<usize>|
            is_k_subset(c, itemset@, size as nat) ==> exists|i: int|
                0 <= i < r@.len() && r@[i]@ == c,
        r@.len() == binomial(itemset@.len(), size as nat),
{
    proof {
        assert(itemset.items@.skip(0) =~= itemset.items@);
        assert(suffix_items(itemset.items@, 0) == itemset@);
        itemset.lemma_set_len();
    }
    let r = combos_from(&itemset.items, 0, size);
    proof {
        assert forall|c: Set<usize>| is_k_subset(c, itemset@, size as nat) implies exists|i: int|
            0 <= i < r@.len() && r@[i]@ == c by {
            assert(is_k_subset(c, suffix_items(itemset.items@, 0), size as nat));
        }
    }
    r
}

} // verus!
