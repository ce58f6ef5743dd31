//! The solver: dominance filtering over candidate packages, search seeding
//! from rarely-covered items, and a best-first search over package
//! combinations that returns a covering selection, cheapest first and with
//! fewer packages on a price tie.

use vstd::prelude::*;
use vstd::arithmetic::power2::{lemma_pow2_pos, lemma_pow2_unfold, pow2};
use crate::catalog::{Catalog, MAX_PACKAGES};
use crate::itemset::ItemSet;
use crate::models::{SolveError, SolveRequest, Solution};
use crate::resolver::{resolve_required, resolved_items};

verus! {

/// An item with at most this many covering packages counts as rare, and the
/// search is seeded from the packages covering it.
pub const RARITY_THRESHOLD: usize = 4;

/// The union of the coverage of the packages in `pkgs`.
pub open spec fn cover_of_seq(cat: Catalog, pkgs: Seq<usize>) -> Set<int> {
    Set::new(
        |it: int|
            exists|k: int|
                0 <= k < pkgs.len() && cat.covers((#[trigger] pkgs[k]) as int, it),
    )
}

/// The summed price of the packages in `pkgs` under the billing mode, with
/// multiplicity.
pub open spec fn price_of_seq(cat: Catalog, pkgs: Seq<usize>, monthly: bool) -> int
    decreases pkgs.len(),
{
    if pkgs.len() == 0 {
        0
    } else {
        price_of_seq(cat, pkgs.drop_last(), monthly) + cat.mode_price(
            pkgs.last() as int,
            monthly,
        )
    }
}

/// Is every package in `pkgs` priced under the billing mode?
pub open spec fn pkgs_eligible(cat: Catalog, pkgs: Seq<usize>, monthly: bool) -> bool {
    forall|k: int| 0 <= k < pkgs.len() ==> cat.mode_eligible((#[trigger] pkgs[k]) as int, monthly)
}

/// The coverage of package id `id` restricted to the required items.
pub open spec fn restricted_cover(cat: Catalog, id: int, required: Set<int>) -> Set<int> {
    Set::new(|it: int| cat.covers(id, it) && required.contains(it))
}

/// Does `x` dominate `y`: restricted coverage at least as large, price no
/// higher, both under the active billing mode?
pub open spec fn dominates(cat: Catalog, required: Set<int>, x: int, y: int, monthly: bool) -> bool {
    restricted_cover(cat, y, required).subset_of(restricted_cover(cat, x, required))
        && cat.mode_price(x, monthly) <= cat.mode_price(y, monthly)
}

/// Is candidate `c` kept against the already-kept list: no kept candidate
/// dominates it?
pub open spec fn keeps(
    cat: Catalog,
    required: Set<int>,
    kept: Seq<usize>,
    c: usize,
    monthly: bool,
) -> bool {
    forall|k: int|
        0 <= k < kept.len() ==> !dominates(cat, required, (#[trigger] kept[k]) as int, c as int, monthly)
}

/// The dominance filter as a fold: walk the input in its given order and
/// keep a candidate exactly when no earlier-kept candidate dominates it.
pub open spec fn filter_fold(
    cat: Catalog,
    required: Set<int>,
    input: Seq<usize>,
    monthly: bool,
) -> Seq<usize>
    decreases input.len(),
{
    if input.len() == 0 {
        Seq::empty()
    } else {
        let prefix = filter_fold(cat, required, input.drop_last(), monthly);
        if keeps(cat, required, prefix, input.last(), monthly) {
            prefix.push(input.last())
        } else {
            prefix
        }
    }
}

/// Every discarded candidate has a kept dominator, and the kept candidates
/// all come from the input.
pub open spec fn filter_justified(
    cat: Catalog,
    required: Set<int>,
    input: Seq<usize>,
    kept: Seq<usize>,
    monthly: bool,
) -> bool {
    &&& forall|k: int| 0 <= k < kept.len() ==> input.contains(#[trigger] kept[k])
    &&& forall|p: usize|
        input.contains(p) && !kept.contains(p) ==> exists|x: usize|
            kept.contains(x) && dominates(cat, required, x as int, p as int, monthly)
}

/// A candidate partial solution of the best-first search: the chosen
/// packages, their summed price, their count, the next catalog index the
/// state may extend with, and the union of their coverage.
struct Subset {
    packages: Vec<usize>,
    price: u64,
    count_packages: usize,
    start_idx: usize,
    covered: ItemSet,
}

/// The search-state invariant: the covered set is exactly the union of the
/// chosen packages' coverage, the price their summed mode price, and the
/// chain depth is bounded by the next eligible index.
spec fn state_inv(cat: Catalog, s: Subset, n_consider: int, monthly: bool) -> bool {
    &&& s.covered@ == cover_of_seq(cat, s.packages@)
    &&& pkgs_eligible(cat, s.packages@, monthly)
    &&& s.price == price_of_seq(cat, s.packages@, monthly)
    &&& s.count_packages == s.packages@.len()
    &&& s.packages@.len() <= 1 + s.start_idx
    &&& s.start_idx <= n_consider
}

/// Ascending (price, package count) order.
spec fn lex_le(a: Subset, b: Subset) -> bool {
    a.price < b.price || (a.price == b.price && a.count_packages <= b.count_packages)
}

/// The price of package id `id` under the billing mode.
fn pkg_mode_price(cat: &Catalog, id: usize, monthly: bool) -> (r: u32)
    requires
        cat.wf(),
        cat.mode_eligible(id as int, monthly),
    ensures
        r == cat.mode_price(id as int, monthly),
{
    match cat.pkg_of_id[id] {
        Some(j) => {
            if monthly {
                cat.packages[j].monthly_price_cents.unwrap()
            } else {
                cat.packages[j].monthly_price_yearly_subscription_in_cents.unwrap()
            }
        },
        None => {
            proof {
                assert(false);
            }
            0
        },
    }
}

/// Removes and returns a queue state that is minimal in ascending
/// (price, package count) order; the earliest such state on a tie.
fn pop_min(heap: &mut Vec<Subset>) -> (r: Option<Subset>)
    ensures
        old(heap)@.len() == 0 ==> r is None && final(heap)@ == old(heap)@,
        old(heap)@.len() > 0 ==> match r {
            Some(s) => exists|i: int|
                0 <= i < old(heap)@.len() && s == old(heap)@[i] && final(heap)@ == old(
                    heap,
                )@.remove(i) && (forall|j: int|
                    0 <= j < old(heap)@.len() ==> lex_le(s, #[trigger] old(heap)@[j])),
            None => false,
        },
{
    if heap.len() == 0 {
        return None;
    }
    let mut best: usize = 0;
    let mut j: usize = 1;
    while j < heap.len()
        invariant
            heap@ == old(heap)@,
            heap@.len() > 0,
            best < j,
            j <= heap@.len(),
            forall|j2: int| 0 <= j2 < j ==> lex_le(heap@[best as int], #[trigger] heap@[j2]),
        decreases heap@.len() - j,
    {
        if heap[j].price < heap[best].price || (heap[j].price == heap[best].price
            && heap[j].count_packages < heap[best].count_packages) {
            best = j;
        }
        j = j + 1;
    }
    let s = heap.remove(best);
    Some(s)
}

/// Walks the candidates in their given order and discards each whose
/// coverage of the required items is subsumed, at no lower price, by an
/// earlier kept candidate.
pub fn discard_packages_which_cover_same_games(
    required_games: &ItemSet,
    packages: &mut Vec<usize>,
    cat: &Catalog,
    monthly: bool,
)
    requires
        cat.wf(),
        pkgs_eligible(*cat, old(packages)@, monthly),
    ensures
        final(packages)@ == filter_fold(*cat, required_games@, old(packages)@, monthly),
        filter_justified(*cat, required_games@, old(packages)@, final(packages)@, monthly),
        pkgs_eligible(*cat, final(packages)@, monthly),
        final(packages)@.len() <= old(packages)@.len(),
{
    let ghost input = packages@;
    let mut kept: Vec<usize> = Vec::new();
    let mut n: usize = 0;
    while n < packages.len()
        invariant
            cat.wf(),
            packages@ == input,
            pkgs_eligible(*cat, input, monthly),
            n <= input.len(),
            kept@.len() <= n,
            kept@ == filter_fold(*cat, required_games@, input.take(n as int), monthly),
            pkgs_eligible(*cat, kept@, monthly),
            forall|k: int| 0 <= k < kept@.len() ==> input.contains(#[trigger] kept@[k]),
            forall|p: usize|
                (exists|n2: int| 0 <= n2 < n && input[n2] == p) && !kept@.contains(p)
                    ==> exists|x: usize|
                    kept@.contains(x) && dominates(
                        *cat,
                        required_games@,
                        x as int,
                        p as int,
                        monthly,
                    ),
        decreases input.len() - n,
    {
        let pid = packages[n];
        let mut covp = cat.coverage[pid].clone();
        covp.intersect_with(required_games);
        proof {
            assert(covp@ =~= restricted_cover(*cat, pid as int, required_games@));
        }
        let pid_price = pkg_mode_price(cat, pid, monthly);
        let mut dominated = false;
        let mut m: usize = 0;
        while m < kept.len()
            invariant
                cat.wf(),
                pkgs_eligible(*cat, kept@, monthly),
                cat.mode_eligible(pid as int, monthly),
                m <= kept@.len(),
                covp@ == restricted_cover(*cat, pid as int, required_games@),
                pid_price == cat.mode_price(pid as int, monthly),
                dominated ==> exists|x: usize|
                    kept@.contains(x) && dominates(
                        *cat,
                        required_games@,
                        x as int,
                        pid as int,
                        monthly,
                    ),
                !dominated ==> forall|m2: int|
                    0 <= m2 < m ==> !dominates(
                        *cat,
                        required_games@,
                        (#[trigger] kept@[m2]) as int,
                        pid as int,
                        monthly,
                    ),
            decreases kept@.len() - m,
        {
            let kid = kept[m];
            let mut covk = cat.coverage[kid].clone();
            covk.intersect_with(required_games);
            proof {
                assert(covk@ =~= restricted_cover(*cat, kid as int, required_games@));
            }
            let kid_price = pkg_mode_price(cat, kid, monthly);
            if covp.is_subset(&covk) && pid_price >= kid_price {
                proof {
                    assert(kept@.contains(kept@[m as int]));
                    assert(dominates(*cat, required_games@, kid as int, pid as int, monthly));
                }
                dominated = true;
            }
            m = m + 1;
        }
        proof {
            assert(dominated == !keeps(*cat, required_games@, kept@, pid, monthly)) by {
                if dominated {
                    let x = choose|x: usize|
                        kept@.contains(x) && dominates(
                            *cat,
                            required_games@,
                            x as int,
                            pid as int,
                            monthly,
                        );
                    let k2 = choose|k2: int| 0 <= k2 < kept@.len() && kept@[k2] == x;
                    assert(kept@[k2] == x);
                }
            }
        }
        let ghost pre_kept = kept@;
        if !dominated {
            kept.push(pid);
        }
        proof {
            assert(input.take(n as int + 1).drop_last() =~= input.take(n as int));
            assert(input.take(n as int + 1).last() == pid);
            assert(kept@ == filter_fold(*cat, required_games@, input.take(n as int + 1), monthly));
        }
        proof {
            assert forall|p: usize|
                (exists|n2: int| 0 <= n2 < n + 1 && input[n2] == p) && !kept@.contains(p) implies
                exists|x: usize|
                    kept@.contains(x) && dominates(
                        *cat,
                        required_games@,
                        x as int,
                        p as int,
                        monthly,
                    ) by {
                let n2 = choose|n2: int| 0 <= n2 < n + 1 && input[n2] == p;
                if !dominated {
                    assert(kept@ == pre_kept.push(pid));
                    assert(kept@[kept@.len() - 1] == pid);
                    if n2 == n {
                        assert(kept@.contains(p));
                        assert(false);
                    } else {
                        assert(!pre_kept.contains(p)) by {
                            if pre_kept.contains(p) {
                                let k2 = choose|k2: int|
                                    0 <= k2 < pre_kept.len() && pre_kept[k2] == p;
                                assert(kept@[k2] == p);
                                assert(false);
                            }
                        }
                        let x = choose|x: usize|
                            pre_kept.contains(x) && dominates(
                                *cat,
                                required_games@,
                                x as int,
                                p as int,
                                monthly,
                            );
                        let k2 = choose|k2: int| 0 <= k2 < pre_kept.len() && pre_kept[k2] == x;
                        assert(kept@[k2] == x);
                        assert(kept@.contains(x));
                    }
                } else {
                    if n2 == n {
                        let x = choose|x: usize|
                            kept@.contains(x) && dominates(
                                *cat,
                                required_games@,
                                x as int,
                                pid as int,
                                monthly,
                            );
                        assert(kept@.contains(x));
                    }
                }
            }
            if !dominated {
                assert(input.contains(input[n as int]));
                assert forall|k: int|
                    0 <= k < kept@.len() implies input.contains(#[trigger] kept@[k]) by {
                    if k < pre_kept.len() {
                        assert(kept@[k] == pre_kept[k]);
                    } else {
                        assert(kept@[k] == pid);
                        assert(input[n as int] == pid);
                    }
                }
            }
        }
        n = n + 1;
    }
    proof {
        assert(input.take(input.len() as int) =~= input);
        assert forall|p: usize|
            input.contains(p) && !kept@.contains(p) implies exists|x: usize|
            kept@.contains(x) && dominates(*cat, required_games@, x as int, p as int, monthly) by {
            let n2 = choose|n2: int| 0 <= n2 < input.len() && input[n2] == p;
            assert(exists|n3: int| 0 <= n3 < input.len() && input[n3] == p);
        }
    }
    *packages = kept;
}

/// The number of descendants a state can still spawn, used as the
/// termination measure of the search: a state with next index `k` weighs
/// `pow2(n - k)`, more than all its children together.
spec fn state_weight(s: Subset, n: nat) -> nat {
    if s.start_idx <= n {
        pow2((n - s.start_idx) as nat)
    } else {
        1
    }
}

spec fn heap_measure(h: Seq<Subset>, n: nat) -> nat
    decreases h.len(),
{
    if h.len() == 0 {
        0
    } else {
        heap_measure(h.drop_last(), n) + state_weight(h.last(), n)
    }
}

proof fn lemma_measure_push(h: Seq<Subset>, s: Subset, n: nat)
    ensures
        heap_measure(h.push(s), n) == heap_measure(h, n) + state_weight(s, n),
{
    assert(h.push(s).drop_last() =~= h);
    assert(h.push(s).last() == s);
}

proof fn lemma_measure_remove(h: Seq<Subset>, i: int, n: nat)
    requires
        0 <= i < h.len(),
    ensures
        heap_measure(h.remove(i), n) + state_weight(h[i], n) == heap_measure(h, n),
    decreases h.len(),
{
    if i == h.len() - 1 {
        assert(h.remove(i) =~= h.drop_last());
    } else {
        assert(h.remove(i).drop_last() =~= h.drop_last().remove(i));
        assert(h.remove(i).last() == h.last());
        lemma_measure_remove(h.drop_last(), i, n);
    }
}

/// Cumulative prices stay within `len * u32::MAX`.
proof fn lemma_price_bound(cat: Catalog, pkgs: Seq<usize>, monthly: bool)
    requires
        pkgs_eligible(cat, pkgs, monthly),
    ensures
        0 <= price_of_seq(cat, pkgs, monthly) <= pkgs.len() * 0xFFFF_FFFF,
    decreases pkgs.len(),
{
    if pkgs.len() == 0 {
    } else {
        assert(pkgs_eligible(cat, pkgs.drop_last(), monthly)) by {
            assert forall|k: int|
                0 <= k < pkgs.drop_last().len() implies cat.mode_eligible(
                (#[trigger] pkgs.drop_last()[k]) as int,
                monthly,
            ) by {
                assert(pkgs.drop_last()[k] == pkgs[k]);
            }
        }
        lemma_price_bound(cat, pkgs.drop_last(), monthly);
    }
}

fn clone_usizes(v: &Vec<usize>) -> (r: Vec<usize>)
    ensures
        r@ == v@,
{
    let mut r: Vec<usize> = Vec::new();
    let mut k: usize = 0;
    while k < v.len()
        invariant
            k <= v@.len(),
            r@ == v@.subrange(0, k as int),
        decreases v@.len() - k,
    {
        r.push(v[k]);
        k = k + 1;
    }
    proof {
        assert(r@ =~= v@);
    }
    r
}

proof fn lemma_beaters_survive_pop(
    cat: Catalog,
    required: Set<int>,
    kept: Seq<usize>,
    heap0: Seq<Subset>,
    heap: Seq<Subset>,
    cur: Subset,
    monthly: bool,
)
    requires
        singleton_beaters_present(cat, required, kept, heap0, monthly),
        !required.subset_of(cur.covered@),
        exists|i: int| 0 <= i < heap0.len() && cur == heap0[i] && heap == heap0.remove(i),
    ensures
        singleton_beaters_present(cat, required, kept, heap, monthly),
{
    assert forall|j: int|
        0 <= j < kept.len() && required.subset_of(cat.coverage@[(#[trigger] kept[j]) as int]@)
            implies exists|idx: int|
        0 <= idx < heap.len() && required.subset_of((#[trigger] heap[idx]).covered@) && (
        heap[idx].price < cat.mode_price(kept[j] as int, monthly) || (heap[idx].price
            == cat.mode_price(kept[j] as int, monthly) && heap[idx].count_packages <= 1)) by {
        let w = choose|idx: int|
            0 <= idx < heap0.len() && required.subset_of((#[trigger] heap0[idx]).covered@) && (
            heap0[idx].price < cat.mode_price(kept[j] as int, monthly) || (heap0[idx].price
                == cat.mode_price(kept[j] as int, monthly) && heap0[idx].count_packages <= 1));
        let i = choose|i: int| 0 <= i < heap0.len() && cur == heap0[i] && heap == heap0.remove(i);
        assert(w != i);
        if w < i {
            assert(heap[w] == heap0[w]);
        } else {
            assert(heap[w - 1] == heap0[w]);
        }
    }
}

/// A returned covering state beats every single covering eligible
/// candidate in ascending (price, count) order.
proof fn lemma_return_beats_singletons(
    cat: Catalog,
    required: Set<int>,
    input: Seq<usize>,
    kept: Seq<usize>,
    heap0: Seq<Subset>,
    cur: Subset,
    monthly: bool,
)
    requires
        cat.wf(),
        filter_justified(cat, required, input, kept, monthly),
        singleton_beaters_present(cat, required, kept, heap0, monthly) || (cur.price == 0
            && cur.count_packages == 0),
        forall|j: int| 0 <= j < heap0.len() ==> lex_le(cur, #[trigger] heap0[j]),
    ensures
        forall|p: usize|
            input.contains(p) && cat.mode_eligible(p as int, monthly) && required.subset_of(
                cat.coverage@[p as int]@,
            ) ==> cur.price < cat.mode_price(p as int, monthly) || (cur.price == cat.mode_price(
                p as int,
                monthly,
            ) && cur.count_packages <= 1),
{
    assert forall|p: usize|
        input.contains(p) && cat.mode_eligible(p as int, monthly) && required.subset_of(
            cat.coverage@[p as int]@,
        ) implies cur.price < cat.mode_price(p as int, monthly) || (cur.price == cat.mode_price(
        p as int,
        monthly,
    ) && cur.count_packages <= 1) by {
        let x: usize = if kept.contains(p) {
            p
        } else {
            choose|x: usize| kept.contains(x) && dominates(cat, required, x as int, p as int, monthly)
        };
        assert(kept.contains(x));
        assert(cat.mode_price(x as int, monthly) <= cat.mode_price(p as int, monthly));
        assert(required.subset_of(cat.coverage@[x as int]@)) by {
            if x != p {
                assert forall|it2: int|
                    required.contains(it2) implies cat.coverage@[x as int]@.contains(it2) by {
                    assert(cat.covers(p as int, it2));
                    assert(restricted_cover(cat, p as int, required).contains(it2));
                    assert(restricted_cover(cat, x as int, required).contains(it2));
                }
            }
        }
        if singleton_beaters_present(cat, required, kept, heap0, monthly) {
            let j = choose|j: int| 0 <= j < kept.len() && kept[j] == x;
            assert(required.subset_of(cat.coverage@[(kept[j]) as int]@));
            let w = choose|idx: int|
                0 <= idx < heap0.len() && required.subset_of((#[trigger] heap0[idx]).covered@) && (
                heap0[idx].price < cat.mode_price(kept[j] as int, monthly) || (heap0[idx].price
                    == cat.mode_price(kept[j] as int, monthly) && heap0[idx].count_packages <= 1));
            assert(lex_le(cur, heap0[w]));
        }
    }
}

/// The best-first search: from seed states over packages covering rare
/// required items, repeatedly extends the cheapest unexplored state with
/// candidates at later catalog indices, pruning a state whose exact covered
/// set was already reached at no higher price, until a state covers the
/// required set.  Returns its package list, or `None` when the queue is
/// exhausted.
#[verifier::rlimit(100)]
pub fn find_minimal_packages(
    required_games: &ItemSet,
    cat: &Catalog,
    consider_packages: Vec<usize>,
    monthly: bool,
) -> (r: Option<Vec<usize>>)
    requires
        cat.wf(),
        consider_packages@.len() < MAX_PACKAGES,
        pkgs_eligible(*cat, consider_packages@, monthly),
    ensures
        match r {
            Some(pkgs) => required_games@.subset_of(cover_of_seq(*cat, pkgs@)) && pkgs_eligible(
                *cat,
                pkgs@,
                monthly,
            ) && from_candidates_or_seeds(*cat, required_games@, consider_packages@, pkgs@, monthly),
            None => true,
        },
        required_games@ == Set::<int>::empty() ==> r is Some && r->Some_0@ == Seq::<
            usize,
        >::empty(),
        r is None ==> forall|p: usize|
            consider_packages@.contains(p) && cat.mode_eligible(p as int, monthly)
                ==> !required_games@.subset_of(cat.coverage@[p as int]@),
        r matches Some(pkgs) ==> forall|p: usize|
            consider_packages@.contains(p) && cat.mode_eligible(p as int, monthly)
                && required_games@.subset_of(cat.coverage@[p as int]@) ==> price_of_seq(
                *cat,
                pkgs@,
                monthly,
            ) < cat.mode_price(p as int, monthly) || (price_of_seq(*cat, pkgs@, monthly)
                == cat.mode_price(p as int, monthly) && pkgs@.len() <= 1),
{
    let ghost input0 = consider_packages@;
    let mut consider = clone_usizes(&consider_packages);
    discard_packages_which_cover_same_games(required_games, &mut consider, cat, monthly);
    let n = consider.len();
    let mut heap: Vec<Subset> = Vec::new();
    let req_items = required_games.to_vec();
    let mut t: usize = 0;
    while t < req_items.len()
        invariant
            cat.wf(),
            n == consider@.len(),
            n < MAX_PACKAGES,
            t <= req_items@.len(),
            forall|a: int| 0 <= a < req_items@.len() ==> required_games@.contains(
                #[trigger] req_items@[a] as int,
            ),
            required_games@ == Set::<int>::empty() ==> heap@.len() == 0,
            pkgs_eligible(*cat, consider@, monthly),
            forall|idx: int| 0 <= idx < heap@.len() ==> (#[trigger] heap@[idx]).start_idx == 0,
            heap@.len() > 0 ==> singleton_beaters_present(
                *cat,
                required_games@,
                consider@,
                heap@,
                monthly,
            ),
            forall|idx: int|
                0 <= idx < heap@.len() ==> state_inv(*cat, #[trigger] heap@[idx], n as int, monthly),
            forall|idx: int|
                0 <= idx < heap@.len() ==> from_candidates_or_seeds(
                    *cat,
                    required_games@,
                    input0,
                    (#[trigger] heap@[idx]).packages@,
                    monthly,
                ),
        decreases req_items@.len() - t,
    {
        let item = req_items[t];
        let mut count: usize = 0;
        let mut id: usize = 0;
        proof {
            assert(Set::new(
                |id2: int|
                    0 <= id2 < 0 && cat.mode_eligible(id2, monthly)
                        && cat.coverage@[id2]@.contains(item as int),
            ) =~= Set::<int>::empty());
        }
        while id < cat.coverage.len()
            invariant
                cat.wf(),
                id <= cat.coverage@.len(),
                count <= id,
                Set::new(
                    |id2: int|
                        0 <= id2 < id && cat.mode_eligible(id2, monthly)
                            && cat.coverage@[id2]@.contains(item as int),
                ).finite(),
                count == Set::new(
                    |id2: int|
                        0 <= id2 < id && cat.mode_eligible(id2, monthly)
                            && cat.coverage@[id2]@.contains(item as int),
                ).len(),
            decreases cat.coverage@.len() - id,
        {
            let counted = match cat.pkg_of_id[id] {
                Some(j) => {
                    if monthly {
                        cat.packages[j].monthly_price_cents.is_some()
                    } else {
                        cat.packages[j].monthly_price_yearly_subscription_in_cents.is_some()
                    }
                },
                None => false,
            };
            proof {
                assert(counted == cat.mode_eligible(id as int, monthly));
            }
            let ghost sofar = Set::new(
                |id2: int|
                    0 <= id2 < id && cat.mode_eligible(id2, monthly)
                        && cat.coverage@[id2]@.contains(item as int),
            );
            let ghost next = Set::new(
                |id2: int|
                    0 <= id2 < id + 1 && cat.mode_eligible(id2, monthly)
                        && cat.coverage@[id2]@.contains(item as int),
            );
            if counted && cat.coverage[id].contains(item) {
                proof {
                    assert(next =~= sofar.insert(id as int));
                    assert(!sofar.contains(id as int));
                }
                count = count + 1;
            } else {
                proof {
                    assert(next =~= sofar);
                }
            }
            id = id + 1;
        }
        proof {
            assert(Set::new(
                |id2: int|
                    0 <= id2 < cat.coverage@.len() && cat.mode_eligible(id2, monthly)
                        && cat.coverage@[id2]@.contains(item as int),
            ) =~= eligible_coverers(*cat, item as int, monthly));
        }
        if count <= RARITY_THRESHOLD {
            let mut id: usize = 0;
            while id < cat.coverage.len()
                invariant
                    cat.wf(),
                    n == consider@.len(),
                    n < MAX_PACKAGES,
                    id <= cat.coverage@.len(),
                    required_games@.contains(item as int),
                    rare_item(*cat, item as int, monthly),
                    required_games@ == Set::<int>::empty() ==> heap@.len() == 0,
                    pkgs_eligible(*cat, consider@, monthly),
                    forall|idx: int|
                        0 <= idx < heap@.len() ==> (#[trigger] heap@[idx]).start_idx == 0,
                    forall|j: int|
                        0 <= j < consider@.len() && required_games@.subset_of(
                            cat.coverage@[(#[trigger] consider@[j]) as int]@,
                        ) && (consider@[j] as int) < id ==> exists|idx: int|
                            0 <= idx < heap@.len() && required_games@.subset_of(
                                (#[trigger] heap@[idx]).covered@,
                            ) && (heap@[idx].price < cat.mode_price(
                                consider@[j] as int,
                                monthly,
                            ) || (heap@[idx].price == cat.mode_price(consider@[j] as int, monthly)
                                && heap@[idx].count_packages <= 1)),
                    forall|idx: int|
                        0 <= idx < heap@.len() ==> state_inv(
                            *cat,
                            #[trigger] heap@[idx],
                            n as int,
                            monthly,
                        ),
                    forall|idx: int|
                        0 <= idx < heap@.len() ==> from_candidates_or_seeds(
                            *cat,
                            required_games@,
                            input0,
                            (#[trigger] heap@[idx]).packages@,
                            monthly,
                        ),
                decreases cat.coverage@.len() - id,
            {
                let priced = match cat.pkg_of_id[id] {
                    Some(j) => {
                        if monthly {
                            cat.packages[j].monthly_price_cents.is_some()
                        } else {
                            cat.packages[j].monthly_price_yearly_subscription_in_cents.is_some()
                        }
                    },
                    None => false,
                };
                proof {
                    assert(priced == cat.mode_eligible(id as int, monthly));
                }
                let ghost heap_before = heap@;
                let hit = priced && cat.coverage[id].contains(item);
                if hit {
                    proof {
                        assert(cat.mode_eligible(id as int, monthly));
                        assert(rare_item(*cat, item as int, monthly));
                        assert(cat.covers(id as int, item as int));
                        assert(seed_coverer(*cat, required_games@, id, monthly));
                    }
                    let price = pkg_mode_price(cat, id, monthly);
                    let single_covered = cat.coverage[id].clone();
                    let mut pkgs1: Vec<usize> = Vec::new();
                    pkgs1.push(id);
                    let st = Subset {
                        packages: pkgs1,
                        price: price as u64,
                        count_packages: 1,
                        start_idx: 0,
                        covered: single_covered,
                    };
                    proof {
                        assert(st.packages@.drop_last() =~= Seq::<usize>::empty());
                        assert(st.covered@ =~= cover_of_seq(*cat, st.packages@)) by {
                            assert forall|it2: int| #[trigger] cover_of_seq(
                                *cat,
                                st.packages@,
                            ).contains(it2) implies st.covered@.contains(it2) by {
                                let k = choose|k: int|
                                    0 <= k < st.packages@.len() && cat.covers(
                                        (#[trigger] st.packages@[k]) as int,
                                        it2,
                                    );
                                assert(st.packages@[k] == id);
                            }
                            assert forall|it2: int| #[trigger] st.covered@.contains(it2) implies
                                cover_of_seq(*cat, st.packages@).contains(it2) by {
                                assert(cat.covers(id as int, it2));
                                assert(st.packages@[0] == id);
                            }
                        }
                        assert(st.packages@.len() == 1 && st.packages@.last() == id);
                        assert(price_of_seq(*cat, Seq::<usize>::empty(), monthly) == 0);
                        assert(price_of_seq(*cat, st.packages@, monthly) == cat.mode_price(
                            id as int,
                            monthly,
                        ));
                        assert(pkgs_eligible(*cat, st.packages@, monthly)) by {
                            assert forall|k: int|
                                0 <= k < st.packages@.len() implies cat.mode_eligible(
                                (#[trigger] st.packages@[k]) as int,
                                monthly,
                            ) by {
                                assert(st.packages@[k] == id);
                            }
                        }
                        assert(state_inv(*cat, st, n as int, monthly));
                        assert(cat.covers(id as int, item as int));
                        assert(covers_some(*cat, id, required_games@));
                        assert(from_candidates_or_seeds(
                            *cat,
                            required_games@,
                            input0,
                            st.packages@,
                            monthly,
                        )) by {
                            assert forall|k: int|
                                0 <= k < st.packages@.len() implies input0.contains(
                                #[trigger] st.packages@[k],
                            ) || seed_coverer(*cat, required_games@, st.packages@[k], monthly) by {
                                assert(st.packages@[k] == id);
                            }
                        }
                    }
                    heap.push(st);
                }
                proof {
                    assert forall|j: int|
                        0 <= j < consider@.len() && required_games@.subset_of(
                            cat.coverage@[(#[trigger] consider@[j]) as int]@,
                        ) && (consider@[j] as int) < id + 1 implies exists|idx: int|
                        0 <= idx < heap@.len() && required_games@.subset_of(
                            (#[trigger] heap@[idx]).covered@,
                        ) && (heap@[idx].price < cat.mode_price(consider@[j] as int, monthly) || (
                        heap@[idx].price == cat.mode_price(consider@[j] as int, monthly)
                            && heap@[idx].count_packages <= 1)) by {
                        if (consider@[j] as int) < id {
                            let w = choose|idx: int|
                                0 <= idx < heap_before.len() && required_games@.subset_of(
                                    (#[trigger] heap_before[idx]).covered@,
                                ) && (heap_before[idx].price < cat.mode_price(
                                    consider@[j] as int,
                                    monthly,
                                ) || (heap_before[idx].price == cat.mode_price(
                                    consider@[j] as int,
                                    monthly,
                                ) && heap_before[idx].count_packages <= 1));
                            assert(heap@[w] == heap_before[w]);
                        } else {
                            assert(consider@[j] == id);
                            assert(cat.mode_eligible(id as int, monthly));
                            assert(cat.coverage@[id as int]@.contains(item as int));
                            assert(hit);
                            let w = heap@.len() - 1;
                            assert(heap@[w].covered@ == cat.coverage@[id as int]@);
                            assert(required_games@.subset_of(heap@[w].covered@));
                            assert(heap@[w].price == cat.mode_price(consider@[j] as int, monthly));
                            assert(heap@[w].count_packages == 1);
                        }
                    }
                }
                id = id + 1;
            }
        }
        t = t + 1;
    }
    if heap.len() == 0 {
        let st = Subset {
            packages: Vec::new(),
            price: 0,
            count_packages: 0,
            start_idx: 0,
            covered: ItemSet::new(),
        };
        proof {
            assert(st.covered@ =~= cover_of_seq(*cat, st.packages@));
            assert(state_inv(*cat, st, n as int, monthly));
            assert(from_candidates_or_seeds(*cat, required_games@, input0, st.packages@, monthly));
        }
        heap.push(st);
        proof {
            assert(heap@[heap@.len() - 1] == st);
            assert(zero_state_present(heap@));
        }
    }
    let mut memo: Vec<(ItemSet, u64)> = Vec::new();
    while heap.len() > 0
        invariant
            cat.wf(),
            n == consider@.len(),
            n < MAX_PACKAGES,
            pkgs_eligible(*cat, consider@, monthly),
            input0 == consider_packages@,
            filter_justified(*cat, required_games@, input0, consider@, monthly),
            required_games@ != Set::<int>::empty() || (heap@.len() == 1
                && heap@[0].packages@ == Seq::<usize>::empty()),
            forall|k: int| 0 <= k < consider@.len() ==> input0.contains(#[trigger] consider@[k]),
            forall|idx: int|
                0 <= idx < heap@.len() ==> state_inv(*cat, #[trigger] heap@[idx], n as int, monthly),
            forall|idx: int|
                0 <= idx < heap@.len() ==> from_candidates_or_seeds(
                    *cat,
                    required_games@,
                    input0,
                    (#[trigger] heap@[idx]).packages@,
                    monthly,
                ),
            memo@.len() == 0 ==> heap@.len() > 0 && (forall|idx: int|
                0 <= idx < heap@.len() ==> (#[trigger] heap@[idx]).start_idx == 0),
            (memo@.len() == 0 && zero_state_present(heap@)) || singleton_beaters_present(
                *cat,
                required_games@,
                consider@,
                heap@,
                monthly,
            ),
        decreases heap_measure(heap@, n as nat),
    {
        let ghost m0 = heap_measure(heap@, n as nat);
        let ghost heap0 = heap@;
        let cur = match pop_min(&mut heap) {
            Some(c) => c,
            None => {
                return None;
            },
        };
        proof {
            let i = choose|i: int|
                0 <= i < heap0.len() && cur == heap0[i] && heap@ == heap0.remove(i);
            lemma_measure_remove(heap0, i, n as nat);
            assert(state_inv(*cat, cur, n as int, monthly));
            lemma_pow2_pos(((n - cur.start_idx) as nat));
            assert(heap_measure(heap@, n as nat) + state_weight(cur, n as nat) == m0);
            assert(state_weight(cur, n as nat) >= 1);
            assert(from_candidates_or_seeds(*cat, required_games@, input0, cur.packages@, monthly));
        }
        let ghost had_beaters = singleton_beaters_present(
            *cat,
            required_games@,
            consider@,
            heap0,
            monthly,
        );
        proof {
            if !had_beaters {
                let z = choose|idx: int|
                    0 <= idx < heap0.len() && (#[trigger] heap0[idx]).price == 0
                        && heap0[idx].count_packages == 0 && heap0[idx].start_idx == 0;
                assert(lex_le(cur, heap0[z]));
                assert(cur.price == 0 && cur.count_packages == 0);
                assert(cur.start_idx == 0);
            }
        }
        if required_games.is_subset(&cur.covered) {
            proof {
                assert(from_candidates_or_seeds(
                    *cat,
                    required_games@,
                    consider_packages@,
                    cur.packages@,
                    monthly,
                ));
                if required_games@ == Set::<int>::empty() {
                    let i = choose|i: int|
                        0 <= i < heap0.len() && cur == heap0[i] && heap@ == heap0.remove(i);
                    assert(i == 0);
                    assert(cur.packages@ == Seq::<usize>::empty());
                }
                let i2 = choose|i2: int|
                    0 <= i2 < heap0.len() && cur == heap0[i2] && heap@ == heap0.remove(i2) && (
                    forall|j: int| 0 <= j < heap0.len() ==> lex_le(cur, #[trigger] heap0[j]));
                lemma_return_beats_singletons(
                    *cat,
                    required_games@,
                    input0,
                    consider@,
                    heap0,
                    cur,
                    monthly,
                );
                assert(cur.price == price_of_seq(*cat, cur.packages@, monthly));
                assert(cur.count_packages == cur.packages@.len());
            }
            return Some(cur.packages);
        }
        proof {
            if had_beaters {
                lemma_beaters_survive_pop(
                    *cat,
                    required_games@,
                    consider@,
                    heap0,
                    heap@,
                    cur,
                    monthly,
                );
            }
        }
        let mut skip = false;
        let mut m: usize = 0;
        while m < memo.len()
            invariant
                m <= memo@.len(),
                skip ==> memo@.len() > 0,
            decreases memo@.len() - m,
        {
            if memo[m].0.set_eq(&cur.covered) && memo[m].1 <= cur.price {
                skip = true;
            }
            m = m + 1;
        }
        if !skip {
            let ghost memo_was_empty = memo@.len() == 0;
            memo.push((cur.covered.clone(), cur.price));
            proof {
                if memo_was_empty {
                    assert(cur.start_idx == 0);
                }
            }
            let mut i: usize = cur.start_idx;
            while i < n
                invariant
                    cat.wf(),
                    n == consider@.len(),
                    n < MAX_PACKAGES,
                    pkgs_eligible(*cat, consider@, monthly),
                    state_inv(*cat, cur, n as int, monthly),
                    from_candidates_or_seeds(*cat, required_games@, input0, cur.packages@, monthly),
                    forall|k: int|
                        0 <= k < consider@.len() ==> input0.contains(#[trigger] consider@[k]),
                    cur.start_idx <= i <= n,
                    had_beaters ==> singleton_beaters_present(
                        *cat,
                        required_games@,
                        consider@,
                        heap@,
                        monthly,
                    ),
                    !had_beaters ==> cur.price == 0 && cur.count_packages == 0,
                    !had_beaters ==> forall|j: int|
                        0 <= j < consider@.len() && required_games@.subset_of(
                            cat.coverage@[(#[trigger] consider@[j]) as int]@,
                        ) ==> (exists|idx: int|
                            0 <= idx < heap@.len() && required_games@.subset_of(
                                (#[trigger] heap@[idx]).covered@,
                            ) && (heap@[idx].price < cat.mode_price(consider@[j] as int, monthly)
                                || (heap@[idx].price == cat.mode_price(
                                consider@[j] as int,
                                monthly,
                            ) && heap@[idx].count_packages <= 1))) || i <= j,
                    forall|idx: int|
                        0 <= idx < heap@.len() ==> state_inv(
                            *cat,
                            #[trigger] heap@[idx],
                            n as int,
                            monthly,
                        ),
                    forall|idx: int|
                        0 <= idx < heap@.len() ==> from_candidates_or_seeds(
                            *cat,
                            required_games@,
                            input0,
                            (#[trigger] heap@[idx]).packages@,
                            monthly,
                        ),
                    heap_measure(heap@, n as nat) + pow2((n - i) as nat) <= m0,
                decreases n - i,
            {
                let elem = consider[i];
                proof {
                    assert(cat.mode_eligible(elem as int, monthly));
                }
                let mut new_packages = clone_usizes(&cur.packages);
                new_packages.push(elem);
                let mut new_covered = cur.covered.clone();
                new_covered.union_with(&cat.coverage[elem]);
                let eprice = pkg_mode_price(cat, elem, monthly);
                proof {
                    lemma_price_bound(*cat, cur.packages@, monthly);
                    assert(cur.packages@.len() * 0xFFFF_FFFF <= 0xFFFF_FFFF * 0xFFFF_FFFF)
                        by (nonlinear_arith)
                        requires
                            cur.packages@.len() <= 0xFFFF_FFFF,
                    ;
                }
                let new_price = cur.price + (eprice as u64);
                let st = Subset {
                    packages: new_packages,
                    price: new_price,
                    count_packages: cur.count_packages + 1,
                    start_idx: i + 1,
                    covered: new_covered,
                };
                proof {
                    assert(st.packages@.drop_last() =~= cur.packages@);
                    assert(st.packages@.last() == elem);
                    assert(st.covered@ =~= cover_of_seq(*cat, st.packages@)) by {
                        assert forall|it2: int| #[trigger] st.covered@.contains(it2) implies
                            cover_of_seq(*cat, st.packages@).contains(it2) by {
                            if cur.covered@.contains(it2) {
                                let k = choose|k: int|
                                    0 <= k < cur.packages@.len() && cat.covers(
                                        (#[trigger] cur.packages@[k]) as int,
                                        it2,
                                    );
                                assert(st.packages@[k] == cur.packages@[k]);
                            } else {
                                assert(cat.covers(elem as int, it2));
                                assert(st.packages@[st.packages@.len() - 1] == elem);
                            }
                        }
                        assert forall|it2: int| #[trigger] cover_of_seq(
                            *cat,
                            st.packages@,
                        ).contains(it2) implies st.covered@.contains(it2) by {
                            let k = choose|k: int|
                                0 <= k < st.packages@.len() && cat.covers(
                                    (#[trigger] st.packages@[k]) as int,
                                    it2,
                                );
                            if k < st.packages@.len() - 1 {
                                assert(cur.packages@[k] == st.packages@[k]);
                                assert(cur.covered@.contains(it2));
                            }
                        }
                    }
                    assert(pkgs_eligible(*cat, st.packages@, monthly)) by {
                        assert forall|k: int|
                            0 <= k < st.packages@.len() implies cat.mode_eligible(
                            (#[trigger] st.packages@[k]) as int,
                            monthly,
                        ) by {
                            if k < st.packages@.len() - 1 {
                                assert(st.packages@[k] == cur.packages@[k]);
                            }
                        }
                    }
                    assert(state_inv(*cat, st, n as int, monthly));
                    assert(from_candidates_or_seeds(
                        *cat,
                        required_games@,
                        input0,
                        st.packages@,
                        monthly,
                    )) by {
                        assert forall|k: int|
                            0 <= k < st.packages@.len() implies input0.contains(
                            #[trigger] st.packages@[k],
                        ) || seed_coverer(*cat, required_games@, st.packages@[k], monthly) by {
                            if k < st.packages@.len() - 1 {
                                assert(st.packages@[k] == cur.packages@[k]);
                            } else {
                                assert(st.packages@[k] == elem);
                                assert(consider@.contains(elem));
                            }
                        }
                    }
                }
                let ghost heap_pre = heap@;
                heap.push(st);
                proof {
                    if had_beaters {
                        assert forall|j: int|
                            0 <= j < consider@.len() && required_games@.subset_of(
                                cat.coverage@[(#[trigger] consider@[j]) as int]@,
                            ) implies exists|idx: int|
                            0 <= idx < heap@.len() && required_games@.subset_of(
                                (#[trigger] heap@[idx]).covered@,
                            ) && (heap@[idx].price < cat.mode_price(consider@[j] as int, monthly)
                                || (heap@[idx].price == cat.mode_price(
                                consider@[j] as int,
                                monthly,
                            ) && heap@[idx].count_packages <= 1)) by {
                            let w = choose|idx: int|
                                0 <= idx < heap_pre.len() && required_games@.subset_of(
                                    (#[trigger] heap_pre[idx]).covered@,
                                ) && (heap_pre[idx].price < cat.mode_price(
                                    consider@[j] as int,
                                    monthly,
                                ) || (heap_pre[idx].price == cat.mode_price(
                                    consider@[j] as int,
                                    monthly,
                                ) && heap_pre[idx].count_packages <= 1));
                            assert(heap@[w] == heap_pre[w]);
                        }
                    } else {
                        assert forall|j: int|
                            0 <= j < consider@.len() && required_games@.subset_of(
                                cat.coverage@[(#[trigger] consider@[j]) as int]@,
                            ) implies (exists|idx: int|
                            0 <= idx < heap@.len() && required_games@.subset_of(
                                (#[trigger] heap@[idx]).covered@,
                            ) && (heap@[idx].price < cat.mode_price(consider@[j] as int, monthly)
                                || (heap@[idx].price == cat.mode_price(
                                consider@[j] as int,
                                monthly,
                            ) && heap@[idx].count_packages <= 1))) || i + 1 <= j by {
                            if exists|idx: int|
                                0 <= idx < heap_pre.len() && required_games@.subset_of(
                                    (#[trigger] heap_pre[idx]).covered@,
                                ) && (heap_pre[idx].price < cat.mode_price(
                                    consider@[j] as int,
                                    monthly,
                                ) || (heap_pre[idx].price == cat.mode_price(
                                    consider@[j] as int,
                                    monthly,
                                ) && heap_pre[idx].count_packages <= 1)) {
                                let w = choose|idx: int|
                                    0 <= idx < heap_pre.len() && required_games@.subset_of(
                                        (#[trigger] heap_pre[idx]).covered@,
                                    ) && (heap_pre[idx].price < cat.mode_price(
                                        consider@[j] as int,
                                        monthly,
                                    ) || (heap_pre[idx].price == cat.mode_price(
                                        consider@[j] as int,
                                        monthly,
                                    ) && heap_pre[idx].count_packages <= 1));
                                assert(heap@[w] == heap_pre[w]);
                            } else {
                                if j == i {
                                    assert(elem == consider@[j]);
                                    assert(st.price == cat.mode_price(
                                        consider@[j] as int,
                                        monthly,
                                    ));
                                    assert(st.count_packages == 1);
                                    assert(required_games@.subset_of(st.covered@)) by {
                                        assert forall|it2: int|
                                            required_games@.contains(it2) implies st.covered@.contains(
                                            it2,
                                        ) by {
                                            assert(cat.coverage@[elem as int]@.contains(it2));
                                        }
                                    }
                                    assert(heap@[heap@.len() - 1] == st);
                                }
                            }
                        }
                    }
                    lemma_measure_push(heap_pre, st, n as nat);
                    lemma_pow2_unfold((n - i) as nat);
                    assert(state_weight(st, n as nat) == pow2((n - i - 1) as nat));
                    assert(heap_measure(heap@, n as nat) + pow2((n - (i + 1)) as nat) <= m0);
                }
                i = i + 1;
            }
            proof {
                assert(pow2(0) == 1) by {
                    vstd::arithmetic::power2::lemma2_to64();
                }
                assert(heap_measure(heap@, n as nat) < m0);
                assert(singleton_beaters_present(
                    *cat,
                    required_games@,
                    consider@,
                    heap@,
                    monthly,
                ));
            }
        }
    }
    proof {
        if lone_coverer_among(*cat, required_games@, consider@) {
            if memo@.len() == 0 {
                assert(heap@.len() > 0);
                assert(false);
            } else {
                let j = choose|j: int|
                    0 <= j < consider@.len() && required_games@.subset_of(
                        cat.coverage@[(#[trigger] consider@[j]) as int]@,
                    );
                assert(singleton_beaters_present(
                    *cat,
                    required_games@,
                    consider@,
                    heap@,
                    monthly,
                ));
                let w = choose|idx: int|
                    0 <= idx < heap@.len() && required_games@.subset_of(
                        (#[trigger] heap@[idx]).covered@,
                    ) && (heap@[idx].price < cat.mode_price(consider@[j] as int, monthly) || (
                    heap@[idx].price == cat.mode_price(consider@[j] as int, monthly)
                        && heap@[idx].count_packages <= 1));
                assert(false);
            }
        }
        assert forall|p: usize|
            consider_packages@.contains(p) && cat.mode_eligible(p as int, monthly) implies
            !required_games@.subset_of(cat.coverage@[p as int]@) by {
            if required_games@.subset_of(cat.coverage@[p as int]@) {
                if consider@.contains(p) {
                    let j = choose|j: int| 0 <= j < consider@.len() && consider@[j] == p;
                    assert(required_games@.subset_of(
                        cat.coverage@[(consider@[j]) as int]@,
                    ));
                    assert(lone_coverer_among(*cat, required_games@, consider@));
                } else {
                    let x = choose|x: usize|
                        consider@.contains(x) && dominates(
                            *cat,
                            required_games@,
                            x as int,
                            p as int,
                            monthly,
                        );
                    assert forall|it2: int|
                        required_games@.contains(it2) implies cat.coverage@[x as int]@.contains(
                        it2,
                    ) by {
                        assert(cat.covers(p as int, it2));
                        assert(restricted_cover(*cat, p as int, required_games@).contains(it2));
                        assert(restricted_cover(*cat, x as int, required_games@).contains(it2));
                    }
                    let j = choose|j: int| 0 <= j < consider@.len() && consider@[j] == x;
                    assert(required_games@.subset_of(
                        cat.coverage@[(consider@[j]) as int]@,
                    ));
                    assert(lone_coverer_among(*cat, required_games@, consider@));
                }
                assert(false);
            }
        }
    }
    None
}

/// Dominance safety: the filter never removes a package that is the sole
/// coverer of a required item.  If `p` is the only input candidate covering
/// the required item `it`, `p` is kept.
pub proof fn lemma_dominance_safety(
    cat: Catalog,
    required: Set<int>,
    input: Seq<usize>,
    kept: Seq<usize>,
    monthly: bool,
    it: int,
    p: usize,
)
    requires
        filter_justified(cat, required, input, kept, monthly),
        required.contains(it),
        input.contains(p),
        cat.covers(p as int, it),
        forall|q: usize| input.contains(q) && cat.covers(q as int, it) ==> q == p,
    ensures
        kept.contains(p),
{
    if !kept.contains(p) {
        let x = choose|x: usize|
            kept.contains(x) && dominates(cat, required, x as int, p as int, monthly);
        assert(restricted_cover(cat, p as int, required).contains(it));
        assert(restricted_cover(cat, x as int, required).contains(it));
        assert(cat.covers(x as int, it));
        let k = choose|k: int| 0 <= k < kept.len() && kept[k] == x;
        assert(input.contains(kept[k]));
        assert(x == p);
        assert(false);
    }
}

fn vec_contains(v: &Vec<usize>, x: usize) -> (r: bool)
    ensures
        r == v@.contains(x),
{
    let mut k: usize = 0;
    while k < v.len()
        invariant
            k <= v@.len(),
            forall|k2: int| 0 <= k2 < k ==> v@[k2] != x,
        decreases v@.len() - k,
    {
        if v[k] == x {
            return true;
        }
        k = k + 1;
    }
    false
}

/// Appending a valid package id extends the union of coverage by exactly
/// that package's coverage.
proof fn lemma_cover_push(cat: Catalog, pkgs: Seq<usize>, elem: usize)
    requires
        cat.wf(),
        cat.valid_pkg(elem as int),
    ensures
        cover_of_seq(cat, pkgs.push(elem)) == cover_of_seq(cat, pkgs).union(
            cat.coverage@[elem as int]@,
        ),
{
    let post = pkgs.push(elem);
    assert forall|it: int| #[trigger] cover_of_seq(cat, post).contains(it) implies cover_of_seq(
        cat,
        pkgs,
    ).union(cat.coverage@[elem as int]@).contains(it) by {
        let k = choose|k: int|
            0 <= k < post.len() && cat.covers((#[trigger] post[k]) as int, it);
        if k < pkgs.len() {
            assert(pkgs[k] == post[k]);
            assert(cover_of_seq(cat, pkgs).contains(it));
        } else {
            assert(post[k] == elem);
        }
    }
    assert forall|it: int|
        cover_of_seq(cat, pkgs).union(cat.coverage@[elem as int]@).contains(it) implies
        #[trigger] cover_of_seq(cat, post).contains(it) by {
        if cover_of_seq(cat, pkgs).contains(it) {
            let k = choose|k: int|
                0 <= k < pkgs.len() && cat.covers((#[trigger] pkgs[k]) as int, it);
            assert(post[k] == pkgs[k]);
        } else {
            assert(cat.covers(elem as int, it));
            assert(post[post.len() - 1] == elem);
        }
    }
    assert(cover_of_seq(cat, post) =~= cover_of_seq(cat, pkgs).union(
        cat.coverage@[elem as int]@,
    ));
}

/// The union of coverage splits over concatenation.
pub proof fn lemma_cover_concat(cat: Catalog, a: Seq<usize>, b: Seq<usize>)
    ensures
        cover_of_seq(cat, a + b) == cover_of_seq(cat, a).union(cover_of_seq(cat, b)),
{
    let ab = a + b;
    assert forall|it: int| #[trigger] cover_of_seq(cat, ab).contains(it) implies cover_of_seq(
        cat,
        a,
    ).union(cover_of_seq(cat, b)).contains(it) by {
        let k = choose|k: int| 0 <= k < ab.len() && cat.covers((#[trigger] ab[k]) as int, it);
        if k < a.len() {
            assert(a[k] == ab[k]);
            assert(cover_of_seq(cat, a).contains(it));
        } else {
            assert(b[k - a.len()] == ab[k]);
            assert(cover_of_seq(cat, b).contains(it));
        }
    }
    assert forall|it: int|
        cover_of_seq(cat, a).union(cover_of_seq(cat, b)).contains(it) implies
        #[trigger] cover_of_seq(cat, ab).contains(it) by {
        if cover_of_seq(cat, a).contains(it) {
            let k = choose|k: int| 0 <= k < a.len() && cat.covers((#[trigger] a[k]) as int, it);
            assert(ab[k] == a[k]);
        } else {
            let k = choose|k: int| 0 <= k < b.len() && cat.covers((#[trigger] b[k]) as int, it);
            assert(ab[a.len() + k] == b[k]);
        }
    }
    assert(cover_of_seq(cat, ab) =~= cover_of_seq(cat, a).union(cover_of_seq(cat, b)));
}

/// The summed price splits over concatenation.
pub proof fn lemma_price_concat(cat: Catalog, a: Seq<usize>, b: Seq<usize>, monthly: bool)
    ensures
        price_of_seq(cat, a + b, monthly) == price_of_seq(cat, a, monthly) + price_of_seq(
            cat,
            b,
            monthly,
        ),
    decreases b.len(),
{
    if b.len() == 0 {
        assert(a + b =~= a);
    } else {
        assert((a + b).drop_last() =~= a + b.drop_last());
        assert((a + b).last() == b.last());
        lemma_price_concat(cat, a, b.drop_last(), monthly);
    }
}

/// Price is monotone non-decreasing under extension: prices are never
/// negative, so a state never gets cheaper by adding packages.
pub proof fn lemma_price_monotone(cat: Catalog, pkgs: Seq<usize>, ext: Seq<usize>, monthly: bool)
    ensures
        price_of_seq(cat, pkgs, monthly) <= price_of_seq(cat, pkgs + ext, monthly),
    decreases ext.len(),
{
    lemma_price_concat(cat, pkgs, ext, monthly);
    lemma_price_nonneg(cat, ext, monthly);
}

proof fn lemma_price_nonneg(cat: Catalog, pkgs: Seq<usize>, monthly: bool)
    ensures
        0 <= price_of_seq(cat, pkgs, monthly),
    decreases pkgs.len(),
{
    if pkgs.len() > 0 {
        lemma_price_nonneg(cat, pkgs.drop_last(), monthly);
    }
}

/// Pruning soundness: a state whose exact covered set was reached before at
/// no higher price can be discarded without losing any covering
/// continuation, since every extension of the dearer state covers the same
/// items and costs at least as much from the cheaper one.
pub proof fn lemma_identical_coverage_pruning(
    cat: Catalog,
    a: Seq<usize>,
    b: Seq<usize>,
    ext: Seq<usize>,
    monthly: bool,
    required: Set<int>,
)
    requires
        cover_of_seq(cat, a) == cover_of_seq(cat, b),
        price_of_seq(cat, b, monthly) <= price_of_seq(cat, a, monthly),
    ensures
        cover_of_seq(cat, b + ext) == cover_of_seq(cat, a + ext),
        price_of_seq(cat, b + ext, monthly) <= price_of_seq(cat, a + ext, monthly),
        required.subset_of(cover_of_seq(cat, a + ext)) ==> required.subset_of(
            cover_of_seq(cat, b + ext),
        ),
{
    lemma_cover_concat(cat, a, ext);
    lemma_cover_concat(cat, b, ext);
    lemma_price_concat(cat, a, ext, monthly);
    lemma_price_concat(cat, b, ext, monthly);
}

/// Forces, under monthly billing, the sole coverer of every required
/// uniquely-covered item into the selection, and subtracts the coverage of
/// the forced packages from the required set.
pub fn preselect_unique(cat: &Catalog, required: &mut ItemSet, monthly: bool) -> (r: Vec<usize>)
    requires
        cat.wf(),
    ensures
        forall|k1: int, k2: int| 0 <= k1 < k2 < r@.len() ==> r@[k1] != r@[k2],
        forall|k: int|
            0 <= k < r@.len() ==> monthly && cat.mode_eligible((#[trigger] r@[k]) as int, true)
                && forces(*cat, old(required)@, r@[k]),
        forall|it: int|
            monthly && old(required)@.contains(it) && cat.uniquely_covered@.contains(it)
                && cat.pkg_at((#[trigger] cat.unique_pkg@[it])->Some_0 as int).monthly_price_cents
                is Some ==> r@.contains(cat.unique_pkg@[it]->Some_0),
        forced_selection(*cat, old(required)@, monthly, r@),
        final(required)@ == old(required)@.difference(cover_of_seq(*cat, r@)),
{
    let ghost req0 = required@;
    let mut r: Vec<usize> = Vec::new();
    if monthly {
        let mut uniq = cat.uniquely_covered.clone();
        uniq.intersect_with(required);
        let items = uniq.to_vec();
        let mut t: usize = 0;
        while t < items.len()
            invariant
                cat.wf(),
                required@ == req0,
                uniq@ == cat.uniquely_covered@.intersect(req0),
                t <= items@.len(),
                forall|a: int| 0 <= a < items@.len() ==> uniq@.contains(#[trigger] items@[a] as int),
                forall|it: int|
                    uniq@.contains(it) ==> exists|a: int|
                        0 <= a < items@.len() && items@[a] == it,
                forall|k1: int, k2: int| 0 <= k1 < k2 < r@.len() ==> r@[k1] != r@[k2],
                forall|k: int|
                    0 <= k < r@.len() ==> cat.mode_eligible((#[trigger] r@[k]) as int, true)
                        && exists|it: int|
                        req0.contains(it) && cat.uniquely_covered@.contains(it)
                            && cat.unique_pkg@[it] == Some(r@[k]),
                forall|a: int|
                    0 <= a < t && cat.pkg_at(
                        (#[trigger] cat.unique_pkg@[items@[a] as int])->Some_0 as int,
                    ).monthly_price_cents is Some ==> r@.contains(
                        cat.unique_pkg@[items@[a] as int]->Some_0,
                    ),
            decreases items@.len() - t,
        {
            let item = items[t];
            let ghost pre = r@;
            proof {
                assert(uniq@.contains(item as int));
                assert(cat.uniquely_covered@.contains(item as int));
                assert(req0.contains(item as int));
            }
            match cat.unique_pkg[item] {
                Some(p) => {
                    proof {
                        assert(cat.covers(p as int, item as int));
                    }
                    let priced = match cat.pkg_of_id[p] {
                        Some(j) => cat.packages[j].monthly_price_cents.is_some(),
                        None => false,
                    };
                    proof {
                        assert(priced == (cat.pkg_at(p as int).monthly_price_cents is Some));
                    }
                    if priced && !vec_contains(&r, p) {
                        r.push(p);
                        proof {
                            assert(r@[r@.len() - 1] == p);
                            assert(cat.mode_eligible(p as int, true));
                            assert forall|k1: int, k2: int|
                                0 <= k1 < k2 < r@.len() implies r@[k1] != r@[k2] by {
                                if k2 == r@.len() - 1 {
                                    assert(r@[k1] == pre[k1]);
                                    assert(!pre.contains(p));
                                } else {
                                    assert(r@[k1] == pre[k1] && r@[k2] == pre[k2]);
                                }
                            }
                            assert forall|k: int|
                                0 <= k < r@.len() implies cat.mode_eligible(
                                (#[trigger] r@[k]) as int,
                                true,
                            ) && exists|it: int|
                                req0.contains(it) && cat.uniquely_covered@.contains(it)
                                    && cat.unique_pkg@[it] == Some(r@[k]) by {
                                if k < r@.len() - 1 {
                                    assert(r@[k] == pre[k]);
                                } else {
                                    assert(r@[k] == p);
                                    assert(req0.contains(item as int)
                                        && cat.uniquely_covered@.contains(item as int)
                                        && cat.unique_pkg@[item as int] == Some(p));
                                }
                            }
                        }
                    }
                    proof {
                        assert forall|a: int|
                            0 <= a < t + 1 && cat.pkg_at(
                                (#[trigger] cat.unique_pkg@[items@[a] as int])->Some_0 as int,
                            ).monthly_price_cents is Some implies r@.contains(
                            cat.unique_pkg@[items@[a] as int]->Some_0,
                        ) by {
                            if a < t {
                                assert(pre.contains(cat.unique_pkg@[items@[a] as int]->Some_0));
                                let k2 = choose|k2: int|
                                    0 <= k2 < pre.len() && pre[k2] == cat.unique_pkg@[items@[a] as int]->Some_0;
                                assert(r@[k2] == pre[k2]);
                            } else {
                                assert(items@[a] == item);
                                assert(cat.unique_pkg@[item as int]->Some_0 == p);
                                if pre.contains(p) {
                                    let k2 = choose|k2: int| 0 <= k2 < pre.len() && pre[k2] == p;
                                    assert(r@[k2] == pre[k2]);
                                } else {
                                    assert(r@[r@.len() - 1] == p);
                                }
                            }
                        }
                    }
                },
                None => {
                    proof {
                        assert(false);
                    }
                },
            }
            t = t + 1;
        }
        proof {
            assert forall|it: int|
                req0.contains(it) && cat.uniquely_covered@.contains(it) && cat.pkg_at(
                    (#[trigger] cat.unique_pkg@[it])->Some_0 as int,
                ).monthly_price_cents is Some implies r@.contains(cat.unique_pkg@[it]->Some_0) by {
                assert(uniq@.contains(it));
                let a = choose|a: int| 0 <= a < items@.len() && items@[a] == it;
            }
            assert forall|k: int|
                0 <= k < r@.len() implies forces(*cat, req0, #[trigger] r@[k]) by {
                let it = choose|it: int|
                    req0.contains(it) && cat.uniquely_covered@.contains(it) && cat.unique_pkg@[it]
                        == Some(r@[k]);
                assert(req0.contains(it) && cat.uniquely_covered@.contains(it)
                    && cat.unique_pkg@[it] == Some(r@[k]));
                assert(forces(*cat, req0, r@[k]));
            }
        }
    }
    let ghost req_mid = required@;
    proof {
        assert(req_mid == req0);
        assert(cover_of_seq(*cat, r@.take(0)) =~= Set::<int>::empty());
        assert(required@ =~= req0.difference(cover_of_seq(*cat, r@.take(0))));
    }
    let mut k: usize = 0;
    while k < r.len()
        invariant
            cat.wf(),
            k <= r@.len(),
            forall|k2: int|
                0 <= k2 < r@.len() ==> cat.mode_eligible((#[trigger] r@[k2]) as int, true),
            required@ == req0.difference(cover_of_seq(*cat, r@.take(k as int))),
        decreases r@.len() - k,
    {
        let p = r[k];
        required.difference_with(&cat.coverage[p]);
        proof {
            assert(r@.take(k as int).push(p) =~= r@.take(k as int + 1));
            lemma_cover_push(*cat, r@.take(k as int), p);
            assert(required@ =~= req0.difference(cover_of_seq(*cat, r@.take(k as int + 1))));
        }
        k = k + 1;
    }
    proof {
        assert(r@.take(r@.len() as int) =~= r@);
    }
    r
}

/// Does some single candidate of `kept` cover the whole required set?
pub open spec fn lone_coverer_among(cat: Catalog, required: Set<int>, kept: Seq<usize>) -> bool {
    exists|j: int|
        0 <= j < kept.len() && required.subset_of(cat.coverage@[(#[trigger] kept[j]) as int]@)
}

/// The package ids priced under the billing mode that cover item `it`.
pub open spec fn eligible_coverers(cat: Catalog, it: int, monthly: bool) -> Set<int> {
    Set::new(
        |id: int|
            0 <= id < cat.coverage@.len() && cat.mode_eligible(id, monthly)
                && cat.coverage@[id]@.contains(it),
    )
}

/// Is `it` a rarely-covered item: at most `RARITY_THRESHOLD` packages
/// priced under the billing mode cover it?
pub open spec fn rare_item(cat: Catalog, it: int, monthly: bool) -> bool {
    eligible_coverers(cat, it, monthly).finite() && eligible_coverers(cat, it, monthly).len()
        <= RARITY_THRESHOLD
}

/// Is `p` a search seed: a coverer of some rarely-covered required item?
pub open spec fn seed_coverer(cat: Catalog, required: Set<int>, p: usize, monthly: bool) -> bool {
    exists|it: int|
        required.contains(it) && cat.covers(p as int, it) && rare_item(cat, it, monthly)
}

/// Does the queue hold the empty start state?
spec fn zero_state_present(h: Seq<Subset>) -> bool {
    exists|idx: int|
        0 <= idx < h.len() && (#[trigger] h[idx]).price == 0 && h[idx].count_packages == 0
            && h[idx].start_idx == 0
}

/// For every single candidate covering the whole required set, the queue
/// holds a covering state at most as expensive, with the count tie-break.
spec fn singleton_beaters_present(
    cat: Catalog,
    required: Set<int>,
    kept: Seq<usize>,
    h: Seq<Subset>,
    monthly: bool,
) -> bool {
    forall|j: int|
        0 <= j < kept.len() && required.subset_of(cat.coverage@[(#[trigger] kept[j]) as int]@)
            ==> exists|idx: int|
            0 <= idx < h.len() && required.subset_of((#[trigger] h[idx]).covered@) && (h[idx].price
                < cat.mode_price(kept[j] as int, monthly) || (h[idx].price == cat.mode_price(
                kept[j] as int,
                monthly,
            ) && h[idx].count_packages <= 1))
}

/// Every package of `pkgs` comes from the candidate list or is a search
/// seed: a coverer of some rarely-covered required item.
pub open spec fn from_candidates_or_seeds(
    cat: Catalog,
    required: Set<int>,
    input: Seq<usize>,
    pkgs: Seq<usize>,
    monthly: bool,
) -> bool {
    forall|k: int|
        0 <= k < pkgs.len() ==> input.contains(#[trigger] pkgs[k]) || seed_coverer(
            cat,
            required,
            pkgs[k],
            monthly,
        )
}

/// Does package id `id` cover at least one item of `remaining`?
pub open spec fn covers_some(cat: Catalog, id: usize, remaining: Set<int>) -> bool {
    exists|it: int| cat.covers(id as int, it) && remaining.contains(it)
}

/// The packages priced under the billing mode that cover at least one
/// remaining required item: the candidate set of the search.
pub fn eligible_candidates(cat: &Catalog, remaining: &ItemSet, monthly: bool) -> (r: Vec<usize>)
    requires
        cat.wf(),
    ensures
        pkgs_eligible(*cat, r@, monthly),
        r@.len() <= cat.packages@.len(),
        forall|k: int| 0 <= k < r@.len() ==> covers_some(*cat, #[trigger] r@[k], remaining@),
        forall|j: int|
            0 <= j < cat.packages@.len() && cat.mode_eligible(
                (#[trigger] cat.packages@[j]).id as int,
                monthly,
            ) && covers_some(*cat, cat.packages@[j].id, remaining@) ==> r@.contains(
                cat.packages@[j].id,
            ),
        forall|k1: int, k2: int|
            0 <= k1 < k2 < r@.len() ==> cat.pkg_of_id@[(#[trigger] r@[k1]) as int]->Some_0
                < cat.pkg_of_id@[(#[trigger] r@[k2]) as int]->Some_0,
        forall|k1: int, k2: int| 0 <= k1 < k2 < r@.len() ==> r@[k1] != r@[k2],
{
    let mut r: Vec<usize> = Vec::new();
    let mut j: usize = 0;
    while j < cat.packages.len()
        invariant
            cat.wf(),
            j <= cat.packages@.len(),
            r@.len() <= j,
            pkgs_eligible(*cat, r@, monthly),
            forall|k: int| 0 <= k < r@.len() ==> covers_some(*cat, #[trigger] r@[k], remaining@),
            forall|k: int|
                0 <= k < r@.len() ==> (#[trigger] r@[k]) < cat.pkg_of_id@.len()
                    && cat.pkg_of_id@[r@[k] as int] is Some && cat.pkg_of_id@[r@[k] as int]->Some_0
                    < j,
            forall|k1: int, k2: int|
                0 <= k1 < k2 < r@.len() ==> cat.pkg_of_id@[(#[trigger] r@[k1]) as int]->Some_0
                    < cat.pkg_of_id@[(#[trigger] r@[k2]) as int]->Some_0,
            forall|j2: int|
                0 <= j2 < j && cat.mode_eligible(
                    (#[trigger] cat.packages@[j2]).id as int,
                    monthly,
                ) && covers_some(*cat, cat.packages@[j2].id, remaining@) ==> r@.contains(
                    cat.packages@[j2].id,
                ),
        decreases cat.packages@.len() - j,
    {
        let id = cat.packages[j].id;
        proof {
            assert(cat.pkg_of_id@[id as int] == Some(j as usize));
        }
        let priced = if monthly {
            cat.packages[j].monthly_price_cents.is_some()
        } else {
            cat.packages[j].monthly_price_yearly_subscription_in_cents.is_some()
        };
        proof {
            assert(priced == cat.mode_eligible(id as int, monthly));
        }
        let ghost pre = r@;
        let hit = priced && cat.coverage[id].intersects(remaining);
        if hit {
            proof {
                let it = choose|it: int|
                    cat.coverage@[id as int]@.contains(it) && remaining@.contains(it);
                assert(cat.covers(id as int, it));
                assert(covers_some(*cat, id, remaining@));
            }
            r.push(id);
            proof {
                assert(r@[r@.len() - 1] == id);
                assert forall|k: int|
                    0 <= k < r@.len() implies covers_some(*cat, #[trigger] r@[k], remaining@) by {
                    if k < r@.len() - 1 {
                        assert(r@[k] == pre[k]);
                    } else {
                        assert(r@[k] == id);
                    }
                }
                assert forall|k: int|
                    0 <= k < r@.len() implies cat.mode_eligible(
                    (#[trigger] r@[k]) as int,
                    monthly,
                ) by {
                    if k < r@.len() - 1 {
                        assert(r@[k] == pre[k]);
                    } else {
                        assert(r@[k] == id);
                    }
                }
                assert forall|k: int|
                    0 <= k < r@.len() implies (#[trigger] r@[k]) < cat.pkg_of_id@.len()
                    && cat.pkg_of_id@[r@[k] as int] is Some && cat.pkg_of_id@[r@[k] as int]->Some_0
                    < j + 1 by {
                    if k < r@.len() - 1 {
                        assert(r@[k] == pre[k]);
                    } else {
                        assert(r@[k] == id);
                        assert(cat.pkg_of_id@[id as int] == Some(j as usize));
                    }
                }
                assert forall|k1: int, k2: int|
                    0 <= k1 < k2 < r@.len() implies cat.pkg_of_id@[(#[trigger] r@[k1]) as int]->Some_0
                    < cat.pkg_of_id@[(#[trigger] r@[k2]) as int]->Some_0 by {
                    assert(r@[k1] == pre[k1]);
                    if k2 < r@.len() - 1 {
                        assert(r@[k2] == pre[k2]);
                    } else {
                        assert(r@[k2] == id);
                        assert(cat.pkg_of_id@[id as int] == Some(j as usize));
                        assert(cat.pkg_of_id@[pre[k1] as int]->Some_0 < j);
                    }
                }
            }
        }
        proof {
            assert forall|j2: int|
                0 <= j2 < j + 1 && cat.mode_eligible(
                    (#[trigger] cat.packages@[j2]).id as int,
                    monthly,
                ) && covers_some(*cat, cat.packages@[j2].id, remaining@) implies r@.contains(
                cat.packages@[j2].id,
            ) by {
                if j2 < j {
                    if pre.contains(cat.packages@[j2].id) {
                        let k2 = choose|k2: int|
                            0 <= k2 < pre.len() && pre[k2] == cat.packages@[j2].id;
                        assert(r@[k2] == cat.packages@[j2].id);
                    }
                } else {
                    assert(cat.packages@[j2].id == id);
                    if !hit {
                        let it = choose|it: int|
                            cat.covers(id as int, it) && remaining@.contains(it);
                        assert(cat.coverage@[id as int]@.contains(it));
                        assert(false);
                    } else {
                        assert(r@[r@.len() - 1] == id);
                    }
                }
            }
        }
        j = j + 1;
    }
    proof {
        assert forall|k1: int, k2: int| 0 <= k1 < k2 < r@.len() implies r@[k1] != r@[k2] by {
            assert(cat.pkg_of_id@[(r@[k1]) as int]->Some_0 < cat.pkg_of_id@[(r@[k2]) as int]->Some_0);
        }
    }
    r
}

/// Is `p` the sole coverer of some required, uniquely-covered item?
pub open spec fn forces(cat: Catalog, resolved: Set<int>, p: usize) -> bool {
    exists|it: int|
        resolved.contains(it) && cat.uniquely_covered@.contains(it) && cat.unique_pkg@[it] == Some(
            p,
        )
}

/// Is `f` exactly a forced preselection for the resolved set: pairwise
/// distinct, each the sole coverer of some required uniquely-covered item
/// under monthly billing, and holding every such sole coverer that carries
/// a monthly price?
pub open spec fn forced_selection(
    cat: Catalog,
    resolved: Set<int>,
    monthly: bool,
    f: Seq<usize>,
) -> bool {
    &&& forall|k1: int, k2: int| 0 <= k1 < k2 < f.len() ==> f[k1] != f[k2]
    &&& forall|k: int|
        0 <= k < f.len() ==> monthly && cat.mode_eligible((#[trigger] f[k]) as int, true)
            && forces(cat, resolved, f[k])
    &&& forall|it: int|
        monthly && resolved.contains(it) && cat.uniquely_covered@.contains(it) && cat.pkg_at(
            (#[trigger] cat.unique_pkg@[it])->Some_0 as int,
        ).monthly_price_cents is Some ==> f.contains(cat.unique_pkg@[it]->Some_0)
}

/// Answers a request end to end: resolves the required set, force-selects
/// sole coverers under monthly billing, narrows the candidates, runs the
/// search, and returns the resolved set with the selected package ids,
/// forced packages first.  The union of the selection's coverage is a
/// superset of the resolved required set.
pub fn solve(cat: &Catalog, req: &SolveRequest) -> (r: Result<Solution, SolveError>)
    requires
        cat.wf(),
        forall|k: int|
            0 <= k < req.items@.len() ==> (#[trigger] req.items@[k]) + crate::models::HIGHLIGHT_OFFSET
                < usize::MAX,
    ensures
        match r {
            Ok(sol) => {
                &&& (req.live || req.highlights)
                &&& sol.required@ == resolved_items(*cat, *req)
                &&& sol.required@.subset_of(cover_of_seq(*cat, sol.packages@))
                &&& pkgs_eligible(*cat, sol.packages@, req.only_monthly_billing)
                &&& forall|k: int|
                    0 <= k < req.teams@.len() ==> crate::catalog::team_known(
                        cat.games@,
                        (#[trigger] req.teams@[k])@,
                    )
                &&& forall|k: int|
                    0 <= k < req.tournaments@.len() ==> crate::catalog::tournament_known(
                        cat.games@,
                        (#[trigger] req.tournaments@[k])@,
                    )
                &&& exists|f: Seq<usize>, g: Seq<usize>|
                    sol.packages@ == f + g && forced_selection(
                        *cat,
                        sol.required@,
                        req.only_monthly_billing,
                        f,
                    ) && sol.required@.difference(cover_of_seq(*cat, f)).subset_of(
                        cover_of_seq(*cat, g),
                    )
            },
            Err(SolveError::NoVariantRequested) => !req.live && !req.highlights,
            Err(SolveError::TeamNotFound(t)) => (req.live || req.highlights) && exists|k: int|
                0 <= k < req.teams@.len() && t@ == (#[trigger] req.teams@[k])@
                    && !crate::catalog::team_known(cat.games@, req.teams@[k]@),
            Err(SolveError::TournamentNotFound(t)) => (req.live || req.highlights) && (forall|
                k: int,
            |
                0 <= k < req.teams@.len() ==> crate::catalog::team_known(
                    cat.games@,
                    (#[trigger] req.teams@[k])@,
                )) && exists|k: int|
                0 <= k < req.tournaments@.len() && t@ == (#[trigger] req.tournaments@[k])@
                    && !crate::catalog::tournament_known(cat.games@, req.tournaments@[k]@),
            Err(SolveError::NoSolution) => (req.live || req.highlights) && resolved_items(
                *cat,
                *req,
            ) != Set::<int>::empty() && (forall|p: usize|
                cat.mode_eligible(p as int, req.only_monthly_billing) ==> !resolved_items(
                    *cat,
                    *req,
                ).subset_of(cat.coverage@[p as int]@)) && (forall|k: int|
                0 <= k < req.teams@.len() ==> crate::catalog::team_known(
                    cat.games@,
                    (#[trigger] req.teams@[k])@,
                )) && (forall|k: int|
                0 <= k < req.tournaments@.len() ==> crate::catalog::tournament_known(
                    cat.games@,
                    (#[trigger] req.tournaments@[k])@,
                )),
        },
{
    let mut required = match resolve_required(cat, req) {
        Ok(s) => s,
        Err(e) => {
            return Err(e);
        },
    };
    let sol_required = required.clone();
    let ghost resolved = required@;
    let forced = preselect_unique(cat, &mut required, req.only_monthly_billing);
    let consider = eligible_candidates(cat, &required, req.only_monthly_billing);
    let ghost cons = consider@;
    let found = match find_minimal_packages(&required, cat, consider, req.only_monthly_billing) {
        Some(p) => p,
        None => {
            proof {
                assert(required@ != Set::<int>::empty());
                assert(required@ == resolved.difference(cover_of_seq(*cat, forced@)));
                if resolved_items(*cat, *req) == Set::<int>::empty() {
                    assert(required@ =~= Set::<int>::empty());
                }
                assert forall|p: usize|
                    cat.mode_eligible(p as int, req.only_monthly_billing) implies !resolved.subset_of(
                    cat.coverage@[p as int]@,
                ) by {
                    if resolved.subset_of(cat.coverage@[p as int]@) {
                        assert(required@.subset_of(cat.coverage@[p as int]@));
                        assert(exists|it: int| required@.contains(it)) by {
                            if forall|it: int| !(#[trigger] required@.contains(it)) {
                                assert(required@ =~= Set::<int>::empty());
                            }
                        }
                        let wit = choose|it: int| required@.contains(it);
                        assert(cat.covers(p as int, wit));
                        assert(covers_some(*cat, p, required@));
                        let j = cat.pkg_of_id@[p as int]->Some_0;
                        assert(cat.packages@[j as int].id == p);
                        assert(cat.mode_eligible(
                            cat.packages@[j as int].id as int,
                            req.only_monthly_billing,
                        ));
                        assert(cons.contains(p));
                        assert(!required@.subset_of(cat.coverage@[p as int]@));
                        assert(false);
                    }
                }
            }
            return Err(SolveError::NoSolution);
        },
    };
    let mut packages = clone_usizes(&forced);
    let mut rest = clone_usizes(&found);
    packages.append(&mut rest);
    proof {
        assert(packages@ == forced@ + found@);
        lemma_cover_concat(*cat, forced@, found@);
        assert forall|it: int| resolved.contains(it) implies cover_of_seq(
            *cat,
            packages@,
        ).contains(it) by {
            if !cover_of_seq(*cat, forced@).contains(it) {
                assert(required@.contains(it));
            }
        }
        assert(resolved.difference(cover_of_seq(*cat, forced@)).subset_of(
            cover_of_seq(*cat, found@),
        ));
        assert(pkgs_eligible(*cat, packages@, req.only_monthly_billing)) by {
            assert forall|k: int|
                0 <= k < packages@.len() implies cat.mode_eligible(
                (#[trigger] packages@[k]) as int,
                req.only_monthly_billing,
            ) by {
                if k < forced@.len() {
                    assert(packages@[k] == forced@[k]);
                } else {
                    assert(packages@[k] == found@[k - forced@.len()]);
                }
            }
        }
    }
        Ok(Solution { required: sol_required, packages })
}

/// Is `s2` a counterpart of `s` drawn from the kept candidates: no more
/// packages, no higher price, and at least the same coverage of the
/// required items?
pub open spec fn filtered_counterpart(
    cat: Catalog,
    required: Set<int>,
    kept: Seq<usize>,
    monthly: bool,
    s: Seq<usize>,
    s2: Seq<usize>,
) -> bool {
    &&& forall|k: int| 0 <= k < s2.len() ==> kept.contains(#[trigger] s2[k])
    &&& s2.len() <= s.len()
    &&& price_of_seq(cat, s2, monthly) <= price_of_seq(cat, s, monthly)
    &&& cover_of_seq(cat, s).intersect(required).subset_of(
        cover_of_seq(cat, s2).intersect(required),
    )
}

/// Dominance filtering preserves covering selections: every selection from
/// the input has a counterpart from the kept candidates with at least its
/// coverage of the required items, at no higher price and with no more
/// packages.  In particular the cheapest covering price over the kept
/// candidates is no worse than over the input.
pub proof fn lemma_filter_preserves_cover(
    cat: Catalog,
    required: Set<int>,
    input: Seq<usize>,
    kept: Seq<usize>,
    monthly: bool,
    s: Seq<usize>,
)
    requires
        filter_justified(cat, required, input, kept, monthly),
        forall|k: int| 0 <= k < s.len() ==> input.contains(#[trigger] s[k]),
    ensures
        exists|s2: Seq<usize>| filtered_counterpart(cat, required, kept, monthly, s, s2),
    decreases s.len(),
{
    if s.len() == 0 {
        let s2 = Seq::<usize>::empty();
        assert(cover_of_seq(cat, s).intersect(required) =~= cover_of_seq(cat, s2).intersect(
            required,
        ));
        assert(filtered_counterpart(cat, required, kept, monthly, s, s2));
    } else {
        let s0 = s.drop_last();
        let y = s.last();
        assert(s0.push(y) =~= s);
        assert(input.contains(y));
        assert forall|k: int| 0 <= k < s0.len() implies input.contains(#[trigger] s0[k]) by {
            assert(s0[k] == s[k]);
        }
        lemma_filter_preserves_cover(cat, required, input, kept, monthly, s0);
        let s20 = choose|s20: Seq<usize>| filtered_counterpart(cat, required, kept, monthly, s0, s20);
        let rep: usize = if kept.contains(y) {
            y
        } else {
            choose|x: usize|
                kept.contains(x) && dominates(cat, required, x as int, y as int, monthly)
        };
        assert(kept.contains(rep));
        assert(cat.mode_price(rep as int, monthly) <= cat.mode_price(y as int, monthly));
        let s2 = s20.push(rep);
        assert(s2.drop_last() =~= s20);
        assert(s2.last() == rep);
        assert(price_of_seq(cat, s2, monthly) == price_of_seq(cat, s20, monthly) + cat.mode_price(
            rep as int,
            monthly,
        ));
        assert(price_of_seq(cat, s, monthly) == price_of_seq(cat, s0, monthly) + cat.mode_price(
            y as int,
            monthly,
        ));
        assert forall|k: int| 0 <= k < s2.len() implies kept.contains(#[trigger] s2[k]) by {
            if k < s20.len() {
                assert(s2[k] == s20[k]);
            }
        }
        assert forall|it: int|
            cover_of_seq(cat, s).intersect(required).contains(it) implies cover_of_seq(
            cat,
            s2,
        ).intersect(required).contains(it) by {
            let k = choose|k: int| 0 <= k < s.len() && cat.covers((#[trigger] s[k]) as int, it);
            if k < s0.len() {
                assert(s0[k] == s[k]);
                assert(cover_of_seq(cat, s0).intersect(required).contains(it));
                assert(cover_of_seq(cat, s20).intersect(required).contains(it));
                let k2 = choose|k2: int|
                    0 <= k2 < s20.len() && cat.covers((#[trigger] s20[k2]) as int, it);
                assert(s2[k2] == s20[k2]);
                assert(cover_of_seq(cat, s2).contains(it));
            } else {
                assert(cat.covers(y as int, it));
                if rep == y {
                    assert(s2[s2.len() - 1] == rep);
                    assert(cover_of_seq(cat, s2).contains(it));
                } else {
                    assert(restricted_cover(cat, y as int, required).contains(it));
                    assert(restricted_cover(cat, rep as int, required).contains(it));
                    assert(cat.covers(rep as int, it));
                    assert(s2[s2.len() - 1] == rep);
                    assert(cover_of_seq(cat, s2).contains(it));
                }
            }
        }
        assert(filtered_counterpart(cat, required, kept, monthly, s, s2));
    }
}

/// Every kept candidate is undominated by the candidates kept before it.
pub open spec fn well_filtered(
    cat: Catalog,
    required: Set<int>,
    out: Seq<usize>,
    monthly: bool,
) -> bool {
    forall|k: int|
        0 <= k < out.len() ==> keeps(cat, required, out.take(k), #[trigger] out[k], monthly)
}

proof fn lemma_filter_fold_well_filtered(
    cat: Catalog,
    required: Set<int>,
    input: Seq<usize>,
    monthly: bool,
)
    ensures
        well_filtered(cat, required, filter_fold(cat, required, input, monthly), monthly),
    decreases input.len(),
{
    if input.len() == 0 {
    } else {
        lemma_filter_fold_well_filtered(cat, required, input.drop_last(), monthly);
        let prefix = filter_fold(cat, required, input.drop_last(), monthly);
        let out = filter_fold(cat, required, input, monthly);
        if keeps(cat, required, prefix, input.last(), monthly) {
            assert(out == prefix.push(input.last()));
            assert forall|k: int|
                0 <= k < out.len() implies keeps(
                cat,
                required,
                out.take(k),
                #[trigger] out[k],
                monthly,
            ) by {
                if k < prefix.len() {
                    assert(out.take(k) =~= prefix.take(k));
                    assert(out[k] == prefix[k]);
                } else {
                    assert(out.take(k) =~= prefix);
                    assert(out[k] == input.last());
                }
            }
        }
    }
}

/// Filtering is idempotent: a second pass over an already-filtered list
/// removes nothing, since no survivor is dominated by an earlier survivor.
pub proof fn lemma_filter_fold_idempotent(
    cat: Catalog,
    required: Set<int>,
    input: Seq<usize>,
    monthly: bool,
)
    ensures
        filter_fold(
            cat,
            required,
            filter_fold(cat, required, input, monthly),
            monthly,
        ) == filter_fold(cat, required, input, monthly),
{
    lemma_filter_fold_well_filtered(cat, required, input, monthly);
    lemma_well_filtered_fixed(cat, required, filter_fold(cat, required, input, monthly), monthly);
}

proof fn lemma_well_filtered_fixed(cat: Catalog, required: Set<int>, x: Seq<usize>, monthly: bool)
    requires
        well_filtered(cat, required, x, monthly),
    ensures
        filter_fold(cat, required, x, monthly) == x,
    decreases x.len(),
{
    if x.len() == 0 {
        assert(filter_fold(cat, required, x, monthly) =~= x);
    } else {
        assert(well_filtered(cat, required, x.drop_last(), monthly)) by {
            assert forall|k: int|
                0 <= k < x.drop_last().len() implies keeps(
                cat,
                required,
                x.drop_last().take(k),
                #[trigger] x.drop_last()[k],
                monthly,
            ) by {
                assert(x.drop_last().take(k) =~= x.take(k));
                assert(x.drop_last()[k] == x[k]);
            }
        }
        lemma_well_filtered_fixed(cat, required, x.drop_last(), monthly);
        assert(x.take(x.len() - 1) =~= x.drop_last());
        assert(keeps(cat, required, x.drop_last(), x.last(), monthly));
        assert(filter_fold(cat, required, x, monthly) == x.drop_last().push(x.last()));
        assert(x.drop_last().push(x.last()) =~= x);
    }
}

/// A price that beats every covering selection from the kept candidates
/// also beats every covering selection from the unfiltered input: the
/// dominance filter loses no optimality.
pub proof fn lemma_filter_keeps_optimum(
    cat: Catalog,
    required: Set<int>,
    input: Seq<usize>,
    kept: Seq<usize>,
    monthly: bool,
    bound: int,
)
    requires
        filter_justified(cat, required, input, kept, monthly),
        forall|s: Seq<usize>|
            ((forall|k: int| 0 <= k < s.len() ==> kept.contains(#[trigger] s[k]))
                && required.subset_of(#[trigger] cover_of_seq(cat, s))) ==> bound <= price_of_seq(
                cat,
                s,
                monthly,
            ),
    ensures
        forall|s: Seq<usize>|
            ((forall|k: int| 0 <= k < s.len() ==> input.contains(#[trigger] s[k]))
                && required.subset_of(#[trigger] cover_of_seq(cat, s))) ==> bound <= price_of_seq(
                cat,
                s,
                monthly,
            ),
{
    assert forall|s: Seq<usize>|
        ((forall|k: int| 0 <= k < s.len() ==> input.contains(#[trigger] s[k]))
            && required.subset_of(#[trigger] cover_of_seq(cat, s))) implies bound <= price_of_seq(
        cat,
        s,
        monthly,
    ) by {
        lemma_filter_preserves_cover(cat, required, input, kept, monthly, s);
        let s2 = choose|s2: Seq<usize>| filtered_counterpart(cat, required, kept, monthly, s, s2);
        assert forall|it: int| required.contains(it) implies cover_of_seq(cat, s2).contains(
            it,
        ) by {
            assert(cover_of_seq(cat, s).intersect(required).contains(it));
            assert(cover_of_seq(cat, s2).intersect(required).contains(it));
        }
        assert(required.subset_of(cover_of_seq(cat, s2)));
        assert(bound <= price_of_seq(cat, s2, monthly));
    }
}

} // verus!