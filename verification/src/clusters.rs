//! Clusters of vehicles around the ones that have maintenance to spare.
//!
//! Every vehicle has a maintenance counter: below zero it has distance to
//! spare before its next maintenance, above zero it is past it. Vehicles
//! that follow each other in a cycle share their counters, so a vehicle
//! with distance to spare can make up for others.

use vstd::prelude::*;
use crate::base_types::MaintenanceCounter;

verus! {

/// The counters of the first `n` members of a cluster together.
pub open spec fn index_sum(counters: Seq<MaintenanceCounter>, cluster: Seq<usize>, n: int) -> int
    decreases n,
{
    if n <= 0 {
        0
    } else {
        index_sum(counters, cluster, n - 1) + counters[cluster[n - 1] as int]
    }
}

/// Whether vehicle `i` stands in one of the clusters.
pub open spec fn in_clusters(clusters: Seq<Vec<usize>>, i: int) -> bool {
    exists|k: int, p: int|
        0 <= k < clusters.len() && 0 <= p < clusters[k]@.len() && #[trigger] clusters[k]@[p] == i
}

/// Whether every one of `n` vehicles stands in exactly one cluster, once,
/// and nothing else does.
pub open spec fn clusters_part(clusters: Seq<Vec<usize>>, n: int) -> bool {
    &&& forall|k: int, p: int|
        0 <= k < clusters.len() && 0 <= p < clusters[k]@.len() ==> #[trigger] clusters[k]@[p] < n
    &&& forall|k: int, p: int, l: int, q: int|
        0 <= k < clusters.len() && 0 <= p < clusters[k]@.len() && 0 <= l < clusters.len() && 0 <= q
            < clusters[l]@.len() && (k != l || p != q) ==> #[trigger] clusters[k]@[p]
            != #[trigger] clusters[l]@[q]
    &&& forall|i: int| 0 <= i < n ==> #[trigger] in_clusters(clusters, i)
}

/// Whether the clusters are built around the vehicles with distance to
/// spare: no cluster is empty, only the first vehicle of a cluster has
/// distance to spare, and the first vehicle of every cluster has, unless
/// there is no more than one cluster.
pub open spec fn around_spare(counters: Seq<MaintenanceCounter>, clusters: Seq<Vec<usize>>) -> bool {
    &&& forall|k: int| 0 <= k < clusters.len() ==> (#[trigger] clusters[k])@.len() >= 1
    &&& forall|k: int, p: int|
        #![trigger clusters[k]@[p]]
        0 <= k < clusters.len() && 1 <= p < clusters[k]@.len() ==> counters[clusters[k]@[p] as int]
            >= 0
    &&& (clusters.len() <= 1 || forall|k: int|
        0 <= k < clusters.len() ==> counters[(#[trigger] clusters[k])@[0] as int] < 0)
}

/// How many of the first `n` vehicles have no cluster yet.
pub open spec fn unplaced(placed: Seq<bool>, n: int) -> int
    decreases n,
{
    if n <= 0 {
        0
    } else {
        unplaced(placed, n - 1) + (if placed[n - 1] {
            0int
        } else {
            1int
        })
    }
}

proof fn lemma_unplaced_bounds(placed: Seq<bool>, n: int)
    requires
        0 <= n <= placed.len(),
    ensures
        0 <= unplaced(placed, n) <= n,
        unplaced(placed, n) == 0 ==> forall|i: int| 0 <= i < n ==> placed[i],
    decreases n,
{
    if n > 0 {
        lemma_unplaced_bounds(placed, n - 1);
    }
}

proof fn lemma_unplaced_update(placed: Seq<bool>, x: int, n: int)
    requires
        0 <= x < placed.len(),
        0 <= n <= placed.len(),
        !placed[x],
    ensures
        unplaced(placed.update(x, true), n) == unplaced(placed, n) - (if x < n {
            1int
        } else {
            0int
        }),
    decreases n,
{
    if n > 0 {
        lemma_unplaced_update(placed, x, n - 1);
    }
}

/// The sum over a cluster is the sum over a longer one that starts with it.
proof fn lemma_index_sum_prefix(counters: Seq<MaintenanceCounter>, a: Seq<usize>, b: Seq<usize>, n: int)
    requires
        0 <= n <= a.len(),
        n <= b.len(),
        forall|p: int| 0 <= p < n ==> a[p] == b[p],
    ensures
        index_sum(counters, a, n) == index_sum(counters, b, n),
    decreases n,
{
    if n > 0 {
        lemma_index_sum_prefix(counters, a, b, n - 1);
    }
}

/// The sum over a cluster is no further from zero than its counters can
/// be together.
pub proof fn lemma_index_sum_bound(counters: Seq<MaintenanceCounter>, cluster: Seq<usize>, n: int)
    requires
        0 <= n <= cluster.len(),
        forall|p: int| 0 <= p < n ==> (#[trigger] cluster[p]) < counters.len(),
    ensures
        -n * 0x8000_0000_0000_0000 <= index_sum(counters, cluster, n) <= n * 0x8000_0000_0000_0000,
    decreases n,
{
    if n > 0 {
        lemma_index_sum_bound(counters, cluster, n - 1);
        assert(cluster[n - 1] < counters.len());
        assert((n - 1) * 0x8000_0000_0000_0000 + 0x8000_0000_0000_0000 == n * 0x8000_0000_0000_0000)
            by (nonlinear_arith);
        assert(-(n - 1) * 0x8000_0000_0000_0000 - 0x8000_0000_0000_0000 == -n
            * 0x8000_0000_0000_0000) by (nonlinear_arith);
    }
}

pub fn copy_indices(list: &Vec<usize>) -> (r: Vec<usize>)
    ensures
        r@ == list@,
{
    let mut r: Vec<usize> = Vec::new();
    let mut i: usize = 0;
    while i < list.len()
        invariant
            i <= list.len(),
            r@ == list@.subrange(0, i as int),
        decreases list.len() - i,
    {
        r.push(list[i]);
        proof {
            assert(r@ =~= list@.subrange(0, i + 1));
        }
        i += 1;
    }
    proof {
        assert(list@.subrange(0, list@.len() as int) =~= list@);
    }
    r
}

/// The vehicle without a cluster that is furthest past maintenance, and of
/// several such the first; none exactly if every vehicle has a cluster.
pub fn next_unplaced(counters: &Vec<MaintenanceCounter>, placed: &Vec<bool>) -> (r: Option<usize>)
    requires
        placed@.len() == counters@.len(),
    ensures
        r is None <==> forall|i: int| 0 <= i < placed@.len() ==> placed@[i],
        r matches Some(x) ==> {
            &&& x < placed@.len()
            &&& !placed@[x as int]
            &&& forall|i: int|
                0 <= i < placed@.len() && !placed@[i] ==> counters@[i] <= counters@[x as int]
            &&& forall|i: int| 0 <= i < x && !placed@[i] ==> counters@[i] < counters@[x as int]
        },
{
    let mut next: Option<usize> = None;
    let mut i: usize = 0;
    while i < placed.len()
        invariant
            i <= placed@.len(),
            placed@.len() == counters@.len(),
            next is None ==> forall|j: int| 0 <= j < i ==> placed@[j],
            next matches Some(x) ==> {
                &&& x < i
                &&& !placed@[x as int]
                &&& forall|j: int| 0 <= j < i && !placed@[j] ==> counters@[j] <= counters@[x as int]
                &&& forall|j: int| 0 <= j < x && !placed@[j] ==> counters@[j] < counters@[x as int]
            },
        decreases placed.len() - i,
    {
        if !placed[i] {
            let better = match next {
                Some(x) => counters[i] > counters[x],
                None => true,
            };
            if better {
                next = Some(i);
            }
        }
        i += 1;
    }
    next
}

/// Whether a vehicle with counter `c` can join a cluster with the sum `s`
/// without pushing it past maintenance.
pub open spec fn fits(s: int, c: int) -> bool {
    s + c <= 0
}

/// The cluster that a vehicle with the counter `c` joins: of the clusters
/// that it does not push past maintenance the one with the most to spare,
/// and of several such the first; if there is no such cluster, the one
/// that is furthest past maintenance, and of several such the last. None
/// exactly if there is no cluster.
pub fn pick_cluster(sums: &Vec<i128>, c: MaintenanceCounter) -> (r: Option<usize>)
    requires
        forall|k: int|
            0 <= k < sums@.len() ==> -0x1_0000_0000_0000_0000_0000_0000 <= #[trigger] sums@[k]
                <= 0x1_0000_0000_0000_0000_0000_0000,
    ensures
        r is None <==> sums@.len() == 0,
        r matches Some(t) ==> {
            &&& t < sums@.len()
            &&& if exists|k: int| 0 <= k < sums@.len() && fits(#[trigger] sums@[k] as int, c as int) {
                &&& fits(sums@[t as int] as int, c as int)
                &&& forall|k: int|
                    0 <= k < sums@.len() && fits(#[trigger] sums@[k] as int, c as int) ==> sums@[t as int]
                        <= sums@[k]
                &&& forall|k: int|
                    0 <= k < t && fits(#[trigger] sums@[k] as int, c as int) ==> sums@[t as int]
                        < sums@[k]
            } else {
                &&& forall|k: int| 0 <= k < sums@.len() ==> #[trigger] sums@[k] <= sums@[t as int]
                &&& forall|k: int| t < k < sums@.len() ==> #[trigger] sums@[k] < sums@[t as int]
            }
        },
{
    let mut fitting: Option<usize> = None;
    let mut last: Option<usize> = None;
    let mut k: usize = 0;
    while k < sums.len()
        invariant
            k <= sums@.len(),
            forall|j: int|
                0 <= j < sums@.len() ==> -0x1_0000_0000_0000_0000_0000_0000 <= #[trigger] sums@[j]
                    <= 0x1_0000_0000_0000_0000_0000_0000,
            fitting is None ==> forall|j: int| 0 <= j < k ==> !fits(#[trigger] sums@[j] as int, c as int),
            fitting matches Some(f) ==> {
                &&& f < k
                &&& fits(sums@[f as int] as int, c as int)
                &&& forall|j: int|
                    0 <= j < k && fits(#[trigger] sums@[j] as int, c as int) ==> sums@[f as int]
                        <= sums@[j]
                &&& forall|j: int|
                    0 <= j < f && fits(#[trigger] sums@[j] as int, c as int) ==> sums@[f as int]
                        < sums@[j]
            },
            last is None <==> k == 0,
            last matches Some(l) ==> {
                &&& l < k
                &&& forall|j: int| 0 <= j < k ==> #[trigger] sums@[j] <= sums@[l as int]
                &&& forall|j: int| l < j < k ==> #[trigger] sums@[j] < sums@[l as int]
            },
        decreases sums.len() - k,
    {
        let s = sums[k];
        assert(-0x1_0000_0000_0000_0000_0000_0000 <= sums@[k as int]);
        if s + (c as i128) <= 0 {
            let better = match fitting {
                Some(f) => s < sums[f],
                None => true,
            };
            if better {
                fitting = Some(k);
            }
        }
        let later = match last {
            Some(l) => s >= sums[l],
            None => true,
        };
        if later {
            last = Some(k);
        }
        k += 1;
    }
    match fitting {
        Some(f) => Some(f),
        None => last,
    }
}

/// The clusters as lists of vehicles.
pub open spec fn cluster_views(clusters: Seq<Vec<usize>>) -> Seq<Seq<usize>> {
    Seq::new(clusters.len(), |k: int| clusters[k]@)
}

/// The sums of the counters of clusters.
pub open spec fn sums_of(counters: Seq<MaintenanceCounter>, clusters: Seq<Seq<usize>>) -> Seq<int> {
    Seq::new(clusters.len(), |k: int| index_sum(counters, clusters[k], clusters[k].len() as int))
}

/// Whether `x` is the vehicle that joins a cluster next: of the vehicles
/// without a cluster the one furthest past maintenance, and of several such
/// the first.
pub open spec fn is_next(counters: Seq<MaintenanceCounter>, placed: Seq<bool>, x: int) -> bool {
    &&& 0 <= x < placed.len()
    &&& !placed[x]
    &&& forall|i: int| 0 <= i < placed.len() && !placed[i] ==> counters[i] <= counters[x]
    &&& forall|i: int| 0 <= i < x && !placed[i] ==> counters[i] < counters[x]
}

/// Whether `t` is the cluster that a vehicle with the counter `c` joins: of
/// the clusters that it does not push past maintenance the one with the
/// most to spare, and of several such the first; if there is no such
/// cluster, the one that is furthest past maintenance, and of several such
/// the last.
pub open spec fn is_target(sums: Seq<int>, c: int, t: int) -> bool {
    &&& 0 <= t < sums.len()
    &&& if exists|k: int| 0 <= k < sums.len() && fits(#[trigger] sums[k], c) {
        &&& fits(sums[t], c)
        &&& forall|k: int| 0 <= k < sums.len() && fits(#[trigger] sums[k], c) ==> sums[t] <= sums[k]
        &&& forall|k: int| 0 <= k < t && fits(#[trigger] sums[k], c) ==> sums[t] < sums[k]
    } else {
        &&& forall|k: int| 0 <= k < sums.len() ==> #[trigger] sums[k] <= sums[t]
        &&& forall|k: int| t < k < sums.len() ==> #[trigger] sums[k] < sums[t]
    }
}

/// No two vehicles are the one that joins next.
pub proof fn lemma_next_unique(counters: Seq<MaintenanceCounter>, placed: Seq<bool>, a: int, b: int)
    requires
        is_next(counters, placed, a),
        is_next(counters, placed, b),
    ensures
        a == b,
{
}

/// No two clusters are the one that a vehicle joins.
pub proof fn lemma_target_unique(sums: Seq<int>, c: int, a: int, b: int)
    requires
        is_target(sums, c, a),
        is_target(sums, c, b),
    ensures
        a == b,
{
    if a != b {
        assert(sums[a] <= sums[b] || sums[b] <= sums[a]);
    }
}

/// A cluster of its own for every one of the first `i` vehicles that has
/// distance to spare, in their order.
pub open spec fn spare_upto(counters: Seq<MaintenanceCounter>, i: int) -> Seq<Seq<usize>>
    decreases i,
{
    if i <= 0 {
        Seq::empty()
    } else if counters[i - 1] < 0 {
        spare_upto(counters, i - 1).push(seq![(i - 1) as usize])
    } else {
        spare_upto(counters, i - 1)
    }
}

/// The clusters after the vehicles without a cluster joined one after the
/// other: each the cluster that it joins, or a cluster of its own if there
/// is none. No more vehicles join than `fuel` says.
pub open spec fn joined(
    counters: Seq<MaintenanceCounter>,
    clusters: Seq<Seq<usize>>,
    placed: Seq<bool>,
    fuel: int,
) -> Seq<Seq<usize>>
    decreases fuel,
{
    if fuel <= 0 || !exists|x: int| is_next(counters, placed, x) {
        clusters
    } else {
        let x = choose|x: int| is_next(counters, placed, x);
        let c = counters[x] as int;
        let grown = if clusters.len() == 0 {
            clusters.push(seq![x as usize])
        } else {
            let t = choose|t: int| is_target(sums_of(counters, clusters), c, t);
            clusters.update(t, clusters[t].push(x as usize))
        };
        joined(counters, grown, placed.update(x, true), fuel - 1)
    }
}

/// The clusters of vehicles with the given counters: a cluster of its own
/// for every vehicle with distance to spare, which the others then join
/// one after the other.
pub open spec fn clusters_of(counters: Seq<MaintenanceCounter>) -> Seq<Seq<usize>> {
    joined(
        counters,
        spare_upto(counters, counters.len() as int),
        Seq::new(counters.len(), |i: int| counters[i] < 0),
        counters.len() as int,
    )
}

/// What holds of the clusters while they are built: every vehicle that is
/// marked as placed stands in exactly one cluster, at the place that
/// `home` names, and nothing else does; only the first vehicle of a cluster
/// can have distance to spare; and the sums are those of the clusters.
spec fn grouped(
    counters: Seq<MaintenanceCounter>,
    clusters: Seq<Vec<usize>>,
    sums: Seq<i128>,
    placed: Seq<bool>,
    home: Seq<(int, int)>,
) -> bool {
    let n = counters.len();
    &&& placed.len() == n
    &&& home.len() == n
    &&& clusters.len() == sums.len()
    &&& forall|k: int, p: int|
        #![trigger clusters[k]@[p]]
        0 <= k < clusters.len() && 0 <= p < clusters[k]@.len() ==> {
            let i = clusters[k]@[p];
            &&& i < n
            &&& placed[i as int]
            &&& home[i as int] == (k, p)
            &&& (p >= 1 ==> counters[i as int] >= 0)
        }
    &&& forall|i: int|
        0 <= i < n && placed[i] ==> {
            let h = #[trigger] home[i];
            &&& 0 <= h.0 < clusters.len()
            &&& 0 <= h.1 < clusters[h.0]@.len()
            &&& clusters[h.0]@[h.1] == i
        }
    &&& forall|k: int|
        0 <= k < clusters.len() ==> {
            &&& (#[trigger] clusters[k])@.len() >= 1
            &&& clusters[k]@.len() + unplaced(placed, n as int) <= n + 1
            &&& sums[k] == index_sum(counters, clusters[k]@, clusters[k]@.len() as int)
        }
}

/// The first vehicle of every cluster has distance to spare.
spec fn spare_first(counters: Seq<MaintenanceCounter>, clusters: Seq<Vec<usize>>) -> bool {
    forall|k: int| 0 <= k < clusters.len() ==> counters[(#[trigger] clusters[k])@[0] as int] < 0
}

/// A cluster of its own for every vehicle with distance to spare.
fn spare_clusters(counters: &Vec<MaintenanceCounter>) -> (r: (
    Vec<Vec<usize>>,
    Vec<i128>,
    Vec<bool>,
    Ghost<Seq<(int, int)>>,
))
    ensures
        grouped(counters@, r.0@, r.1@, r.2@, r.3@),
        spare_first(counters@, r.0@),
        forall|i: int| 0 <= i < counters@.len() && counters@[i] < 0 ==> r.2@[i],
        cluster_views(r.0@) == spare_upto(counters@, counters@.len() as int),
        r.2@ == Seq::new(counters@.len(), |i: int| counters@[i] < 0),
{
    let n = counters.len();
    let mut placed: Vec<bool> = Vec::new();
    let mut i: usize = 0;
    while i < n
        invariant
            i <= n,
            placed@.len() == i,
            forall|j: int| 0 <= j < i ==> !placed@[j],
        decreases n - i,
    {
        placed.push(false);
        i += 1;
    }
    let mut clusters: Vec<Vec<usize>> = Vec::new();
    let mut sums: Vec<i128> = Vec::new();
    let ghost mut home: Seq<(int, int)> = Seq::new(n as nat, |i: int| (0int, 0int));
    let mut i: usize = 0;
    proof {
        lemma_unplaced_bounds(placed@, n as int);
        assert(cluster_views(clusters@) =~= spare_upto(counters@, 0));
    }
    while i < n
        invariant
            i <= n == counters@.len(),
            grouped(counters@, clusters@, sums@, placed@, home),
            spare_first(counters@, clusters@),
            forall|j: int| 0 <= j < i && counters@[j] < 0 ==> placed@[j],
            forall|j: int| i <= j < n ==> !placed@[j],
            forall|j: int| 0 <= j < i && counters@[j] >= 0 ==> !placed@[j],
            cluster_views(clusters@) == spare_upto(counters@, i as int),
        decreases n - i,
    {
        let ghost views_before = cluster_views(clusters@);
        if counters[i] < 0 {
            let ghost before = clusters@;
            let ghost sums_before = sums@;
            let ghost placed_before = placed@;
            let ghost home_before = home;
            let mut m: Vec<usize> = Vec::new();
            m.push(i);
            clusters.push(m);
            sums.push(counters[i] as i128);
            placed.set(i, true);
            proof {
                home = home.update(i as int, (before.len() as int, 0int));
                lemma_unplaced_update(placed_before, i as int, n as int);
                lemma_unplaced_bounds(placed@, n as int);
                assert(placed@ == placed_before.update(i as int, true));
                let last = before.len() as int;
                assert(clusters@[last]@ =~= seq![i]);
                assert(index_sum(counters@, clusters@[last]@, 0) == 0);
                assert(index_sum(counters@, clusters@[last]@, 1) == counters@[i as int]);
                assert forall|k: int, p: int|
                    #![trigger clusters@[k]@[p]]
                    0 <= k < clusters@.len() && 0 <= p < clusters@[k]@.len() implies {
                    let j = clusters@[k]@[p];
                    &&& j < n
                    &&& placed@[j as int]
                    &&& home[j as int] == (k, p)
                    &&& (p >= 1 ==> counters@[j as int] >= 0)
                } by {
                    if k < last {
                        assert(clusters@[k] == before[k]);
                        let j = before[k]@[p];
                        assert(placed_before[j as int]);
                    }
                }
                assert forall|j: int| 0 <= j < n && placed@[j] implies {
                    let h = #[trigger] home[j];
                    &&& 0 <= h.0 < clusters@.len()
                    &&& 0 <= h.1 < clusters@[h.0]@.len()
                    &&& clusters@[h.0]@[h.1] == j
                } by {
                    if j != i {
                        assert(placed_before[j]);
                        let h = home_before[j];
                        assert(clusters@[h.0] == before[h.0]);
                    }
                }
                assert forall|k: int| 0 <= k < clusters@.len() implies {
                    &&& (#[trigger] clusters@[k])@.len() >= 1
                    &&& clusters@[k]@.len() + unplaced(placed@, n as int) <= n + 1
                    &&& sums@[k] == index_sum(counters@, clusters@[k]@, clusters@[k]@.len() as int)
                } by {
                    if k < last {
                        assert(clusters@[k] == before[k]);
                        assert(sums@[k] == sums_before[k]);
                    }
                }
                assert forall|k: int| 0 <= k < clusters@.len() implies counters@[(
                #[trigger] clusters@[k])@[0] as int] < 0 by {
                    if k < last {
                        assert(clusters@[k] == before[k]);
                    }
                }
            }
            proof {
                assert(cluster_views(clusters@) =~= views_before.push(seq![i]));
            }
        }
        i += 1;
    }
    proof {
        assert(placed@ =~= Seq::new(counters@.len(), |i: int| counters@[i] < 0));
    }
    (clusters, sums, placed, Ghost(home))
}

/// Clusters of vehicles, given the maintenance counter of each of them.
/// Every vehicle with distance to spare gets a cluster of its own. The
/// others join one after the other, the ones furthest past maintenance
/// first: each the cluster with the most to spare that it does not push
/// past maintenance, or the one that is furthest past it if there is no
/// such cluster. If no vehicle has distance to spare, all are one cluster.
/// With the clusters come the sums of their counters.
pub fn cluster(counters: &Vec<MaintenanceCounter>) -> (r: (Vec<Vec<usize>>, Vec<i128>))
    requires
        counters@.len() <= 0x10000,
    ensures
        clusters_part(r.0@, counters@.len() as int),
        around_spare(counters@, r.0@),
        r.1@.len() == r.0@.len(),
        forall|k: int|
            0 <= k < r.0@.len() ==> r.1@[k] == index_sum(
                counters@,
                (#[trigger] r.0@[k])@,
                r.0@[k]@.len() as int,
            ),
        cluster_views(r.0@) == clusters_of(counters@),
{
    let n = counters.len();
    let (mut clusters, mut sums, mut placed, Ghost(start)) = spare_clusters(counters);
    let ghost mut home = start;
    let ghost whole = clusters_of(counters@);
    let ghost mut fuel: int = n as int;
    let mut next = next_unplaced(counters, &placed);
    proof {
        lemma_unplaced_bounds(placed@, n as int);
    }
    while next.is_some()
        invariant
            whole == clusters_of(counters@),
            whole == joined(counters@, cluster_views(clusters@), placed@, fuel),
            unplaced(placed@, n as int) <= fuel,
            next matches Some(x) ==> is_next(counters@, placed@, x as int),
            n == counters@.len() <= 0x10000,
            grouped(counters@, clusters@, sums@, placed@, home),
            spare_first(counters@, clusters@) || clusters@.len() <= 1,
            forall|i: int| 0 <= i < n && counters@[i] < 0 ==> placed@[i],
            next is None <==> forall|i: int| 0 <= i < n ==> placed@[i],
            next matches Some(x) ==> x < n && !placed@[x as int],
            unplaced(placed@, n as int) >= 0,
        decreases unplaced(placed@, n as int),
    {
        let x = next.unwrap();
        let c = counters[x];
        let ghost before = clusters@;
        let ghost sums_before = sums@;
        let ghost placed_before = placed@;
        let ghost home_before = home;
        proof {
            assert forall|k: int| 0 <= k < sums@.len() implies -0x1_0000_0000_0000_0000_0000_0000
                <= #[trigger] sums@[k] <= 0x1_0000_0000_0000_0000_0000_0000 by {
                let len = before[k]@.len() as int;
                assert forall|p: int| 0 <= p < len implies (#[trigger] before[k]@[p]) < counters@.len() by {}
                lemma_index_sum_bound(counters@, before[k]@, len);
                assert(len <= 0x10001);
                assert(len * 0x8000_0000_0000_0000 <= 0x10001 * 0x8000_0000_0000_0000)
                    by (nonlinear_arith)
                    requires
                        0 <= len <= 0x10001,
                ;
                assert(-len * 0x8000_0000_0000_0000 >= -0x10001 * 0x8000_0000_0000_0000)
                    by (nonlinear_arith)
                    requires
                        0 <= len <= 0x10001,
                ;
            }
        }
        let ghost views_before = cluster_views(before);
        let ghost spec_sums = sums_of(counters@, views_before);
        proof {
            let chosen = choose|y: int| is_next(counters@, placed_before, y);
            lemma_next_unique(counters@, placed_before, x as int, chosen);
            lemma_unplaced_bounds(placed_before, n as int);
            assert(fuel > 0);
            assert forall|k: int| 0 <= k < spec_sums.len() implies #[trigger] spec_sums[k]
                == sums_before[k] as int by {
                assert(before[k]@.len() >= 1);
            }
        }
        let ghost place: (int, int);
        let target = pick_cluster(&sums, c);
        proof {
            match target {
                Some(t) => {
                    if exists|k: int| 0 <= k < spec_sums.len() && fits(#[trigger] spec_sums[k], c as int) {
                        let w = choose|k: int|
                            0 <= k < spec_sums.len() && fits(#[trigger] spec_sums[k], c as int);
                        assert(fits(sums_before[w] as int, c as int));
                        assert forall|k: int|
                            0 <= k < spec_sums.len() && fits(
                                #[trigger] spec_sums[k],
                                c as int,
                            ) implies spec_sums[t as int] <= spec_sums[k] by {
                            assert(fits(sums_before[k] as int, c as int));
                        }
                        assert forall|k: int|
                            0 <= k < t && fits(#[trigger] spec_sums[k], c as int) implies spec_sums[t as int]
                            < spec_sums[k] by {
                            assert(fits(sums_before[k] as int, c as int));
                        }
                    } else {
                        assert forall|k: int| 0 <= k < sums_before.len() implies !fits(
                            #[trigger] sums_before[k] as int,
                            c as int,
                        ) by {
                            assert(spec_sums[k] == sums_before[k] as int);
                        }
                        assert forall|k: int| 0 <= k < spec_sums.len() implies #[trigger] spec_sums[k]
                            <= spec_sums[t as int] by {
                            assert(sums_before[k] <= sums_before[t as int]);
                        }
                        assert forall|k: int| t < k < spec_sums.len() implies #[trigger] spec_sums[k]
                            < spec_sums[t as int] by {
                            assert(sums_before[k] < sums_before[t as int]);
                        }
                    }
                    assert(is_target(spec_sums, c as int, t as int));
                    let chosen = choose|y: int| is_target(spec_sums, c as int, y);
                    lemma_target_unique(spec_sums, c as int, t as int, chosen);
                },
                None => {},
            }
        }
        match target {
            Some(t) => {
                let mut grown = copy_indices(&clusters[t]);
                grown.push(x);
                proof {
                    place = (t as int, before[t as int]@.len() as int);
                    lemma_index_sum_prefix(counters@, before[t as int]@, grown@, place.1);
                }
                let sum = sums[t] + c as i128;
                clusters.set(t, grown);
                sums.set(t, sum);
            },
            None => {
                let mut m: Vec<usize> = Vec::new();
                m.push(x);
                proof {
                    place = (0int, 0int);
                    assert(index_sum(counters@, m@, 0) == 0);
                    assert(index_sum(counters@, m@, 1) == counters@[x as int]);
                }
                clusters.push(m);
                sums.push(c as i128);
            },
        }
        placed.set(x, true);
        proof {
            home = home.update(x as int, place);
            lemma_unplaced_update(placed_before, x as int, n as int);
            lemma_unplaced_bounds(placed@, n as int);
            assert(placed@ == placed_before.update(x as int, true));
            assert(clusters@[place.0]@[place.1] == x);
            assert forall|k: int, p: int|
                #![trigger clusters@[k]@[p]]
                0 <= k < clusters@.len() && 0 <= p < clusters@[k]@.len() implies {
                let j = clusters@[k]@[p];
                &&& j < n
                &&& placed@[j as int]
                &&& home[j as int] == (k, p)
                &&& (p >= 1 ==> counters@[j as int] >= 0)
            } by {
                if k == place.0 && p == place.1 {
                } else {
                    if k != place.0 {
                        assert(clusters@[k] == before[k]);
                    } else {
                        assert(clusters@[k]@[p] == before[k]@[p]);
                    }
                    let j = before[k]@[p];
                    assert(placed_before[j as int]);
                }
            }
            assert forall|j: int| 0 <= j < n && placed@[j] implies {
                let h = #[trigger] home[j];
                &&& 0 <= h.0 < clusters@.len()
                &&& 0 <= h.1 < clusters@[h.0]@.len()
                &&& clusters@[h.0]@[h.1] == j
            } by {
                if j != x {
                    assert(placed_before[j]);
                    let h = home_before[j];
                    assert(before[h.0]@[h.1] == j);
                    if h.0 != place.0 {
                        assert(clusters@[h.0] == before[h.0]);
                    } else {
                        assert(clusters@[h.0]@[h.1] == before[h.0]@[h.1]);
                    }
                }
            }
            assert forall|k: int| 0 <= k < clusters@.len() implies {
                &&& (#[trigger] clusters@[k])@.len() >= 1
                &&& clusters@[k]@.len() + unplaced(placed@, n as int) <= n + 1
                &&& sums@[k] == index_sum(counters@, clusters@[k]@, clusters@[k]@.len() as int)
            } by {
                if k != place.0 {
                    assert(clusters@[k] == before[k]);
                    assert(sums@[k] == sums_before[k]);
                }
            }
            if before.len() > 0 && spare_first(counters@, before) {
                assert forall|k: int| 0 <= k < clusters@.len() implies counters@[(
                #[trigger] clusters@[k])@[0] as int] < 0 by {
                    if k != place.0 {
                        assert(clusters@[k] == before[k]);
                    } else {
                        assert(clusters@[k]@[0] == before[k]@[0]);
                    }
                }
            }
        }
        proof {
            let grown = if views_before.len() == 0 {
                views_before.push(seq![x])
            } else {
                views_before.update(place.0, views_before[place.0].push(x))
            };
            assert(cluster_views(clusters@) =~= grown);
            assert(joined(counters@, views_before, placed_before, fuel) == joined(
                counters@,
                grown,
                placed_before.update(x as int, true),
                fuel - 1,
            ));
            fuel = fuel - 1;
        }
        next = next_unplaced(counters, &placed);
    }
    proof {
        assert(!exists|y: int| is_next(counters@, placed@, y));
        assert forall|k: int, p: int, l: int, q: int|
            0 <= k < clusters@.len() && 0 <= p < clusters@[k]@.len() && 0 <= l < clusters@.len() && 0
                <= q < clusters@[l]@.len() && (k != l || p != q) implies #[trigger] clusters@[k]@[p]
            != #[trigger] clusters@[l]@[q] by {
            assert(home[clusters@[k]@[p] as int] == (k, p));
            assert(home[clusters@[l]@[q] as int] == (l, q));
        }
        assert forall|i: int| 0 <= i < n implies #[trigger] in_clusters(clusters@, i) by {
            assert(placed@[i]);
            let h = home[i];
            assert(clusters@[h.0]@[h.1] == i);
        }
        if clusters@.len() > 1 {
            assert(spare_first(counters@, clusters@));
        }
    }
    (clusters, sums)
}

} // verus!
