//! Two-phase clique-threshold clustering. A cluster admits a new member only
//! when the member is at least `tau`-similar to every point already in the
//! cluster, so every cluster is a clique under the threshold. Phase one
//! clusters fixed-size chunks of the input independently; phase two merges
//! the local clusters sequentially into global ones.

use vstd::prelude::*;

verus! {

/// Entry `(i, j)` of a flat row-major `n` by `n` matrix.
pub open spec fn entry_at(n: nat, vals: Seq<i64>, i: int, j: int) -> i64 {
    vals[i * n + j]
}

/// Pairwise similarities of `n` points, in millionths of cosine, as a flat
/// row-major symmetric matrix.
pub struct SimMatrix {
    n: usize,
    vals: Vec<i64>,
}

impl SimMatrix {
    /// How many points the matrix covers.
    pub closed spec fn n(&self) -> nat {
        self.n as nat
    }

    /// The flat entries, row-major.
    pub closed spec fn vals(&self) -> Seq<i64> {
        self.vals@
    }

    /// The similarity of points `i` and `j`, in millionths.
    pub open spec fn sim(&self, i: int, j: int) -> int {
        entry_at(self.n(), self.vals(), i, j) as int
    }

    /// The matrix invariant: square, and symmetric.
    pub open spec fn wf(&self) -> bool {
        &&& self.vals().len() == self.n() * self.n()
        &&& self.n() * self.n() <= usize::MAX
        &&& forall|i: int, j: int|
            0 <= i < self.n() && 0 <= j < self.n() ==> #[trigger] self.sim(i, j) == self.sim(j, i)
    }

    /// Wrap a flat row-major matrix; refused unless it is square and
    /// symmetric.
    pub fn new(n: usize, vals: Vec<i64>) -> (r: Option<SimMatrix>)
        ensures
            match r {
                Some(m) => m.wf() && m.n() == n && m.vals() == vals@,
                None => vals@.len() != (n * n) as nat || exists|i: int, j: int|
                    0 <= i < n && 0 <= j < n && #[trigger] entry_at(n as nat, vals@, i, j)
                        != entry_at(n as nat, vals@, j, i),
            },
    {
        let total = vals.len();
        let sq = match n.checked_mul(n) {
            Some(sq) => sq,
            None => {
                return None;
            },
        };
        if total != sq {
            return None;
        }
        let mut i: usize = 0;
        while i < n
            invariant
                i <= n,
                vals@.len() == (n * n) as nat,
                vals@.len() <= usize::MAX,
                forall|p: int, q: int|
                    0 <= p < i && 0 <= q < n ==> #[trigger] entry_at(n as nat, vals@, p, q)
                        == entry_at(n as nat, vals@, q, p),
            decreases n - i,
        {
            let mut j: usize = 0;
            while j < n
                invariant
                    i < n,
                    j <= n,
                    vals@.len() == (n * n) as nat,
                    vals@.len() <= usize::MAX,
                    forall|p: int, q: int|
                        0 <= p < i && 0 <= q < n ==> #[trigger] entry_at(n as nat, vals@, p, q)
                            == entry_at(n as nat, vals@, q, p),
                    forall|q: int|
                        0 <= q < j ==> #[trigger] entry_at(n as nat, vals@, i as int, q)
                            == entry_at(n as nat, vals@, q, i as int),
                decreases n - j,
            {
                proof {
                    lemma_flat_index(n as nat, i as nat, j as nat);
                    lemma_flat_index(n as nat, j as nat, i as nat);
                }
                if vals[i * n + j] != vals[j * n + i] {
                    proof {
                        assert(entry_at(n as nat, vals@, i as int, j as int) != entry_at(
                            n as nat,
                            vals@,
                            j as int,
                            i as int,
                        ));
                    }
                    return None;
                }
                j = j + 1;
            }
            i = i + 1;
        }
        let ghost gvals = vals@;
        let m = SimMatrix { n, vals };
        proof {
            assert(m.vals() == gvals);
            assert(m.n() == n as nat);
            assert forall|i: int, j: int|
                0 <= i < m.n() && 0 <= j < m.n() implies #[trigger] m.sim(i, j) == m.sim(
                j,
                i,
            ) by {
                assert(entry_at(n as nat, gvals, i, j) == entry_at(n as nat, gvals, j, i));
                assert(m.sim(i, j) == entry_at(n as nat, gvals, i, j) as int);
                assert(m.sim(j, i) == entry_at(n as nat, gvals, j, i) as int);
            }
        }
        Some(m)
    }

    /// Read the similarity of points `i` and `j`.
    pub fn get(&self, i: usize, j: usize) -> (s: i64)
        requires
            self.wf(),
            i < self.n(),
            j < self.n(),
        ensures
            s as int == self.sim(i as int, j as int),
    {
        proof {
            lemma_flat_index(self.n(), i as nat, j as nat);
        }
        self.vals[i * self.n + j]
    }
}

/// A row-major index stays inside a square matrix.
proof fn lemma_flat_index(n: nat, i: nat, j: nat)
    requires
        i < n,
        j < n,
    ensures
        i * n + j < n * n,
{
    assert(i * n + j < n * n) by (nonlinear_arith)
        requires
            i < n,
            j < n,
    ;
}

/// Whether a point is at least `tau`-similar to every member of a cluster.
pub open spec fn fits_cluster(m: &SimMatrix, tau: int, cl: Seq<usize>, id: usize) -> bool {
    forall|k: int| 0 <= k < cl.len() ==> m.sim(id as int, #[trigger] cl[k] as int) >= tau
}

/// The first cluster the point fits, scanning in order.
pub open spec fn first_fit(m: &SimMatrix, tau: int, clusters: Seq<Seq<usize>>, id: usize) -> Option<
    int,
>
    decreases clusters.len(),
{
    if clusters.len() == 0 {
        None
    } else if fits_cluster(m, tau, clusters[0], id) {
        Some(0)
    } else {
        match first_fit(m, tau, clusters.drop_first(), id) {
            Some(i) => Some(i + 1),
            None => None,
        }
    }
}

/// One greedy step: the point joins the first cluster whose every member is
/// `tau`-similar to it, or starts a new singleton.
pub open spec fn place(m: &SimMatrix, tau: int, clusters: Seq<Seq<usize>>, id: usize) -> Seq<
    Seq<usize>,
> {
    match first_fit(m, tau, clusters, id) {
        Some(i) => clusters.update(i, clusters[i].push(id)),
        None => clusters.push(seq![id]),
    }
}

/// The greedy single-pass clustering of the points, in input order.
pub open spec fn greedy(m: &SimMatrix, tau: int, ids: Seq<usize>) -> Seq<Seq<usize>>
    decreases ids.len(),
{
    if ids.len() == 0 {
        Seq::empty()
    } else {
        place(m, tau, greedy(m, tau, ids.drop_last()), ids.last())
    }
}

/// `first_fit` finds the least index that fits, and `None` only when none
/// fits.
proof fn lemma_first_fit_ensures(m: &SimMatrix, tau: int, clusters: Seq<Seq<usize>>, id: usize)
    ensures
        match first_fit(m, tau, clusters, id) {
            Some(i) => 0 <= i < clusters.len() && fits_cluster(m, tau, clusters[i], id) && forall|
                j: int,
            | 0 <= j < i ==> !fits_cluster(m, tau, clusters[j], id),
            None => forall|j: int| 0 <= j < clusters.len() ==> !fits_cluster(m, tau, clusters[j], id),
        },
    decreases clusters.len(),
{
    if clusters.len() > 0 {
        if !fits_cluster(m, tau, clusters[0], id) {
            let rest = clusters.drop_first();
            lemma_first_fit_ensures(m, tau, rest, id);
            match first_fit(m, tau, rest, id) {
                Some(i) => {
                    assert(clusters[i + 1] == rest[i]);
                    assert forall|j: int| 0 <= j < i + 1 implies !fits_cluster(
                        m,
                        tau,
                        clusters[j],
                        id,
                    ) by {
                        if j > 0 {
                            assert(clusters[j] == rest[j - 1]);
                        }
                    }
                },
                None => {
                    assert forall|j: int| 0 <= j < clusters.len() implies !fits_cluster(
                        m,
                        tau,
                        clusters[j],
                        id,
                    ) by {
                        if j > 0 {
                            assert(clusters[j] == rest[j - 1]);
                        }
                    }
                },
            }
        }
    }
}

/// Membership bound: every member of every greedy cluster comes from the
/// input, and every cluster is nonempty.
pub open spec fn members_below(clusters: Seq<Seq<usize>>, n: nat) -> bool {
    forall|c: int, k: int|
        0 <= c < clusters.len() && 0 <= k < clusters[c].len() ==> (#[trigger] clusters[c][k]) < n
}

/// Whether every pair of distinct members of the cluster is at least
/// `tau`-similar.
pub open spec fn is_clique(m: &SimMatrix, tau: int, cl: Seq<usize>) -> bool {
    forall|p: int, q: int|
        0 <= p < cl.len() && 0 <= q < cl.len() && p != q ==> m.sim(
            #[trigger] cl[p] as int,
            #[trigger] cl[q] as int,
        ) >= tau
}

/// Whether every cluster of the list is a clique at the threshold.
pub open spec fn all_cliques(m: &SimMatrix, tau: int, clusters: Seq<Seq<usize>>) -> bool {
    forall|c: int| 0 <= c < clusters.len() ==> is_clique(m, tau, #[trigger] clusters[c])
}

/// One greedy step keeps every cluster a clique and every member in range.
proof fn lemma_place_preserves(
    m: &SimMatrix,
    tau: int,
    clusters: Seq<Seq<usize>>,
    id: usize,
)
    requires
        m.wf(),
        id < m.n(),
        all_cliques(m, tau, clusters),
        members_below(clusters, m.n()),
    ensures
        all_cliques(m, tau, place(m, tau, clusters, id)),
        members_below(place(m, tau, clusters, id), m.n()),
        place(m, tau, clusters, id).len() >= clusters.len(),
{
    lemma_first_fit_ensures(m, tau, clusters, id);
    let after = place(m, tau, clusters, id);
    match first_fit(m, tau, clusters, id) {
        Some(i) => {
            let grown = clusters[i].push(id);
            assert(is_clique(m, tau, grown)) by {
                assert forall|p: int, q: int|
                    0 <= p < grown.len() && 0 <= q < grown.len() && p != q implies m.sim(
                    grown[p] as int,
                    grown[q] as int,
                ) >= tau by {
                    if p < grown.len() - 1 && q < grown.len() - 1 {
                        assert(grown[p] == clusters[i][p]);
                        assert(grown[q] == clusters[i][q]);
                        assert(is_clique(m, tau, clusters[i]));
                    } else if q == grown.len() - 1 {
                        assert(grown[p] == clusters[i][p]);
                        assert(m.sim(id as int, clusters[i][p] as int) >= tau);
                        assert(m.sim(grown[p] as int, grown[q] as int) == m.sim(
                            id as int,
                            clusters[i][p] as int,
                        ));
                    } else {
                        assert(grown[q] == clusters[i][q]);
                        assert(m.sim(id as int, clusters[i][q] as int) >= tau);
                    }
                }
            }
            assert forall|c: int| 0 <= c < after.len() implies is_clique(m, tau, after[c]) by {
                if c != i {
                    assert(after[c] == clusters[c]);
                }
            }
            assert forall|c: int, k: int|
                0 <= c < after.len() && 0 <= k < after[c].len() implies (#[trigger] after[c][k])
                < m.n() by {
                if c != i {
                    assert(after[c] == clusters[c]);
                } else {
                    if k < grown.len() - 1 {
                        assert(grown[k] == clusters[i][k]);
                    }
                }
            }
        },
        None => {
            assert forall|c: int| 0 <= c < after.len() implies is_clique(m, tau, after[c]) by {
                if c < clusters.len() {
                    assert(after[c] == clusters[c]);
                } else {
                    assert(after[c] =~= seq![id]);
                }
            }
            assert forall|c: int, k: int|
                0 <= c < after.len() && 0 <= k < after[c].len() implies (#[trigger] after[c][k])
                < m.n() by {
                if c < clusters.len() {
                    assert(after[c] == clusters[c]);
                } else {
                    assert(after[c] =~= seq![id]);
                }
            }
        },
    }
}

/// Law: every cluster that the greedy pass yields is a clique at the
/// threshold, and every member comes from the input range.
pub proof fn lemma_greedy_cliques(m: &SimMatrix, tau: int, ids: Seq<usize>)
    requires
        m.wf(),
        forall|k: int| 0 <= k < ids.len() ==> (#[trigger] ids[k]) < m.n(),
    ensures
        all_cliques(m, tau, greedy(m, tau, ids)),
        members_below(greedy(m, tau, ids), m.n()),
    decreases ids.len(),
{
    if ids.len() > 0 {
        lemma_greedy_cliques(m, tau, ids.drop_last());
        lemma_place_preserves(m, tau, greedy(m, tau, ids.drop_last()), ids.last());
    }
}

/// Whether every cluster of the list is nonempty.
pub open spec fn all_nonempty(clusters: Seq<Seq<usize>>) -> bool {
    forall|c: int| 0 <= c < clusters.len() ==> (#[trigger] clusters[c]).len() > 0
}

/// Whether every member of every cluster comes from the given points.
pub open spec fn members_from(clusters: Seq<Seq<usize>>, ids: Seq<usize>) -> bool {
    forall|c: int, k: int|
        0 <= c < clusters.len() && 0 <= k < clusters[c].len() ==> ids.contains(
            #[trigger] clusters[c][k],
        )
}

/// Whether no point appears twice, within one cluster or across two.
pub open spec fn members_distinct(clusters: Seq<Seq<usize>>) -> bool {
    forall|c1: int, k1: int, c2: int, k2: int|
        0 <= c1 < clusters.len() && 0 <= k1 < clusters[c1].len() && 0 <= c2 < clusters.len() && 0
            <= k2 < clusters[c2].len() && (c1 != c2 || k1 != k2) ==> #[trigger] clusters[c1][k1]
            != #[trigger] clusters[c2][k2]
}

/// Whether every given point appears in some cluster.
pub open spec fn members_cover(clusters: Seq<Seq<usize>>, ids: Seq<usize>) -> bool {
    forall|t: int|
        0 <= t < ids.len() ==> exists|c: int, k: int|
            0 <= c < clusters.len() && 0 <= k < clusters[c].len() && clusters[c][k] == #[trigger] ids[t]
}

/// Law: the greedy pass partitions its distinct input points: every cluster
/// is nonempty, every member comes from the input, no point appears twice,
/// and every input point appears.
pub proof fn lemma_greedy_partition(m: &SimMatrix, tau: int, ids: Seq<usize>)
    requires
        forall|i: int, j: int| 0 <= i < j < ids.len() ==> ids[i] != ids[j],
    ensures
        all_nonempty(greedy(m, tau, ids)),
        members_from(greedy(m, tau, ids), ids),
        members_distinct(greedy(m, tau, ids)),
        members_cover(greedy(m, tau, ids), ids),
    decreases ids.len(),
{
    if ids.len() > 0 {
        let prefix = ids.drop_last();
        let id = ids.last();
        lemma_greedy_partition(m, tau, prefix);
        let before = greedy(m, tau, prefix);
        let after = place(m, tau, before, id);
        lemma_first_fit_ensures(m, tau, before, id);
        assert(!prefix.contains(id)) by {
            if prefix.contains(id) {
                let t = choose|t: int| 0 <= t < prefix.len() && prefix[t] == id;
                assert(ids[t] == ids[ids.len() - 1]);
            }
        }
        assert(forall|t: int| 0 <= t < prefix.len() ==> ids.contains(#[trigger] prefix[t])) by {
            assert forall|t: int| 0 <= t < prefix.len() implies ids.contains(
                #[trigger] prefix[t],
            ) by {
                assert(prefix[t] == ids[t]);
            }
        }
        match first_fit(m, tau, before, id) {
            Some(i) => {
                let grown = before[i].push(id);
                assert(after == before.update(i, grown));
                assert forall|c: int| 0 <= c < after.len() implies (#[trigger] after[c]).len()
                    > 0 by {
                    if c != i {
                        assert(after[c] == before[c]);
                    }
                }
                assert forall|c: int, k: int|
                    0 <= c < after.len() && 0 <= k < after[c].len() implies ids.contains(
                    #[trigger] after[c][k],
                ) by {
                    if c != i {
                        assert(after[c] == before[c]);
                        assert(ids.contains(before[c][k]));
                    } else {
                        if k < grown.len() - 1 {
                            assert(grown[k] == before[i][k]);
                            assert(ids.contains(before[i][k]));
                        } else {
                            assert(grown[k] == id);
                            assert(ids[ids.len() - 1] == id);
                        }
                    }
                }
                assert forall|c1: int, k1: int, c2: int, k2: int|
                    0 <= c1 < after.len() && 0 <= k1 < after[c1].len() && 0 <= c2 < after.len()
                        && 0 <= k2 < after[c2].len() && (c1 != c2 || k1 != k2) implies #[trigger] after[c1][k1]
                    != #[trigger] after[c2][k2] by {
                    let v1 = if c1 == i && k1 == grown.len() - 1 {
                        id
                    } else if c1 == i {
                        before[i][k1]
                    } else {
                        before[c1][k1]
                    };
                    let v2 = if c2 == i && k2 == grown.len() - 1 {
                        id
                    } else if c2 == i {
                        before[i][k2]
                    } else {
                        before[c2][k2]
                    };
                    assert(after[c1][k1] == v1);
                    assert(after[c2][k2] == v2);
                    if c1 == i && k1 == grown.len() - 1 {
                        if !(c2 == i && k2 == grown.len() - 1) {
                            assert(members_from(before, prefix));
                            assert(prefix.contains(v2));
                        }
                    } else if c2 == i && k2 == grown.len() - 1 {
                        assert(prefix.contains(v1));
                    }
                }
                assert forall|t: int| 0 <= t < ids.len() implies exists|c: int, k: int|
                    0 <= c < after.len() && 0 <= k < after[c].len() && after[c][k]
                        == #[trigger] ids[t] by {
                    if t < ids.len() - 1 {
                        assert(prefix[t] == ids[t]);
                        let (c, k) = choose|c: int, k: int|
                            0 <= c < before.len() && 0 <= k < before[c].len() && before[c][k]
                                == prefix[t];
                        if c != i {
                            assert(after[c][k] == ids[t]);
                        } else {
                            assert(grown[k] == before[i][k]);
                            assert(after[c][k] == ids[t]);
                        }
                    } else {
                        assert(after[i][grown.len() - 1] == ids[t]);
                    }
                }
            },
            None => {
                assert(after == before.push(seq![id]));
                assert forall|c: int| 0 <= c < after.len() implies (#[trigger] after[c]).len()
                    > 0 by {
                    if c < before.len() {
                        assert(after[c] == before[c]);
                    } else {
                        assert(after[c] == seq![id]);
                    }
                }
                assert forall|c: int, k: int|
                    0 <= c < after.len() && 0 <= k < after[c].len() implies ids.contains(
                    #[trigger] after[c][k],
                ) by {
                    if c < before.len() {
                        assert(after[c] == before[c]);
                        assert(ids.contains(before[c][k]));
                    } else {
                        assert(after[c] == seq![id]);
                        assert(ids[ids.len() - 1] == id);
                    }
                }
                assert forall|c1: int, k1: int, c2: int, k2: int|
                    0 <= c1 < after.len() && 0 <= k1 < after[c1].len() && 0 <= c2 < after.len()
                        && 0 <= k2 < after[c2].len() && (c1 != c2 || k1 != k2) implies #[trigger] after[c1][k1]
                    != #[trigger] after[c2][k2] by {
                    if c1 < before.len() && c2 < before.len() {
                        assert(after[c1] == before[c1]);
                        assert(after[c2] == before[c2]);
                    } else if c1 < before.len() {
                        assert(after[c1] == before[c1]);
                        assert(after[c2] == seq![id]);
                        assert(prefix.contains(before[c1][k1]));
                    } else if c2 < before.len() {
                        assert(after[c1] == seq![id]);
                        assert(after[c2] == before[c2]);
                        assert(prefix.contains(before[c2][k2]));
                    }
                }
                assert forall|t: int| 0 <= t < ids.len() implies exists|c: int, k: int|
                    0 <= c < after.len() && 0 <= k < after[c].len() && after[c][k]
                        == #[trigger] ids[t] by {
                    if t < ids.len() - 1 {
                        assert(prefix[t] == ids[t]);
                        let (c, k) = choose|c: int, k: int|
                            0 <= c < before.len() && 0 <= k < before[c].len() && before[c][k]
                                == prefix[t];
                        assert(after[c] == before[c]);
                        assert(after[c][k] == ids[t]);
                    } else {
                        assert(after[before.len() as int][0] == ids[t]);
                    }
                }
            },
        }
    }
}

/// Whether a point fits a cluster, checked over the members.
fn fits_exec(m: &SimMatrix, tau: i64, cl: &Vec<usize>, id: usize) -> (r: bool)
    requires
        m.wf(),
        id < m.n(),
        forall|k: int| 0 <= k < cl@.len() ==> (#[trigger] cl@[k]) < m.n(),
    ensures
        r == fits_cluster(m, tau as int, cl@, id),
{
    let mut k: usize = 0;
    while k < cl.len()
        invariant
            k <= cl@.len(),
            m.wf(),
            id < m.n(),
            forall|t: int| 0 <= t < cl@.len() ==> (#[trigger] cl@[t]) < m.n(),
            forall|t: int| 0 <= t < k ==> m.sim(id as int, #[trigger] cl@[t] as int) >= tau,
        decreases cl@.len() - k,
    {
        if m.get(id, cl[k]) < tau {
            return false;
        }
        k = k + 1;
    }
    true
}

/// Cluster one chunk of points by the greedy single-pass algorithm: each
/// point joins the first cluster whose every member is at least
/// `tau`-similar to it, in input order, or starts a new cluster.
pub fn cluster_chunk(m: &SimMatrix, tau: i64, ids: &Vec<usize>) -> (r: Vec<Vec<usize>>)
    requires
        m.wf(),
        forall|k: int| 0 <= k < ids@.len() ==> (#[trigger] ids@[k]) < m.n(),
    ensures
        r@.map_values(|c: Vec<usize>| c@) == greedy(m, tau as int, ids@),
        all_cliques(m, tau as int, r@.map_values(|c: Vec<usize>| c@)),
        members_below(r@.map_values(|c: Vec<usize>| c@), m.n()),
{
    let mut clusters: Vec<Vec<usize>> = Vec::new();
    let mut idx: usize = 0;
    proof {
        assert(ids@.take(0) =~= Seq::<usize>::empty());
        assert(clusters@.map_values(|c: Vec<usize>| c@) =~= Seq::<Seq<usize>>::empty());
        assert(greedy(m, tau as int, ids@.take(0)) =~= Seq::<Seq<usize>>::empty());
    }
    while idx < ids.len()
        invariant
            idx <= ids@.len(),
            m.wf(),
            forall|k: int| 0 <= k < ids@.len() ==> (#[trigger] ids@[k]) < m.n(),
            clusters@.map_values(|c: Vec<usize>| c@) == greedy(m, tau as int, ids@.take(idx as int)),
            members_below(clusters@.map_values(|c: Vec<usize>| c@), m.n()),
        decreases ids@.len() - idx,
    {
        let ghost pre = clusters@.map_values(|c: Vec<usize>| c@);
        let id = ids[idx];
        let mut c: usize = 0;
        let mut placed = false;
        while c < clusters.len() && !placed
            invariant
                c <= clusters@.len(),
                m.wf(),
                id < m.n(),
                members_below(clusters@.map_values(|cv: Vec<usize>| cv@), m.n()),
                !placed ==> forall|j: int|
                    0 <= j < c ==> !fits_cluster(m, tau as int, #[trigger] pre[j], id),
                placed ==> clusters@.map_values(|cv: Vec<usize>| cv@) == place(
                    m,
                    tau as int,
                    pre,
                    id,
                ),
                !placed ==> clusters@.map_values(|cv: Vec<usize>| cv@) == pre,
            decreases clusters@.len() - c, (if placed { 0int } else { 1int }),
        {
            proof {
                assert(clusters@.map_values(|cv: Vec<usize>| cv@)[c as int] == clusters@[c as int]@);
            }
            if fits_exec(m, tau, &clusters[c], id) {
                let mut grown = clusters.remove(c);
                grown.push(id);
                clusters.insert(c, grown);
                proof {
                    lemma_first_fit_ensures(m, tau as int, pre, id);
                    match first_fit(m, tau as int, pre, id) {
                        Some(i) => {
                            if i < c as int {
                                assert(!fits_cluster(m, tau as int, pre[i], id));
                            }
                            if i > c as int {
                                assert(!fits_cluster(m, tau as int, pre[c as int], id));
                            }
                            assert(i == c as int);
                        },
                        None => {
                            assert(!fits_cluster(m, tau as int, pre[c as int], id));
                        },
                    }
                    assert(clusters@.map_values(|cv: Vec<usize>| cv@) =~= pre.update(
                        c as int,
                        pre[c as int].push(id),
                    ));
                }
                placed = true;
            } else {
                c = c + 1;
            }
        }
        if !placed {
            let mut fresh: Vec<usize> = Vec::new();
            fresh.push(id);
            clusters.push(fresh);
            proof {
                lemma_first_fit_ensures(m, tau as int, pre, id);
                match first_fit(m, tau as int, pre, id) {
                    Some(i) => {
                        assert(!fits_cluster(m, tau as int, pre[i], id));
                    },
                    None => {},
                }
                assert(fresh@ =~= seq![id]);
                assert(clusters@.map_values(|cv: Vec<usize>| cv@) =~= pre.push(seq![id]));
            }
        }
        proof {
            assert(ids@.take(idx as int + 1).drop_last() =~= ids@.take(idx as int));
            assert(ids@.take(idx as int + 1).last() == id);
            assert(clusters@.map_values(|cv: Vec<usize>| cv@) == place(m, tau as int, pre, id));
            assert(greedy(m, tau as int, ids@.take(idx as int + 1)) == place(
                m,
                tau as int,
                greedy(m, tau as int, ids@.take(idx as int)),
                id,
            ));
            lemma_greedy_cliques(m, tau as int, ids@.take(idx as int + 1));
        }
        idx = idx + 1;
    }
    proof {
        assert(ids@.take(ids@.len() as int) =~= ids@);
        lemma_greedy_cliques(m, tau as int, ids@);
    }
    clusters
}

/// Whether every member of the local cluster is at least `tau`-similar to
/// every member of the global cluster.
pub open spec fn merge_fits(m: &SimMatrix, tau: int, local: Seq<usize>, global: Seq<usize>) -> bool {
    forall|p: int, q: int|
        0 <= p < local.len() && 0 <= q < global.len() ==> m.sim(
            #[trigger] local[p] as int,
            #[trigger] global[q] as int,
        ) >= tau
}

/// The first global cluster the local cluster can merge into, in order.
pub open spec fn merge_first_fit(
    m: &SimMatrix,
    tau: int,
    globals: Seq<Seq<usize>>,
    local: Seq<usize>,
) -> Option<int>
    decreases globals.len(),
{
    if globals.len() == 0 {
        None
    } else if merge_fits(m, tau, local, globals[0]) {
        Some(0)
    } else {
        match merge_first_fit(m, tau, globals.drop_first(), local) {
            Some(i) => Some(i + 1),
            None => None,
        }
    }
}

/// One merge step: the local cluster joins the first global cluster with
/// every cross pair at least `tau`-similar, or is appended as a new one.
pub open spec fn merge_model(
    m: &SimMatrix,
    tau: int,
    globals: Seq<Seq<usize>>,
    local: Seq<usize>,
) -> Seq<Seq<usize>> {
    match merge_first_fit(m, tau, globals, local) {
        Some(i) => globals.update(i, globals[i] + local),
        None => globals.push(local),
    }
}

/// Merging every local cluster in turn, in order.
pub open spec fn merge_all_model(
    m: &SimMatrix,
    tau: int,
    globals: Seq<Seq<usize>>,
    locals: Seq<Seq<usize>>,
) -> Seq<Seq<usize>>
    decreases locals.len(),
{
    if locals.len() == 0 {
        globals
    } else {
        merge_all_model(m, tau, merge_model(m, tau, globals, locals[0]), locals.drop_first())
    }
}

/// The clusters of the whole input, chunked at `cs` points, each chunk
/// clustered greedily on its own.
pub open spec fn chunked_greedy(m: &SimMatrix, tau: int, ids: Seq<usize>, cs: nat) -> Seq<
    Seq<usize>,
>
    decreases ids.len(),
{
    if ids.len() == 0 {
        Seq::empty()
    } else if ids.len() <= cs || cs == 0 {
        greedy(m, tau, ids)
    } else {
        greedy(m, tau, ids.take(cs as int)) + chunked_greedy(m, tau, ids.skip(cs as int), cs)
    }
}

/// `merge_first_fit` finds the least index that fits, and `None` only when
/// none fits.
proof fn lemma_merge_first_fit_ensures(
    m: &SimMatrix,
    tau: int,
    globals: Seq<Seq<usize>>,
    local: Seq<usize>,
)
    ensures
        match merge_first_fit(m, tau, globals, local) {
            Some(i) => 0 <= i < globals.len() && merge_fits(m, tau, local, globals[i]) && forall|
                j: int,
            | 0 <= j < i ==> !merge_fits(m, tau, local, globals[j]),
            None => forall|j: int|
                0 <= j < globals.len() ==> !merge_fits(m, tau, local, globals[j]),
        },
    decreases globals.len(),
{
    if globals.len() > 0 {
        if !merge_fits(m, tau, local, globals[0]) {
            let rest = globals.drop_first();
            lemma_merge_first_fit_ensures(m, tau, rest, local);
            match merge_first_fit(m, tau, rest, local) {
                Some(i) => {
                    assert(globals[i + 1] == rest[i]);
                    assert forall|j: int| 0 <= j < i + 1 implies !merge_fits(
                        m,
                        tau,
                        local,
                        globals[j],
                    ) by {
                        if j > 0 {
                            assert(globals[j] == rest[j - 1]);
                        }
                    }
                },
                None => {
                    assert forall|j: int| 0 <= j < globals.len() implies !merge_fits(
                        m,
                        tau,
                        local,
                        globals[j],
                    ) by {
                        if j > 0 {
                            assert(globals[j] == rest[j - 1]);
                        }
                    }
                },
            }
        }
    }
}

/// One merge step keeps every cluster a clique and every member in range.
pub proof fn lemma_merge_preserves(
    m: &SimMatrix,
    tau: int,
    globals: Seq<Seq<usize>>,
    local: Seq<usize>,
)
    requires
        m.wf(),
        all_cliques(m, tau, globals),
        members_below(globals, m.n()),
        is_clique(m, tau, local),
        forall|k: int| 0 <= k < local.len() ==> (#[trigger] local[k]) < m.n(),
    ensures
        all_cliques(m, tau, merge_model(m, tau, globals, local)),
        members_below(merge_model(m, tau, globals, local), m.n()),
{
    lemma_merge_first_fit_ensures(m, tau, globals, local);
    let after = merge_model(m, tau, globals, local);
    match merge_first_fit(m, tau, globals, local) {
        Some(i) => {
            let joined = globals[i] + local;
            let glen = globals[i].len() as int;
            assert(is_clique(m, tau, joined)) by {
                assert forall|p: int, q: int|
                    0 <= p < joined.len() && 0 <= q < joined.len() && p != q implies m.sim(
                    joined[p] as int,
                    joined[q] as int,
                ) >= tau by {
                    if p < glen && q < glen {
                        assert(joined[p] == globals[i][p]);
                        assert(joined[q] == globals[i][q]);
                        assert(is_clique(m, tau, globals[i]));
                    } else if p >= glen && q >= glen {
                        assert(joined[p] == local[p - glen]);
                        assert(joined[q] == local[q - glen]);
                    } else if p < glen && q >= glen {
                        assert(joined[p] == globals[i][p]);
                        assert(joined[q] == local[q - glen]);
                        assert(m.sim(local[q - glen] as int, globals[i][p] as int) >= tau);
                    } else {
                        assert(joined[p] == local[p - glen]);
                        assert(joined[q] == globals[i][q]);
                        assert(m.sim(local[p - glen] as int, globals[i][q] as int) >= tau);
                    }
                }
            }
            assert forall|c: int| 0 <= c < after.len() implies is_clique(m, tau, after[c]) by {
                if c != i {
                    assert(after[c] == globals[c]);
                }
            }
            assert forall|c: int, k: int|
                0 <= c < after.len() && 0 <= k < after[c].len() implies (#[trigger] after[c][k])
                < m.n() by {
                if c != i {
                    assert(after[c] == globals[c]);
                } else {
                    if k < glen {
                        assert(joined[k] == globals[i][k]);
                    } else {
                        assert(joined[k] == local[k - glen]);
                    }
                }
            }
        },
        None => {
            assert forall|c: int| 0 <= c < after.len() implies is_clique(m, tau, after[c]) by {
                if c < globals.len() {
                    assert(after[c] == globals[c]);
                } else {
                    assert(after[c] == local);
                }
            }
            assert forall|c: int, k: int|
                0 <= c < after.len() && 0 <= k < after[c].len() implies (#[trigger] after[c][k])
                < m.n() by {
                if c < globals.len() {
                    assert(after[c] == globals[c]);
                } else {
                    assert(after[c] == local);
                }
            }
        },
    }
}

/// Law: merging any list of clique clusters keeps every cluster a clique.
pub proof fn lemma_merge_all_preserves(
    m: &SimMatrix,
    tau: int,
    globals: Seq<Seq<usize>>,
    locals: Seq<Seq<usize>>,
)
    requires
        m.wf(),
        all_cliques(m, tau, globals),
        members_below(globals, m.n()),
        all_cliques(m, tau, locals),
        members_below(locals, m.n()),
    ensures
        all_cliques(m, tau, merge_all_model(m, tau, globals, locals)),
        members_below(merge_all_model(m, tau, globals, locals), m.n()),
    decreases locals.len(),
{
    if locals.len() > 0 {
        assert(is_clique(m, tau, locals[0]));
        assert(forall|k: int| 0 <= k < locals[0].len() ==> (#[trigger] locals[0][k]) < m.n());
        lemma_merge_preserves(m, tau, globals, locals[0]);
        let rest = locals.drop_first();
        assert forall|c: int| 0 <= c < rest.len() implies is_clique(m, tau, #[trigger] rest[c]) by {
            assert(rest[c] == locals[c + 1]);
        }
        assert forall|c: int, k: int|
            0 <= c < rest.len() && 0 <= k < rest[c].len() implies (#[trigger] rest[c][k])
            < m.n() by {
            assert(rest[c] == locals[c + 1]);
        }
        lemma_merge_all_preserves(m, tau, merge_model(m, tau, globals, locals[0]), rest);
    }
}

/// Whether every cross pair of a local and a global cluster is at least
/// `tau`-similar, checked over the members.
fn merge_fits_exec(m: &SimMatrix, tau: i64, local: &Vec<usize>, global: &Vec<usize>) -> (r: bool)
    requires
        m.wf(),
        forall|k: int| 0 <= k < local@.len() ==> (#[trigger] local@[k]) < m.n(),
        forall|k: int| 0 <= k < global@.len() ==> (#[trigger] global@[k]) < m.n(),
    ensures
        r == merge_fits(m, tau as int, local@, global@),
{
    let mut p: usize = 0;
    while p < local.len()
        invariant
            p <= local@.len(),
            m.wf(),
            forall|k: int| 0 <= k < local@.len() ==> (#[trigger] local@[k]) < m.n(),
            forall|k: int| 0 <= k < global@.len() ==> (#[trigger] global@[k]) < m.n(),
            forall|a: int, b: int|
                0 <= a < p && 0 <= b < global@.len() ==> m.sim(
                    #[trigger] local@[a] as int,
                    #[trigger] global@[b] as int,
                ) >= tau,
        decreases local@.len() - p,
    {
        let mut q: usize = 0;
        while q < global.len()
            invariant
                p < local@.len(),
                q <= global@.len(),
                m.wf(),
                forall|k: int| 0 <= k < local@.len() ==> (#[trigger] local@[k]) < m.n(),
                forall|k: int| 0 <= k < global@.len() ==> (#[trigger] global@[k]) < m.n(),
                forall|b: int|
                    0 <= b < q ==> m.sim(local@[p as int] as int, #[trigger] global@[b] as int)
                        >= tau,
            decreases global@.len() - q,
        {
            if m.get(local[p], global[q]) < tau {
                return false;
            }
            q = q + 1;
        }
        p = p + 1;
    }
    true
}

/// Merge one local cluster into the global list: it joins the first global
/// cluster with every cross pair at least `tau`-similar, or is appended.
pub fn merge_cluster(m: &SimMatrix, tau: i64, local: Vec<usize>, global: &mut Vec<Vec<usize>>)
    requires
        m.wf(),
        forall|k: int| 0 <= k < local@.len() ==> (#[trigger] local@[k]) < m.n(),
        members_below(old(global)@.map_values(|c: Vec<usize>| c@), m.n()),
    ensures
        final(global)@.map_values(|c: Vec<usize>| c@) == merge_model(
            m,
            tau as int,
            old(global)@.map_values(|c: Vec<usize>| c@),
            local@,
        ),
        members_below(final(global)@.map_values(|c: Vec<usize>| c@), m.n()),
{
    let ghost pre = global@.map_values(|c: Vec<usize>| c@);
    let mut g: usize = 0;
    loop
        invariant
            g <= global@.len(),
            m.wf(),
            pre == old(global)@.map_values(|c: Vec<usize>| c@),
            forall|k: int| 0 <= k < local@.len() ==> (#[trigger] local@[k]) < m.n(),
            members_below(global@.map_values(|c: Vec<usize>| c@), m.n()),
            global@.map_values(|c: Vec<usize>| c@) == pre,
            forall|j: int| 0 <= j < g ==> !merge_fits(m, tau as int, local@, #[trigger] pre[j]),
        ensures
            global@.map_values(|c: Vec<usize>| c@) == merge_model(m, tau as int, pre, local@),
            members_below(global@.map_values(|c: Vec<usize>| c@), m.n()),
        decreases global@.len() - g,
    {
        if g >= global.len() {
            global.push(local);
            proof {
                lemma_merge_first_fit_ensures(m, tau as int, pre, local@);
                match merge_first_fit(m, tau as int, pre, local@) {
                    Some(i) => {
                        assert(!merge_fits(m, tau as int, local@, pre[i]));
                    },
                    None => {},
                }
                assert(global@.map_values(|c: Vec<usize>| c@) =~= pre.push(local@));
            }
            return ;
        }
        proof {
            assert(global@.map_values(|cv: Vec<usize>| cv@)[g as int] == global@[g as int]@);
        }
        if merge_fits_exec(m, tau, &local, &global[g]) {
            let mut joined = global.remove(g);
            let mut moved = local;
            joined.append(&mut moved);
            global.insert(g, joined);
            proof {
                lemma_merge_first_fit_ensures(m, tau as int, pre, local@);
                match merge_first_fit(m, tau as int, pre, local@) {
                    Some(i) => {
                        if i < g as int {
                            assert(!merge_fits(m, tau as int, local@, pre[i]));
                        }
                        if i > g as int {
                            assert(!merge_fits(m, tau as int, local@, pre[g as int]));
                        }
                        assert(i == g as int);
                    },
                    None => {
                        assert(!merge_fits(m, tau as int, local@, pre[g as int]));
                    },
                }
                assert(global@.map_values(|c: Vec<usize>| c@) =~= pre.update(
                    g as int,
                    pre[g as int] + local@,
                ));
                let after = pre.update(g as int, pre[g as int] + local@);
                assert forall|c: int, k: int|
                    0 <= c < after.len() && 0 <= k < after[c].len() implies (#[trigger] after[c][k])
                    < m.n() by {
                    if c != g as int {
                        assert(after[c] == pre[c]);
                    } else {
                        if k < pre[g as int].len() {
                            assert(after[c][k] == pre[g as int][k]);
                        } else {
                            assert(after[c][k] == local@[k - pre[g as int].len()]);
                        }
                    }
                }
                assert(members_below(global@.map_values(|cv: Vec<usize>| cv@), m.n()));
            }
            return ;
        }
        g = g + 1;
    }
}

/// Cluster the points in two phases: greedy clique clustering of each
/// `chunk_size`-long chunk of the input, then a sequential merge of every
/// local cluster into the first global cluster it is `tau`-similar to
/// throughout. Every cluster of the result is a clique at the threshold.
pub fn cluster_two_phase(m: &SimMatrix, tau: i64, ids: &Vec<usize>, chunk_size: usize) -> (r: Vec<
    Vec<usize>,
>)
    requires
        m.wf(),
        chunk_size > 0,
        forall|k: int| 0 <= k < ids@.len() ==> (#[trigger] ids@[k]) < m.n(),
    ensures
        r@.map_values(|c: Vec<usize>| c@) == merge_all_model(
            m,
            tau as int,
            Seq::empty(),
            chunked_greedy(m, tau as int, ids@, chunk_size as nat),
        ),
        all_cliques(m, tau as int, r@.map_values(|c: Vec<usize>| c@)),
        members_below(r@.map_values(|c: Vec<usize>| c@), m.n()),
{
    let mut locals: Vec<Vec<usize>> = Vec::new();
    let mut lo: usize = 0;
    proof {
        assert(ids@.skip(0) =~= ids@);
        assert(locals@.map_values(|c: Vec<usize>| c@) =~= Seq::<Seq<usize>>::empty());
        assert(Seq::<Seq<usize>>::empty() + chunked_greedy(m, tau as int, ids@, chunk_size as nat)
            =~= chunked_greedy(m, tau as int, ids@, chunk_size as nat));
    }
    while lo < ids.len()
        invariant
            lo <= ids@.len(),
            m.wf(),
            chunk_size > 0,
            forall|k: int| 0 <= k < ids@.len() ==> (#[trigger] ids@[k]) < m.n(),
            chunked_greedy(m, tau as int, ids@, chunk_size as nat) == locals@.map_values(
                |c: Vec<usize>| c@,
            ) + chunked_greedy(m, tau as int, ids@.skip(lo as int), chunk_size as nat),
            members_below(locals@.map_values(|c: Vec<usize>| c@), m.n()),
            all_cliques(m, tau as int, locals@.map_values(|c: Vec<usize>| c@)),
        decreases ids@.len() - lo,
    {
        let hi = if ids.len() - lo <= chunk_size {
            ids.len()
        } else {
            lo + chunk_size
        };
        let mut chunk: Vec<usize> = Vec::new();
        let mut k: usize = lo;
        while k < hi
            invariant
                lo <= k <= hi,
                hi <= ids@.len(),
                forall|t: int| 0 <= t < ids@.len() ==> (#[trigger] ids@[t]) < m.n(),
                chunk@ == ids@.subrange(lo as int, k as int),
            decreases hi - k,
        {
            chunk.push(ids[k]);
            proof {
                assert(chunk@ =~= ids@.subrange(lo as int, k as int + 1));
            }
            k = k + 1;
        }
        proof {
            assert(chunk@ =~= ids@.skip(lo as int).take((hi - lo) as int));
        }
        let ghost pre_locals = locals@.map_values(|c: Vec<usize>| c@);
        let mut found = cluster_chunk(m, tau, &chunk);
        let ghost found_view = found@.map_values(|c: Vec<usize>| c@);
        locals.append(&mut found);
        proof {
            assert(locals@.map_values(|c: Vec<usize>| c@) =~= pre_locals + found_view);
            let rest = ids@.skip(lo as int);
            if hi < ids@.len() {
                assert(rest.len() > chunk_size);
                assert(rest.take(chunk_size as int) =~= chunk@);
                assert(rest.skip(chunk_size as int) =~= ids@.skip(hi as int));
                assert(chunked_greedy(m, tau as int, rest, chunk_size as nat) == greedy(
                    m,
                    tau as int,
                    chunk@,
                ) + chunked_greedy(m, tau as int, ids@.skip(hi as int), chunk_size as nat));
            } else {
                assert(rest =~= chunk@);
                assert(ids@.skip(hi as int).len() == 0);
                assert(ids@.skip(hi as int) =~= Seq::<usize>::empty());
                assert(chunked_greedy(
                    m,
                    tau as int,
                    ids@.skip(hi as int),
                    chunk_size as nat,
                ) =~= Seq::<Seq<usize>>::empty());
                if rest.len() == 0 {
                    assert(chunked_greedy(m, tau as int, rest, chunk_size as nat) =~= Seq::<
                        Seq<usize>,
                    >::empty());
                    assert(greedy(m, tau as int, chunk@) =~= Seq::<Seq<usize>>::empty());
                }
            }
            assert(chunked_greedy(m, tau as int, ids@, chunk_size as nat) =~= locals@.map_values(
                |c: Vec<usize>| c@,
            ) + chunked_greedy(m, tau as int, ids@.skip(hi as int), chunk_size as nat));
        }
        lo = hi;
    }
    proof {
        assert(ids@.skip(lo as int).len() == 0);
        assert(chunked_greedy(m, tau as int, ids@.skip(lo as int), chunk_size as nat) =~= Seq::<
            Seq<usize>,
        >::empty());
        assert(chunked_greedy(m, tau as int, ids@, chunk_size as nat) =~= locals@.map_values(
            |c: Vec<usize>| c@,
        ));
    }
    let ghost all_locals = locals@.map_values(|c: Vec<usize>| c@);
    let mut global: Vec<Vec<usize>> = Vec::new();
    proof {
        assert(global@.map_values(|c: Vec<usize>| c@) =~= Seq::<Seq<usize>>::empty());
    }
    let mut rest = locals;
    while rest.len() > 0
        invariant
            m.wf(),
            members_below(global@.map_values(|c: Vec<usize>| c@), m.n()),
            members_below(rest@.map_values(|c: Vec<usize>| c@), m.n()),
            all_cliques(m, tau as int, global@.map_values(|c: Vec<usize>| c@)),
            all_cliques(m, tau as int, rest@.map_values(|c: Vec<usize>| c@)),
            merge_all_model(m, tau as int, Seq::empty(), all_locals) == merge_all_model(
                m,
                tau as int,
                global@.map_values(|c: Vec<usize>| c@),
                rest@.map_values(|c: Vec<usize>| c@),
            ),
        decreases rest@.len(),
    {
        let ghost rest_pre = rest@.map_values(|c: Vec<usize>| c@);
        let local = rest.remove(0);
        proof {
            assert(rest@.map_values(|c: Vec<usize>| c@) =~= rest_pre.drop_first());
            assert(rest_pre[0] == local@);
            assert(forall|k: int| 0 <= k < local@.len() ==> (#[trigger] local@[k]) < m.n());
            assert(is_clique(m, tau as int, local@));
            lemma_merge_preserves(
                m,
                tau as int,
                global@.map_values(|c: Vec<usize>| c@),
                local@,
            );
            assert forall|c: int|
                0 <= c < rest_pre.drop_first().len() implies is_clique(
                m,
                tau as int,
                #[trigger] rest_pre.drop_first()[c],
            ) by {
                assert(rest_pre.drop_first()[c] == rest_pre[c + 1]);
            }
        }
        merge_cluster(m, tau, local, &mut global);
    }
    proof {
        assert(rest@.map_values(|c: Vec<usize>| c@) =~= Seq::<Seq<usize>>::empty());
    }
    global
}

} // verus!
