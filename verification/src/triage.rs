//! Cluster triage: for each similarity cluster, split off text-anomaly
//! survivors, separate GIFs from other images, pick the one kept non-GIF
//! survivor, and mark the rest for deletion. The four output lists are
//! pairwise disjoint and together give back the input cluster.

use crate::cluster::{all_cliques, cluster_chunk, greedy, members_below, SimMatrix};
use crate::point_id::PointId;
use crate::structure::{ext_of, str_eq, NekoPoint, NekoPointExt};
use vstd::prelude::*;

verus! {

/// The first metadata entry recorded for an identifier, scanning in order.
pub open spec fn assoc_get(
    entries: Seq<(PointId, NekoPoint, NekoPointExt)>,
    id: PointId,
) -> Option<(NekoPoint, NekoPointExt)>
    decreases entries.len(),
{
    if entries.len() == 0 {
        None
    } else if entries[0].0 == id {
        Some((entries[0].1, entries[0].2))
    } else {
        assoc_get(entries.drop_first(), id)
    }
}

/// The metadata side table: per-point metadata and object-store data, looked
/// up by identifier. The first entry recorded for an identifier wins.
pub struct MetaMap {
    entries: Vec<(PointId, NekoPoint, NekoPointExt)>,
}

impl MetaMap {
    /// The recorded entries, in order.
    pub closed spec fn entries(&self) -> Seq<(PointId, NekoPoint, NekoPointExt)> {
        self.entries@
    }

    /// The metadata recorded for an identifier.
    pub open spec fn spec_get(&self, id: PointId) -> Option<(NekoPoint, NekoPointExt)> {
        assoc_get(self.entries(), id)
    }

    /// An empty table.
    pub fn new() -> (r: MetaMap)
        ensures
            r.entries().len() == 0,
    {
        MetaMap { entries: Vec::new() }
    }

    /// Record the metadata of one point.
    pub fn push(&mut self, id: PointId, point: NekoPoint, ext: NekoPointExt)
        ensures
            final(self).entries() == old(self).entries().push((id, point, ext)),
    {
        self.entries.push((id, point, ext));
    }

    /// Look an identifier up.
    pub fn get(&self, id: &PointId) -> (r: Option<(&NekoPoint, &NekoPointExt)>)
        ensures
            match r {
                Some(pe) => self.spec_get(*id) == Some((*pe.0, *pe.1)),
                None => self.spec_get(*id) is None,
            },
    {
        let mut i: usize = 0;
        proof {
            assert(self.entries@.skip(0) =~= self.entries@);
        }
        while i < self.entries.len()
            invariant
                i <= self.entries@.len(),
                assoc_get(self.entries@, *id) == assoc_get(self.entries@.skip(i as int), *id),
            decreases self.entries@.len() - i,
        {
            proof {
                assert(self.entries@.skip(i as int).drop_first() =~= self.entries@.skip(
                    i as int + 1,
                ));
                assert(self.entries@.skip(i as int)[0] == self.entries@[i as int]);
            }
            if self.entries[i].0 == *id {
                return Some((&self.entries[i].1, &self.entries[i].2));
            }
            i = i + 1;
        }
        proof {
            assert(self.entries@.skip(i as int).len() == 0);
        }
        None
    }
}

/// Whether the point's metadata records a text embedding.
pub open spec fn has_text_spec(meta: &MetaMap, id: PointId) -> bool {
    match meta.spec_get(id) {
        Some(pe) => pe.0.text_info is Some,
        None => false,
    }
}

/// The recorded byte size of the point; zero when unknown.
pub open spec fn size_spec(meta: &MetaMap, id: PointId) -> nat {
    match meta.spec_get(id) {
        Some(pe) => match pe.0.size {
            Some(s) => s as nat,
            None => 0,
        },
        None => 0,
    }
}

/// Whether the point's recorded file extension is `gif`.
pub open spec fn is_gif_spec(meta: &MetaMap, id: PointId) -> bool {
    match meta.spec_get(id) {
        Some(pe) => ext_of(pe.1.file_path@) == "gif"@,
        None => false,
    }
}

/// Whether the point's metadata records a text embedding.
fn has_text(meta: &MetaMap, id: &PointId) -> (r: bool)
    ensures
        r == has_text_spec(meta, *id),
{
    match meta.get(id) {
        Some(pe) => pe.0.text_info.is_some(),
        None => false,
    }
}

/// The recorded byte size of the point; zero when unknown.
fn size_of(meta: &MetaMap, id: &PointId) -> (r: usize)
    ensures
        r as nat == size_spec(meta, *id),
{
    match meta.get(id) {
        Some(pe) => match pe.0.size {
            Some(s) => s,
            None => 0,
        },
        None => 0,
    }
}

/// Whether the point's recorded file extension is `gif`.
fn is_gif(meta: &MetaMap, id: &PointId) -> (r: bool)
    ensures
        r == is_gif_spec(meta, *id),
{
    match meta.get(id) {
        Some(pe) => str_eq(pe.1.ext(), "gif"),
        None => false,
    }
}

/// The cluster positions, below `p`, whose point has a text embedding, in
/// order.
pub open spec fn text_positions_upto(cluster: Seq<PointId>, meta: &MetaMap, p: nat) -> Seq<usize>
    decreases p,
{
    if p == 0 {
        Seq::empty()
    } else {
        let prefix = text_positions_upto(cluster, meta, (p - 1) as nat);
        if has_text_spec(meta, cluster[p - 1]) {
            prefix.push((p - 1) as usize)
        } else {
            prefix
        }
    }
}

/// The cluster positions whose point has a text embedding, in cluster order.
pub open spec fn text_positions(cluster: Seq<PointId>, meta: &MetaMap) -> Seq<usize> {
    text_positions_upto(cluster, meta, cluster.len())
}

/// Partition the cluster positions that carry a text embedding into
/// text-anomaly clusters: the greedy clique clustering of the text
/// similarities at the text threshold.
pub fn find_text_anomalies_clusters(
    cluster: &Vec<PointId>,
    meta: &MetaMap,
    text_sims: &SimMatrix,
    tau: i64,
) -> (r: Vec<Vec<usize>>)
    requires
        text_sims.wf(),
        cluster@.len() <= text_sims.n(),
    ensures
        r@.map_values(|c: Vec<usize>| c@) == greedy(
            text_sims,
            tau as int,
            text_positions(cluster@, meta),
        ),
        all_cliques(text_sims, tau as int, r@.map_values(|c: Vec<usize>| c@)),
        members_below(r@.map_values(|c: Vec<usize>| c@), text_sims.n()),
{
    let mut tpos: Vec<usize> = Vec::new();
    let mut p: usize = 0;
    proof {
        assert(tpos@ =~= text_positions_upto(cluster@, meta, 0));
    }
    while p < cluster.len()
        invariant
            p <= cluster@.len(),
            tpos@ == text_positions_upto(cluster@, meta, p as nat),
            forall|k: int| 0 <= k < tpos@.len() ==> (#[trigger] tpos@[k]) < p,
        decreases cluster@.len() - p,
    {
        if has_text(meta, &cluster[p]) {
            tpos.push(p);
        }
        p = p + 1;
    }
    proof {
        assert(forall|k: int|
            0 <= k < text_positions(cluster@, meta).len() ==> (#[trigger] text_positions(
                cluster@,
                meta,
            )[k]) < text_sims.n());
    }
    cluster_chunk(text_sims, tau, &tpos)
}

/// The positions below `p` that are not among the kept ones, in order.
pub open spec fn rest_positions_upto(kept: Seq<usize>, p: nat) -> Seq<usize>
    decreases p,
{
    if p == 0 {
        Seq::empty()
    } else {
        let prefix = rest_positions_upto(kept, (p - 1) as nat);
        if !kept.contains((p - 1) as usize) {
            prefix.push((p - 1) as usize)
        } else {
            prefix
        }
    }
}

/// Of the first `k` given positions, those whose point is a GIF (when
/// `keep_gif`) or is not (otherwise), in order.
pub open spec fn gif_split_upto(
    cluster: Seq<PointId>,
    meta: &MetaMap,
    pos: Seq<usize>,
    keep_gif: bool,
    k: nat,
) -> Seq<usize>
    decreases k,
{
    if k == 0 {
        Seq::empty()
    } else {
        let prefix = gif_split_upto(cluster, meta, pos, keep_gif, (k - 1) as nat);
        if is_gif_spec(meta, cluster[pos[k - 1] as int]) == keep_gif {
            prefix.push(pos[k - 1])
        } else {
            prefix
        }
    }
}

/// Of the first `k` given positions, those that differ from `keep`, in order.
pub open spec fn except_upto(pos: Seq<usize>, keep: usize, k: nat) -> Seq<usize>
    decreases k,
{
    if k == 0 {
        Seq::empty()
    } else {
        let prefix = except_upto(pos, keep, (k - 1) as nat);
        if pos[k - 1] != keep {
            prefix.push(pos[k - 1])
        } else {
            prefix
        }
    }
}

/// The index of the largest-size member of the given positions; later ties
/// win, matching a scan that replaces the running maximum on equality.
pub open spec fn argmax_size(cluster: Seq<PointId>, meta: &MetaMap, cl: Seq<usize>) -> int
    decreases cl.len(),
{
    if cl.len() <= 1 {
        0
    } else {
        let r = argmax_size(cluster, meta, cl.drop_last());
        if size_spec(meta, cluster[cl.last() as int]) >= size_spec(meta, cluster[cl[r] as int]) {
            cl.len() - 1
        } else {
            r
        }
    }
}

/// The kept position of each of the first `c` text clusters: its
/// largest-size member.
pub open spec fn kept_text_positions_upto(
    cluster: Seq<PointId>,
    meta: &MetaMap,
    tcls: Seq<Seq<usize>>,
    c: nat,
) -> Seq<usize>
    decreases c,
{
    if c == 0 {
        Seq::empty()
    } else {
        kept_text_positions_upto(cluster, meta, tcls, (c - 1) as nat).push(
            tcls[c - 1][argmax_size(cluster, meta, tcls[c - 1])],
        )
    }
}

/// The kept position of each text cluster: its largest-size member.
pub open spec fn kept_text_positions(
    cluster: Seq<PointId>,
    meta: &MetaMap,
    tcls: Seq<Seq<usize>>,
) -> Seq<usize> {
    kept_text_positions_upto(cluster, meta, tcls, tcls.len())
}

/// The identifiers at the given cluster positions, in order.
pub open spec fn ids_at(cluster: Seq<PointId>, pos: Seq<usize>) -> Seq<PointId> {
    pos.map_values(|p: usize| cluster[p as int])
}

/// What triage decides for one cluster, as four regions: the kept
/// text-anomaly survivors, the GIFs sent to refinement, the one kept non-GIF
/// survivor, and everything to delete.
pub open spec fn extract_model(
    cluster: Seq<PointId>,
    meta: &MetaMap,
    text_sims: &SimMatrix,
    tau_text: int,
) -> (Option<Seq<PointId>>, Option<Seq<PointId>>, Option<PointId>, Option<Seq<PointId>>) {
    let n = cluster.len();
    let tpos = text_positions(cluster, meta);
    let tcls = greedy(text_sims, tau_text, tpos);
    let kept_pos = kept_text_positions(cluster, meta, tcls);
    let kept_opt = if tpos.len() > 0 {
        Some(ids_at(cluster, kept_pos))
    } else {
        None
    };
    let rest = rest_positions_upto(kept_pos, n);
    if tpos.len() == n && kept_pos == tpos {
        (kept_opt, None, None, Some(ids_at(cluster, rest)))
    } else {
        let gifs = gif_split_upto(cluster, meta, rest, true, rest.len());
        let nong = gif_split_upto(cluster, meta, rest, false, rest.len());
        if gifs.len() >= 2 {
            (
                kept_opt,
                Some(ids_at(cluster, gifs)),
                None,
                if nong.len() > 0 {
                    Some(ids_at(cluster, nong))
                } else {
                    None
                },
            )
        } else if gifs.len() == 1 {
            (
                kept_opt,
                None,
                Some(cluster[gifs[0] as int]),
                if nong.len() > 0 {
                    Some(ids_at(cluster, nong))
                } else {
                    None
                },
            )
        } else if nong.len() > 0 {
            let keep = nong[argmax_size(cluster, meta, nong)];
            let dels = except_upto(nong, keep, nong.len());
            (
                kept_opt,
                None,
                Some(cluster[keep as int]),
                if dels.len() > 0 {
                    Some(ids_at(cluster, dels))
                } else {
                    None
                },
            )
        } else {
            (kept_opt, None, None, None)
        }
    }
}

/// The four regions triage carves one cluster into.
#[derive(Debug, Clone)]
pub struct ExtractedCluster {
    /// Kept text-anomaly survivors.
    pub kept_text_anomalies: Option<Vec<PointId>>,
    /// GIFs sent to the refinement pipeline.
    pub need_triage_gifs: Option<Vec<PointId>>,
    /// The one kept non-GIF survivor.
    pub kept_non_gif: Option<PointId>,
    /// Everything else: to be deleted.
    pub other_need_delete: Option<Vec<PointId>>,
}

/// Whether an optional identifier list equals an optional identifier
/// sequence.
pub open spec fn opt_ids_match(v: Option<Vec<PointId>>, s: Option<Seq<PointId>>) -> bool {
    match (v, s) {
        (Some(v), Some(s)) => v@ == s,
        (None, None) => true,
        _ => false,
    }
}

/// Whether the extracted regions are exactly what the model decides.
pub open spec fn extract_matches(
    r: ExtractedCluster,
    cluster: Seq<PointId>,
    meta: &MetaMap,
    text_sims: &SimMatrix,
    tau_text: int,
) -> bool {
    let model = extract_model(cluster, meta, text_sims, tau_text);
    &&& opt_ids_match(r.kept_text_anomalies, model.0)
    &&& opt_ids_match(r.need_triage_gifs, model.1)
    &&& r.kept_non_gif == model.2
    &&& opt_ids_match(r.other_need_delete, model.3)
}

/// The bounds of the text positions: all below the cluster length, strictly
/// increasing, and so distinct.
pub proof fn lemma_text_positions_bounds(cluster: Seq<PointId>, meta: &MetaMap, p: nat)
    requires
        p <= cluster.len(),
        p <= usize::MAX,
    ensures
        forall|k: int|
            0 <= k < text_positions_upto(cluster, meta, p).len()
                ==> (#[trigger] text_positions_upto(cluster, meta, p)[k]) < p,
        forall|k1: int, k2: int|
            0 <= k1 < k2 < text_positions_upto(cluster, meta, p).len()
                ==> text_positions_upto(cluster, meta, p)[k1] < text_positions_upto(
                cluster,
                meta,
                p,
            )[k2],
    decreases p,
{
    if p > 0 {
        lemma_text_positions_bounds(cluster, meta, (p - 1) as nat);
        let prev = text_positions_upto(cluster, meta, (p - 1) as nat);
        let cur = text_positions_upto(cluster, meta, p);
        if has_text_spec(meta, cluster[p - 1]) {
            assert(cur == prev.push((p - 1) as usize));
            assert forall|k: int| 0 <= k < cur.len() implies (#[trigger] cur[k]) < p by {
                if k < prev.len() {
                    assert(cur[k] == prev[k]);
                } else {
                    assert(cur[k] == (p - 1) as usize);
                }
            }
            assert forall|k1: int, k2: int| 0 <= k1 < k2 < cur.len() implies cur[k1]
                < cur[k2] by {
                if k2 < prev.len() {
                    assert(prev[k1] < prev[k2]);
                    assert(cur[k1] == prev[k1]);
                    assert(cur[k2] == prev[k2]);
                } else {
                    assert(cur[k1] == prev[k1]);
                    assert(cur[k2] == (p - 1) as usize);
                    assert(prev[k1] < p - 1);
                }
            }
        } else {
            assert(cur == prev);
        }
    }
}

/// Whether a list of positions holds one equal to `x`.
fn pos_contains(v: &Vec<usize>, x: usize) -> (r: bool)
    ensures
        r == v@.contains(x),
{
    let mut i: usize = 0;
    while i < v.len()
        invariant
            i <= v@.len(),
            forall|k: int| 0 <= k < i ==> v@[k] != x,
        decreases v@.len() - i,
    {
        if v[i] == x {
            return true;
        }
        i = i + 1;
    }
    false
}

/// Whether two position lists are equal.
fn pos_eq(a: &Vec<usize>, b: &Vec<usize>) -> (r: bool)
    ensures
        r == (a@ == b@),
{
    if a.len() != b.len() {
        return false;
    }
    let mut i: usize = 0;
    while i < a.len()
        invariant
            i <= a@.len(),
            a@.len() == b@.len(),
            forall|k: int| 0 <= k < i ==> a@[k] == b@[k],
        decreases a@.len() - i,
    {
        if a[i] != b[i] {
            return false;
        }
        i = i + 1;
    }
    proof {
        assert(a@ =~= b@);
    }
    true
}

/// The index of the largest-size member of the given positions; later ties
/// win.
fn argmax_size_exec(cluster: &Vec<PointId>, meta: &MetaMap, cl: &Vec<usize>) -> (r: usize)
    requires
        cl@.len() > 0,
        forall|k: int| 0 <= k < cl@.len() ==> (#[trigger] cl@[k]) < cluster@.len(),
    ensures
        r < cl@.len(),
        r as int == argmax_size(cluster@, meta, cl@),
{
    let mut best: usize = 0;
    let mut k: usize = 1;
    proof {
        assert(cl@.take(1).len() == 1);
        assert(argmax_size(cluster@, meta, cl@.take(1)) == 0);
    }
    while k < cl.len()
        invariant
            1 <= k <= cl@.len(),
            best < k,
            forall|t: int| 0 <= t < cl@.len() ==> (#[trigger] cl@[t]) < cluster@.len(),
            best as int == argmax_size(cluster@, meta, cl@.take(k as int)),
        decreases cl@.len() - k,
    {
        proof {
            assert(cl@.take(k as int + 1).drop_last() =~= cl@.take(k as int));
            assert(cl@.take(k as int + 1).last() == cl@[k as int]);
            assert(cl@.take(k as int + 1)[best as int] == cl@[best as int]);
        }
        if size_of(meta, &cluster[cl[k]]) >= size_of(meta, &cluster[cl[best]]) {
            best = k;
        }
        k = k + 1;
    }
    proof {
        assert(cl@.take(cl@.len() as int) =~= cl@);
    }
    best
}

/// The identifiers at the given cluster positions.
fn ids_at_exec(cluster: &Vec<PointId>, pos: &Vec<usize>) -> (r: Vec<PointId>)
    requires
        forall|k: int| 0 <= k < pos@.len() ==> (#[trigger] pos@[k]) < cluster@.len(),
    ensures
        r@ == ids_at(cluster@, pos@),
{
    let mut r: Vec<PointId> = Vec::new();
    let mut i: usize = 0;
    while i < pos.len()
        invariant
            i <= pos@.len(),
            forall|k: int| 0 <= k < pos@.len() ==> (#[trigger] pos@[k]) < cluster@.len(),
            r@.len() == i,
            forall|k: int| 0 <= k < i ==> r@[k] == cluster@[pos@[k] as int],
        decreases pos@.len() - i,
    {
        r.push(cluster[pos[i]]);
        i = i + 1;
    }
    proof {
        assert(r@ =~= ids_at(cluster@, pos@));
    }
    r
}

/// Triage one similarity cluster. The points that carry a text embedding are
/// clustered at the text threshold and each such cluster keeps its
/// largest-size member; if that covers the whole cluster, the rest is
/// deleted. Otherwise the remaining points split by file extension: two or
/// more GIFs go to refinement, a single GIF survives by itself, and with no
/// GIF the largest-size remaining point survives. Everything else is marked
/// for deletion.
pub fn extract_cluster(
    cluster: &Vec<PointId>,
    meta: &MetaMap,
    text_sims: &SimMatrix,
    tau_text: i64,
) -> (r: ExtractedCluster)
    requires
        text_sims.wf(),
        cluster@.len() <= text_sims.n(),
    ensures
        extract_matches(r, cluster@, meta, text_sims, tau_text as int),
{
    let n = cluster.len();
    let ghost tpos_spec = text_positions(cluster@, meta);
    let ghost tcls_spec = greedy(text_sims, tau_text as int, tpos_spec);
    proof {
        lemma_text_positions_bounds(cluster@, meta, cluster@.len());
        crate::cluster::lemma_greedy_partition(text_sims, tau_text as int, tpos_spec);
    }
    // Text positions, rebuilt here so the anomaly clusters can index them.
    let mut tpos: Vec<usize> = Vec::new();
    let mut p: usize = 0;
    proof {
        assert(tpos@ =~= text_positions_upto(cluster@, meta, 0));
    }
    while p < n
        invariant
            p <= cluster@.len(),
            n == cluster@.len(),
            tpos@ == text_positions_upto(cluster@, meta, p as nat),
        decreases n - p,
    {
        if has_text(meta, &cluster[p]) {
            tpos.push(p);
        }
        p = p + 1;
    }
    let tcls = find_text_anomalies_clusters(cluster, meta, text_sims, tau_text);
    let ghost tcls_view = tcls@.map_values(|c: Vec<usize>| c@);
    // The kept survivor of each text cluster: its largest-size member.
    let mut kept_pos: Vec<usize> = Vec::new();
    let mut kept_ids: Vec<PointId> = Vec::new();
    let mut c: usize = 0;
    proof {
        assert(kept_pos@ =~= kept_text_positions_upto(cluster@, meta, tcls_view, 0));
    }
    while c < tcls.len()
        invariant
            c <= tcls@.len(),
            n == cluster@.len(),
            tcls_view == tcls@.map_values(|cv: Vec<usize>| cv@),
            crate::cluster::all_nonempty(tcls_view),
            crate::cluster::members_from(tcls_view, tpos_spec),
            forall|k: int| 0 <= k < tpos_spec.len() ==> (#[trigger] tpos_spec[k]) < cluster@.len(),
            kept_pos@ == kept_text_positions_upto(cluster@, meta, tcls_view, c as nat),
            kept_ids@ == ids_at(cluster@, kept_pos@),
            forall|k: int| 0 <= k < kept_pos@.len() ==> (#[trigger] kept_pos@[k]) < cluster@.len(),
        decreases tcls@.len() - c,
    {
        proof {
            assert(tcls_view[c as int] == tcls@[c as int]@);
            assert(tcls_view[c as int].len() > 0);
            assert forall|k: int| 0 <= k < tcls@[c as int]@.len() implies (#[trigger] tcls@[c as int]@[k])
                < cluster@.len() by {
                assert(tpos_spec.contains(tcls_view[c as int][k]));
                let t = choose|t: int| 0 <= t < tpos_spec.len() && tpos_spec[t] == tcls_view[c as int][k];
            }
        }
        let best = argmax_size_exec(cluster, meta, &tcls[c]);
        let kept = tcls[c][best];
        kept_pos.push(kept);
        kept_ids.push(cluster[kept]);
        proof {
            assert(kept_pos@ =~= kept_text_positions_upto(
                cluster@,
                meta,
                tcls_view,
                c as nat + 1,
            ));
            assert(kept_ids@ =~= ids_at(cluster@, kept_pos@));
        }
        c = c + 1;
    }
    let ghost kept_pos_spec = kept_text_positions(cluster@, meta, tcls_view);
    let kept_opt = if tpos.len() > 0 {
        Some(kept_ids)
    } else {
        None
    };
    // Everything not kept as a text anomaly.
    let mut rest: Vec<usize> = Vec::new();
    let mut p: usize = 0;
    proof {
        assert(rest@ =~= rest_positions_upto(kept_pos_spec, 0));
    }
    while p < n
        invariant
            p <= cluster@.len(),
            n == cluster@.len(),
            kept_pos@ == kept_pos_spec,
            rest@ == rest_positions_upto(kept_pos_spec, p as nat),
            forall|k: int| 0 <= k < rest@.len() ==> (#[trigger] rest@[k]) < cluster@.len(),
        decreases n - p,
    {
        if !pos_contains(&kept_pos, p) {
            rest.push(p);
        }
        p = p + 1;
    }
    // Early exit: every point carried text and every one was kept.
    if tpos.len() == n && pos_eq(&kept_pos, &tpos) {
        let dels = ids_at_exec(cluster, &rest);
        return ExtractedCluster {
            kept_text_anomalies: kept_opt,
            need_triage_gifs: None,
            kept_non_gif: None,
            other_need_delete: Some(dels),
        };
    }
    // Split the remainder into GIFs and the rest.
    let mut gifs: Vec<usize> = Vec::new();
    let mut nong: Vec<usize> = Vec::new();
    let mut k: usize = 0;
    proof {
        assert(gifs@ =~= gif_split_upto(cluster@, meta, rest@, true, 0));
        assert(nong@ =~= gif_split_upto(cluster@, meta, rest@, false, 0));
    }
    while k < rest.len()
        invariant
            k <= rest@.len(),
            n == cluster@.len(),
            forall|t: int| 0 <= t < rest@.len() ==> (#[trigger] rest@[t]) < cluster@.len(),
            gifs@ == gif_split_upto(cluster@, meta, rest@, true, k as nat),
            nong@ == gif_split_upto(cluster@, meta, rest@, false, k as nat),
            forall|t: int| 0 <= t < gifs@.len() ==> (#[trigger] gifs@[t]) < cluster@.len(),
            forall|t: int| 0 <= t < nong@.len() ==> (#[trigger] nong@[t]) < cluster@.len(),
        decreases rest@.len() - k,
    {
        if is_gif(meta, &cluster[rest[k]]) {
            gifs.push(rest[k]);
        } else {
            nong.push(rest[k]);
        }
        k = k + 1;
    }
    if gifs.len() >= 2 {
        let gif_ids = ids_at_exec(cluster, &gifs);
        let dels = if nong.len() > 0 {
            Some(ids_at_exec(cluster, &nong))
        } else {
            None
        };
        ExtractedCluster {
            kept_text_anomalies: kept_opt,
            need_triage_gifs: Some(gif_ids),
            kept_non_gif: None,
            other_need_delete: dels,
        }
    } else if gifs.len() == 1 {
        let dels = if nong.len() > 0 {
            Some(ids_at_exec(cluster, &nong))
        } else {
            None
        };
        ExtractedCluster {
            kept_text_anomalies: kept_opt,
            need_triage_gifs: None,
            kept_non_gif: Some(cluster[gifs[0]]),
            other_need_delete: dels,
        }
    } else if nong.len() > 0 {
        let best = argmax_size_exec(cluster, meta, &nong);
        let keep = nong[best];
        let mut dels: Vec<usize> = Vec::new();
        let mut k: usize = 0;
        proof {
            assert(dels@ =~= except_upto(nong@, keep, 0));
        }
        while k < nong.len()
            invariant
                k <= nong@.len(),
                n == cluster@.len(),
                forall|t: int| 0 <= t < nong@.len() ==> (#[trigger] nong@[t]) < cluster@.len(),
                dels@ == except_upto(nong@, keep, k as nat),
                forall|t: int| 0 <= t < dels@.len() ==> (#[trigger] dels@[t]) < cluster@.len(),
            decreases nong@.len() - k,
        {
            if nong[k] != keep {
                dels.push(nong[k]);
            }
            k = k + 1;
        }
        let del_opt = if dels.len() > 0 {
            Some(ids_at_exec(cluster, &dels))
        } else {
            None
        };
        ExtractedCluster {
            kept_text_anomalies: kept_opt,
            need_triage_gifs: None,
            kept_non_gif: Some(cluster[keep]),
            other_need_delete: del_opt,
        }
    } else {
        ExtractedCluster {
            kept_text_anomalies: kept_opt,
            need_triage_gifs: None,
            kept_non_gif: None,
            other_need_delete: None,
        }
    }
}

/// The sequence under an optional identifier list; empty when absent.
pub open spec fn opt_seq(o: Option<Seq<PointId>>) -> Seq<PointId> {
    match o {
        Some(s) => s,
        None => Seq::empty(),
    }
}

/// The one-element sequence under an optional identifier; empty when absent.
pub open spec fn opt_id_seq(o: Option<PointId>) -> Seq<PointId> {
    match o {
        Some(id) => seq![id],
        None => Seq::empty(),
    }
}

/// Every identifier the four regions of the model hold, in order.
pub open spec fn model_all(
    model: (Option<Seq<PointId>>, Option<Seq<PointId>>, Option<PointId>, Option<Seq<PointId>>),
) -> Seq<PointId> {
    opt_seq(model.0) + opt_seq(model.1) + opt_id_seq(model.2) + opt_seq(model.3)
}

/// The largest-size index lies inside a nonempty position list.
proof fn lemma_argmax_range(cluster: Seq<PointId>, meta: &MetaMap, cl: Seq<usize>)
    requires
        cl.len() > 0,
    ensures
        0 <= argmax_size(cluster, meta, cl) < cl.len(),
    decreases cl.len(),
{
    if cl.len() > 1 {
        lemma_argmax_range(cluster, meta, cl.drop_last());
    }
}

/// The kept text positions: one per text cluster, its largest-size member.
proof fn lemma_kept_text_char(
    cluster: Seq<PointId>,
    meta: &MetaMap,
    tcls: Seq<Seq<usize>>,
    c: nat,
)
    requires
        c <= tcls.len(),
        crate::cluster::all_nonempty(tcls),
    ensures
        kept_text_positions_upto(cluster, meta, tcls, c).len() == c,
        forall|j: int|
            0 <= j < c ==> kept_text_positions_upto(cluster, meta, tcls, c)[j] == tcls[j][argmax_size(
                cluster,
                meta,
                tcls[j],
            )] && tcls[j].contains(
                kept_text_positions_upto(cluster, meta, tcls, c)[j],
            ),
    decreases c,
{
    if c > 0 {
        lemma_kept_text_char(cluster, meta, tcls, (c - 1) as nat);
        lemma_argmax_range(cluster, meta, tcls[c - 1]);
        let prev = kept_text_positions_upto(cluster, meta, tcls, (c - 1) as nat);
        let cur = kept_text_positions_upto(cluster, meta, tcls, c);
        assert forall|j: int|
            0 <= j < c implies cur[j] == tcls[j][argmax_size(cluster, meta, tcls[j])]
            && tcls[j].contains(cur[j]) by {
            if j < c - 1 {
                assert(cur[j] == prev[j]);
            } else {
                assert(cur[j] == tcls[j][argmax_size(cluster, meta, tcls[j])]);
            }
            lemma_argmax_range(cluster, meta, tcls[j]);
        }
    }
}

/// The rest positions: exactly those below `p` that are not kept, strictly
/// increasing.
proof fn lemma_rest_char(kept: Seq<usize>, p: nat)
    requires
        p <= usize::MAX,
    ensures
        forall|k: int|
            0 <= k < rest_positions_upto(kept, p).len()
                ==> (#[trigger] rest_positions_upto(kept, p)[k]) < p && !kept.contains(
                rest_positions_upto(kept, p)[k],
            ),
        forall|k1: int, k2: int|
            0 <= k1 < k2 < rest_positions_upto(kept, p).len() ==> rest_positions_upto(kept, p)[k1]
                < rest_positions_upto(kept, p)[k2],
        forall|q: usize|
            q < p && !kept.contains(q) ==> rest_positions_upto(kept, p).contains(q),
    decreases p,
{
    if p > 0 {
        lemma_rest_char(kept, (p - 1) as nat);
        let prev = rest_positions_upto(kept, (p - 1) as nat);
        let cur = rest_positions_upto(kept, p);
        if !kept.contains((p - 1) as usize) {
            assert(cur == prev.push((p - 1) as usize));
            assert forall|k: int| 0 <= k < cur.len() implies (#[trigger] cur[k]) < p
                && !kept.contains(cur[k]) by {
                if k < prev.len() {
                    assert(cur[k] == prev[k]);
                } else {
                    assert(cur[k] == (p - 1) as usize);
                }
            }
            assert forall|k1: int, k2: int| 0 <= k1 < k2 < cur.len() implies cur[k1]
                < cur[k2] by {
                if k2 < prev.len() {
                    assert(prev[k1] < prev[k2]);
                    assert(cur[k1] == prev[k1]);
                    assert(cur[k2] == prev[k2]);
                } else {
                    assert(cur[k1] == prev[k1]);
                    assert(cur[k2] == (p - 1) as usize);
                    assert(prev[k1] < p - 1);
                }
            }
            assert forall|q: usize| q < p && !kept.contains(q) implies cur.contains(q) by {
                if q < p - 1 {
                    assert(prev.contains(q));
                    let k = choose|k: int| 0 <= k < prev.len() && prev[k] == q;
                    assert(cur[k] == q);
                } else {
                    assert(cur[cur.len() - 1] == q);
                }
            }
        } else {
            assert(cur == prev);
            assert forall|q: usize| q < p && !kept.contains(q) implies cur.contains(q) by {
                assert(q != (p - 1) as usize);
                assert(q < p - 1);
            }
        }
    }
}

/// The GIF split: exactly the given positions whose GIF test matches, in
/// their given order, each position kept once.
proof fn lemma_gif_split_char(
    cluster: Seq<PointId>,
    meta: &MetaMap,
    pos: Seq<usize>,
    keep_gif: bool,
    k: nat,
)
    requires
        k <= pos.len(),
        forall|t1: int, t2: int| 0 <= t1 < t2 < pos.len() ==> pos[t1] != pos[t2],
    ensures
        forall|t: int|
            0 <= t < gif_split_upto(cluster, meta, pos, keep_gif, k).len() ==> (exists|u: int|
                0 <= u < k && #[trigger] pos[u] == gif_split_upto(cluster, meta, pos, keep_gif, k)[t])
                && is_gif_spec(
                meta,
                cluster[#[trigger] gif_split_upto(cluster, meta, pos, keep_gif, k)[t] as int],
            ) == keep_gif,
        forall|t1: int, t2: int|
            0 <= t1 < t2 < gif_split_upto(cluster, meta, pos, keep_gif, k).len()
                ==> gif_split_upto(cluster, meta, pos, keep_gif, k)[t1] != gif_split_upto(
                cluster,
                meta,
                pos,
                keep_gif,
                k,
            )[t2],
        forall|t: int|
            0 <= t < k && is_gif_spec(meta, cluster[pos[t] as int]) == keep_gif ==> gif_split_upto(
                cluster,
                meta,
                pos,
                keep_gif,
                k,
            ).contains(#[trigger] pos[t]),
    decreases k,
{
    if k > 0 {
        lemma_gif_split_char(cluster, meta, pos, keep_gif, (k - 1) as nat);
        let prev = gif_split_upto(cluster, meta, pos, keep_gif, (k - 1) as nat);
        let cur = gif_split_upto(cluster, meta, pos, keep_gif, k);
        if is_gif_spec(meta, cluster[pos[k - 1] as int]) == keep_gif {
            assert(cur == prev.push(pos[k - 1]));
            assert forall|t: int| 0 <= t < cur.len() implies (exists|u: int|
                0 <= u < k && #[trigger] pos[u] == cur[t]) && is_gif_spec(
                meta,
                cluster[cur[t] as int],
            ) == keep_gif by {
                if t < prev.len() {
                    assert(cur[t] == prev[t]);
                    let u = choose|u: int| 0 <= u < k - 1 && #[trigger] pos[u] == prev[t];
                    assert(pos[u] == cur[t]);
                } else {
                    assert(cur[t] == pos[k - 1]);
                }
            }
            assert forall|t1: int, t2: int| 0 <= t1 < t2 < cur.len() implies cur[t1]
                != cur[t2] by {
                if t2 < prev.len() {
                    assert(cur[t1] == prev[t1]);
                    assert(cur[t2] == prev[t2]);
                } else {
                    assert(cur[t1] == prev[t1]);
                    assert(cur[t2] == pos[k - 1]);
                    let u = choose|u: int| 0 <= u < k - 1 && #[trigger] pos[u] == prev[t1];
                    assert(pos[u] != pos[k - 1]);
                }
            }
            assert forall|t: int|
                0 <= t < k && is_gif_spec(meta, cluster[pos[t] as int]) == keep_gif implies cur.contains(
                #[trigger] pos[t],
            ) by {
                if t < k - 1 {
                    assert(prev.contains(pos[t]));
                    let s = choose|s: int| 0 <= s < prev.len() && prev[s] == pos[t];
                    assert(cur[s] == pos[t]);
                } else {
                    assert(cur[cur.len() - 1] == pos[t]);
                }
            }
        } else {
            assert(cur == prev);
            assert forall|t: int|
                0 <= t < k && is_gif_spec(meta, cluster[pos[t] as int]) == keep_gif implies cur.contains(
                #[trigger] pos[t],
            ) by {
                assert(t != k - 1);
            }
        }
    }
}

/// The delete split: exactly the given positions other than the kept one.
proof fn lemma_except_char(pos: Seq<usize>, keep: usize, k: nat)
    requires
        k <= pos.len(),
        forall|t1: int, t2: int| 0 <= t1 < t2 < pos.len() ==> pos[t1] != pos[t2],
    ensures
        forall|t: int|
            0 <= t < except_upto(pos, keep, k).len() ==> (exists|u: int|
                0 <= u < k && #[trigger] pos[u] == except_upto(pos, keep, k)[t]) && except_upto(
                pos,
                keep,
                k,
            )[t] != keep,
        forall|t1: int, t2: int|
            0 <= t1 < t2 < except_upto(pos, keep, k).len() ==> except_upto(pos, keep, k)[t1]
                != except_upto(pos, keep, k)[t2],
        forall|t: int|
            0 <= t < k && pos[t] != keep ==> except_upto(pos, keep, k).contains(#[trigger] pos[t]),
    decreases k,
{
    if k > 0 {
        lemma_except_char(pos, keep, (k - 1) as nat);
        let prev = except_upto(pos, keep, (k - 1) as nat);
        let cur = except_upto(pos, keep, k);
        if pos[k - 1] != keep {
            assert(cur == prev.push(pos[k - 1]));
            assert forall|t: int| 0 <= t < cur.len() implies (exists|u: int|
                0 <= u < k && #[trigger] pos[u] == cur[t]) && cur[t] != keep by {
                if t < prev.len() {
                    assert(cur[t] == prev[t]);
                    let u = choose|u: int| 0 <= u < k - 1 && #[trigger] pos[u] == prev[t];
                    assert(pos[u] == cur[t]);
                } else {
                    assert(cur[t] == pos[k - 1]);
                }
            }
            assert forall|t1: int, t2: int| 0 <= t1 < t2 < cur.len() implies cur[t1]
                != cur[t2] by {
                if t2 < prev.len() {
                    assert(cur[t1] == prev[t1]);
                    assert(cur[t2] == prev[t2]);
                } else {
                    assert(cur[t1] == prev[t1]);
                    assert(cur[t2] == pos[k - 1]);
                    let u = choose|u: int| 0 <= u < k - 1 && #[trigger] pos[u] == prev[t1];
                    assert(pos[u] != pos[k - 1]);
                }
            }
            assert forall|t: int| 0 <= t < k && pos[t] != keep implies cur.contains(
                #[trigger] pos[t],
            ) by {
                if t < k - 1 {
                    assert(prev.contains(pos[t]));
                    let s = choose|s: int| 0 <= s < prev.len() && prev[s] == pos[t];
                    assert(cur[s] == pos[t]);
                } else {
                    assert(cur[cur.len() - 1] == pos[t]);
                }
            }
        } else {
            assert(cur == prev);
            assert forall|t: int| 0 <= t < k && pos[t] != keep implies cur.contains(
                #[trigger] pos[t],
            ) by {
                assert(t != k - 1);
            }
        }
    }
}

/// A strictly increasing position list of length `n` with values below `n`
/// is the identity.
proof fn lemma_strict_inc_identity(s: Seq<usize>, n: nat)
    requires
        s.len() == n,
        forall|k: int| 0 <= k < s.len() ==> (#[trigger] s[k]) < n,
        forall|k1: int, k2: int| 0 <= k1 < k2 < s.len() ==> s[k1] < s[k2],
    ensures
        forall|k: int| 0 <= k < s.len() ==> (#[trigger] s[k]) as int == k,
{
    assert forall|k: int| 0 <= k < s.len() implies (#[trigger] s[k]) as int == k by {
        lemma_strict_inc_ge(s, k);
        lemma_strict_inc_le(s, k);
    }
}

proof fn lemma_strict_inc_ge(s: Seq<usize>, k: int)
    requires
        0 <= k < s.len(),
        forall|k1: int, k2: int| 0 <= k1 < k2 < s.len() ==> s[k1] < s[k2],
    ensures
        s[k] as int >= k,
    decreases k,
{
    if k > 0 {
        lemma_strict_inc_ge(s, k - 1);
    }
}

proof fn lemma_strict_inc_le(s: Seq<usize>, k: int)
    requires
        0 <= k < s.len(),
        forall|k1: int, k2: int| 0 <= k1 < k2 < s.len() ==> s[k1] < s[k2],
        forall|t: int| 0 <= t < s.len() ==> (#[trigger] s[t]) < s.len(),
    ensures
        s[k] as int <= k,
    decreases s.len() - k,
{
    if k < s.len() - 1 {
        lemma_strict_inc_le(s, k + 1);
    }
}

/// The combined region positions partition `0..n`: lifting them to
/// identifiers gives each cluster identifier exactly once.
proof fn lemma_partition_from_positions(cluster: Seq<PointId>, kp: Seq<usize>, rest_part: Seq<usize>)
    requires
        cluster.len() <= usize::MAX,
        forall|i: int, j: int| 0 <= i < j < cluster.len() ==> cluster[i] != cluster[j],
        forall|i: int, j: int| 0 <= i < j < kp.len() ==> kp[i] != kp[j],
        forall|i: int, j: int| 0 <= i < j < rest_part.len() ==> rest_part[i] != rest_part[j],
        forall|i: int| 0 <= i < kp.len() ==> (#[trigger] kp[i]) < cluster.len(),
        forall|i: int| 0 <= i < rest_part.len() ==> (#[trigger] rest_part[i]) < cluster.len(),
        forall|i: int| 0 <= i < rest_part.len() ==> !kp.contains(#[trigger] rest_part[i]),
        forall|q: usize| q < cluster.len() ==> kp.contains(q) || rest_part.contains(q),
    ensures
        ({
            let all = ids_at(cluster, kp + rest_part);
            &&& forall|i: int, j: int| 0 <= i < j < all.len() ==> all[i] != all[j]
            &&& forall|id: PointId| #[trigger] all.contains(id) <==> cluster.contains(id)
        }),
{
    let combined = kp + rest_part;
    let all = ids_at(cluster, combined);
    assert forall|i: int, j: int| 0 <= i < j < combined.len() implies combined[i]
        != combined[j] by {
        if i < kp.len() && j >= kp.len() {
            assert(combined[i] == kp[i]);
            assert(combined[j] == rest_part[j - kp.len()]);
            if kp[i] == rest_part[j - kp.len()] {
                assert(kp.contains(rest_part[j - kp.len()]));
            }
        } else if i >= kp.len() {
            assert(combined[i] == rest_part[i - kp.len()]);
            assert(combined[j] == rest_part[j - kp.len()]);
        }
    }
    assert forall|i: int| 0 <= i < combined.len() implies (#[trigger] combined[i])
        < cluster.len() by {
        if i >= kp.len() {
            assert(combined[i] == rest_part[i - kp.len()]);
        }
    }
    assert forall|i: int, j: int| 0 <= i < j < all.len() implies all[i] != all[j] by {
        assert(all[i] == cluster[combined[i] as int]);
        assert(all[j] == cluster[combined[j] as int]);
        assert(combined[i] != combined[j]);
        if combined[i] < combined[j] {
            assert(cluster[combined[i] as int] != cluster[combined[j] as int]);
        } else {
            assert(cluster[combined[j] as int] != cluster[combined[i] as int]);
        }
    }
    assert forall|id: PointId| #[trigger] all.contains(id) implies cluster.contains(id) by {
        let i = choose|i: int| 0 <= i < all.len() && all[i] == id;
        assert(all[i] == cluster[combined[i] as int]);
    }
    assert forall|id: PointId| cluster.contains(id) implies #[trigger] all.contains(id) by {
        let t = choose|t: int| 0 <= t < cluster.len() && cluster[t] == id;
        if kp.contains(t as usize) {
            let i = choose|i: int| 0 <= i < kp.len() && kp[i] == t as usize;
            assert(combined[i] == t as usize);
            assert(all[i] == id);
        } else {
            assert(rest_part.contains(t as usize));
            let i = choose|i: int| 0 <= i < rest_part.len() && rest_part[i] == t as usize;
            assert(combined[kp.len() + i] == t as usize);
            assert(all[kp.len() + i] == id);
        }
    }
}

/// Law: triage partitions its cluster. The four output regions are pairwise
/// disjoint, each is free of duplicates, and together they hold exactly the
/// identifiers of the input cluster.
#[verifier::rlimit(60)]
pub proof fn lemma_extract_partition(
    cluster: Seq<PointId>,
    meta: &MetaMap,
    text_sims: &SimMatrix,
    tau_text: int,
)
    requires
        text_sims.wf(),
        cluster.len() <= text_sims.n(),
        cluster.len() <= usize::MAX,
        forall|i: int, j: int| 0 <= i < j < cluster.len() ==> cluster[i] != cluster[j],
    ensures
        ({
            let all = model_all(extract_model(cluster, meta, text_sims, tau_text));
            &&& forall|i: int, j: int| 0 <= i < j < all.len() ==> all[i] != all[j]
            &&& forall|id: PointId| #[trigger] all.contains(id) <==> cluster.contains(id)
        }),
{
    let n = cluster.len();
    let tpos = text_positions(cluster, meta);
    let tcls = greedy(text_sims, tau_text, tpos);
    let kp = kept_text_positions(cluster, meta, tcls);
    let rest = rest_positions_upto(kp, n);
    let model = extract_model(cluster, meta, text_sims, tau_text);
    lemma_text_positions_bounds(cluster, meta, n);
    crate::cluster::lemma_greedy_partition(text_sims, tau_text, tpos);
    lemma_kept_text_char(cluster, meta, tcls, tcls.len());
    lemma_rest_char(kp, n);
    // The kept text positions come from the text positions, and are distinct.
    assert forall|j: int| 0 <= j < kp.len() implies (#[trigger] kp[j]) < n && tpos.contains(
        kp[j],
    ) by {
        assert(tcls[j].contains(kp[j]));
        let k = choose|k: int| 0 <= k < tcls[j].len() && tcls[j][k] == kp[j];
        assert(tpos.contains(tcls[j][k]));
        let t = choose|t: int| 0 <= t < tpos.len() && tpos[t] == kp[j];
        assert(tpos[t] < n);
    }
    assert forall|j1: int, j2: int| 0 <= j1 < j2 < kp.len() implies kp[j1] != kp[j2] by {
        assert(tcls[j1].contains(kp[j1]));
        assert(tcls[j2].contains(kp[j2]));
        let k1 = choose|k: int| 0 <= k < tcls[j1].len() && tcls[j1][k] == kp[j1];
        let k2 = choose|k: int| 0 <= k < tcls[j2].len() && tcls[j2][k] == kp[j2];
        assert(tcls[j1][k1] != tcls[j2][k2]);
    }
    // The first region is the kept identifiers whether or not it is wrapped.
    assert(opt_seq(model.0) == ids_at(cluster, kp)) by {
        if tpos.len() == 0 {
            assert(tcls.len() == 0) by {
                if tcls.len() > 0 {
                    assert(tcls[0].len() > 0);
                    assert(tpos.contains(tcls[0][0]));
                }
            }
            assert(kp.len() == 0);
            assert(ids_at(cluster, kp) =~= Seq::<PointId>::empty());
        }
    }
    if tpos.len() == n && kp == tpos {
        // Early exit: every point carried text and every one was kept.
        lemma_strict_inc_identity(tpos, n);
        assert forall|q: usize| q < n implies kp.contains(q) by {
            assert(tpos[q as int] == q);
        }
        assert(rest.len() == 0) by {
            if rest.len() > 0 {
                assert(rest[0] < n && !kp.contains(rest[0]));
            }
        }
        assert(rest =~= Seq::<usize>::empty());
        assert(ids_at(cluster, rest) =~= Seq::<PointId>::empty());
        lemma_partition_from_positions(cluster, kp, rest);
        assert(kp + rest =~= kp);
        assert(model_all(model) =~= ids_at(cluster, kp + rest));
    } else {
        let gifs = gif_split_upto(cluster, meta, rest, true, rest.len());
        let nong = gif_split_upto(cluster, meta, rest, false, rest.len());
        lemma_gif_split_char(cluster, meta, rest, true, rest.len());
        lemma_gif_split_char(cluster, meta, rest, false, rest.len());
        // Split members stay inside the rest, and the split covers it.
        assert forall|t: int| 0 <= t < gifs.len() implies rest.contains(#[trigger] gifs[t])
            && (gifs[t]) < n && !kp.contains(gifs[t]) by {
            let u = choose|u: int| 0 <= u < rest.len() && #[trigger] rest[u] == gifs[t];
            assert(rest.contains(rest[u]));
            assert(rest[u] < n && !kp.contains(rest[u]));
        }
        assert forall|t: int| 0 <= t < nong.len() implies rest.contains(#[trigger] nong[t])
            && (nong[t]) < n && !kp.contains(nong[t]) by {
            let u = choose|u: int| 0 <= u < rest.len() && #[trigger] rest[u] == nong[t];
            assert(rest.contains(rest[u]));
            assert(rest[u] < n && !kp.contains(rest[u]));
        }
        assert forall|q: usize| q < n && !kp.contains(q) implies gifs.contains(q) || nong.contains(
            q,
        ) by {
            assert(rest.contains(q));
            let u = choose|u: int| 0 <= u < rest.len() && rest[u] == q;
            if is_gif_spec(meta, cluster[rest[u] as int]) {
                assert(gifs.contains(rest[u]));
            } else {
                assert(nong.contains(rest[u]));
            }
        }
        assert forall|t1: int, t2: int|
            0 <= t1 < gifs.len() && 0 <= t2 < nong.len() implies gifs[t1] != nong[t2] by {
            assert(is_gif_spec(meta, cluster[gifs[t1] as int]));
            assert(!is_gif_spec(meta, cluster[nong[t2] as int]));
        }
        if gifs.len() >= 2 {
            let part = gifs + nong;
            assert forall|i: int, j: int| 0 <= i < j < part.len() implies part[i] != part[j] by {
                if j < gifs.len() {
                    assert(part[i] == gifs[i] && part[j] == gifs[j]);
                } else if i >= gifs.len() {
                    assert(part[i] == nong[i - gifs.len()] && part[j] == nong[j - gifs.len()]);
                } else {
                    assert(part[i] == gifs[i] && part[j] == nong[j - gifs.len()]);
                }
            }
            assert forall|i: int| 0 <= i < part.len() implies (#[trigger] part[i]) < n
                && !kp.contains(part[i]) by {
                if i < gifs.len() {
                    assert(part[i] == gifs[i]);
                } else {
                    assert(part[i] == nong[i - gifs.len()]);
                }
            }
            assert forall|q: usize| q < n implies kp.contains(q) || part.contains(q) by {
                if !kp.contains(q) {
                    if gifs.contains(q) {
                        let t = choose|t: int| 0 <= t < gifs.len() && gifs[t] == q;
                        assert(part[t] == q);
                    } else {
                        assert(nong.contains(q));
                        let t = choose|t: int| 0 <= t < nong.len() && nong[t] == q;
                        assert(part[gifs.len() + t] == q);
                    }
                }
            }
            lemma_partition_from_positions(cluster, kp, part);
            assert(ids_at(cluster, part) =~= ids_at(cluster, gifs) + ids_at(cluster, nong));
            assert(opt_seq(model.3) == ids_at(cluster, nong)) by {
                if nong.len() == 0 {
                    assert(ids_at(cluster, nong) =~= Seq::<PointId>::empty());
                }
            }
            assert(model_all(model) =~= ids_at(cluster, kp + part));
        } else if gifs.len() == 1 {
            let part = gifs + nong;
            assert forall|i: int, j: int| 0 <= i < j < part.len() implies part[i] != part[j] by {
                if j < gifs.len() {
                    assert(part[i] == gifs[i] && part[j] == gifs[j]);
                } else if i >= gifs.len() {
                    assert(part[i] == nong[i - gifs.len()] && part[j] == nong[j - gifs.len()]);
                } else {
                    assert(part[i] == gifs[i] && part[j] == nong[j - gifs.len()]);
                }
            }
            assert forall|i: int| 0 <= i < part.len() implies (#[trigger] part[i]) < n
                && !kp.contains(part[i]) by {
                if i < gifs.len() {
                    assert(part[i] == gifs[i]);
                } else {
                    assert(part[i] == nong[i - gifs.len()]);
                }
            }
            assert forall|q: usize| q < n implies kp.contains(q) || part.contains(q) by {
                if !kp.contains(q) {
                    if gifs.contains(q) {
                        let t = choose|t: int| 0 <= t < gifs.len() && gifs[t] == q;
                        assert(part[t] == q);
                    } else {
                        assert(nong.contains(q));
                        let t = choose|t: int| 0 <= t < nong.len() && nong[t] == q;
                        assert(part[gifs.len() + t] == q);
                    }
                }
            }
            lemma_partition_from_positions(cluster, kp, part);
            assert(ids_at(cluster, part) =~= ids_at(cluster, gifs) + ids_at(cluster, nong));
            assert(ids_at(cluster, gifs) =~= seq![cluster[gifs[0] as int]]);
            assert(opt_seq(model.3) == ids_at(cluster, nong)) by {
                if nong.len() == 0 {
                    assert(ids_at(cluster, nong) =~= Seq::<PointId>::empty());
                }
            }
            assert(model_all(model) =~= ids_at(cluster, kp + part));
        } else if nong.len() > 0 {
            let keep = nong[argmax_size(cluster, meta, nong)];
            let dels = except_upto(nong, keep, nong.len());
            lemma_argmax_range(cluster, meta, nong);
            lemma_except_char(nong, keep, nong.len());
            assert(nong.contains(keep));
            let part = seq![keep] + dels;
            assert forall|t: int| 0 <= t < dels.len() implies nong.contains(#[trigger] dels[t])
                && dels[t] != keep by {
                let u = choose|u: int| 0 <= u < nong.len() && #[trigger] nong[u] == dels[t];
                assert(nong.contains(nong[u]));
            }
            assert forall|i: int, j: int| 0 <= i < j < part.len() implies part[i] != part[j] by {
                if i == 0 {
                    assert(part[i] == keep);
                    assert(part[j] == dels[j - 1]);
                } else {
                    assert(part[i] == dels[i - 1] && part[j] == dels[j - 1]);
                }
            }
            assert forall|i: int| 0 <= i < part.len() implies (#[trigger] part[i]) < n
                && !kp.contains(part[i]) by {
                if i == 0 {
                    assert(part[i] == keep);
                    let u = choose|u: int| 0 <= u < nong.len() && nong[u] == keep;
                    assert(nong[u] < n && !kp.contains(nong[u]));
                } else {
                    assert(part[i] == dels[i - 1]);
                    let u = choose|u: int| 0 <= u < nong.len() && nong[u] == dels[i - 1];
                    assert(nong[u] < n && !kp.contains(nong[u]));
                }
            }
            assert forall|q: usize| q < n implies kp.contains(q) || part.contains(q) by {
                if !kp.contains(q) {
                    if gifs.contains(q) {
                        let t = choose|t: int| 0 <= t < gifs.len() && gifs[t] == q;
                    } else {
                        assert(nong.contains(q));
                        let u = choose|u: int| 0 <= u < nong.len() && nong[u] == q;
                        if q == keep {
                            assert(part[0] == q);
                        } else {
                            assert(dels.contains(nong[u]));
                            let t = choose|t: int| 0 <= t < dels.len() && dels[t] == q;
                            assert(part[1 + t] == q);
                        }
                    }
                }
            }
            lemma_partition_from_positions(cluster, kp, part);
            assert(ids_at(cluster, part) =~= seq![cluster[keep as int]] + ids_at(cluster, dels));
            assert(opt_seq(model.3) == ids_at(cluster, dels)) by {
                if dels.len() == 0 {
                    assert(ids_at(cluster, dels) =~= Seq::<PointId>::empty());
                }
            }
            assert(model_all(model) =~= ids_at(cluster, kp + part));
        } else {
            let part = Seq::<usize>::empty();
            assert forall|q: usize| q < n implies kp.contains(q) || part.contains(q) by {
                if !kp.contains(q) {
                    if gifs.contains(q) {
                        let t = choose|t: int| 0 <= t < gifs.len() && gifs[t] == q;
                    } else {
                        assert(nong.contains(q));
                        let t = choose|t: int| 0 <= t < nong.len() && nong[t] == q;
                    }
                }
            }
            lemma_partition_from_positions(cluster, kp, part);
            assert(kp + part =~= kp);
            assert(model_all(model) =~= ids_at(cluster, kp + part));
        }
    }
}

/// Triage every cluster of the list in turn.
pub fn extract_clusters(
    clusters: &Vec<Vec<PointId>>,
    meta: &MetaMap,
    text_sims: &Vec<SimMatrix>,
    tau_text: i64,
) -> (r: Vec<ExtractedCluster>)
    requires
        text_sims@.len() == clusters@.len(),
        forall|c: int|
            0 <= c < clusters@.len() ==> (#[trigger] text_sims@[c]).wf() && clusters@[c]@.len()
                <= text_sims@[c].n(),
    ensures
        r@.len() == clusters@.len(),
        forall|c: int|
            0 <= c < clusters@.len() ==> extract_matches(
                #[trigger] r@[c],
                clusters@[c]@,
                meta,
                &text_sims@[c],
                tau_text as int,
            ),
{
    let mut r: Vec<ExtractedCluster> = Vec::new();
    let mut c: usize = 0;
    while c < clusters.len()
        invariant
            c <= clusters@.len(),
            text_sims@.len() == clusters@.len(),
            forall|t: int|
                0 <= t < clusters@.len() ==> (#[trigger] text_sims@[t]).wf() && clusters@[t]@.len()
                    <= text_sims@[t].n(),
            r@.len() == c,
            forall|t: int|
                0 <= t < c ==> extract_matches(
                    #[trigger] r@[t],
                    clusters@[t]@,
                    meta,
                    &text_sims@[t],
                    tau_text as int,
                ),
        decreases clusters@.len() - c,
    {
        let one = extract_cluster(&clusters[c], meta, &text_sims[c], tau_text);
        r.push(one);
        c = c + 1;
    }
    r
}

/// Copy a list of identifiers.
pub fn copy_ids(v: &Vec<PointId>) -> (r: Vec<PointId>)
    ensures
        r@ == v@,
{
    let mut r: Vec<PointId> = Vec::new();
    let mut i: usize = 0;
    while i < v.len()
        invariant
            i <= v@.len(),
            r@ == v@.take(i as int),
        decreases v@.len() - i,
    {
        r.push(v[i]);
        proof {
            assert(r@ =~= v@.take(i as int + 1));
        }
        i = i + 1;
    }
    proof {
        assert(v@.take(v@.len() as int) =~= v@);
    }
    r
}

/// Copy a list of strings; the copies spell the same text.
pub fn copy_strings(v: &Vec<String>) -> (r: Vec<String>)
    ensures
        r@.len() == v@.len(),
        forall|j: int| 0 <= j < v@.len() ==> r@[j]@ == v@[j]@,
{
    let mut r: Vec<String> = Vec::new();
    let mut i: usize = 0;
    while i < v.len()
        invariant
            i <= v@.len(),
            r@.len() == i,
            forall|j: int| 0 <= j < i ==> r@[j]@ == v@[j]@,
        decreases v@.len() - i,
    {
        r.push(v[i].clone());
        i = i + 1;
    }
    r
}

/// The identifiers of a list of GIF records, in order.
pub open spec fn uuids_of(gifs: Seq<crate::structure::TriageGif>) -> Seq<PointId> {
    gifs.map_values(|g: crate::structure::TriageGif| g.uuid)
}

/// The identifiers of a list of GIF records.
fn uuids_of_exec(gifs: &Vec<crate::structure::TriageGif>) -> (r: Vec<PointId>)
    ensures
        r@ == uuids_of(gifs@),
{
    let mut r: Vec<PointId> = Vec::new();
    let mut i: usize = 0;
    while i < gifs.len()
        invariant
            i <= gifs@.len(),
            r@.len() == i,
            forall|j: int| 0 <= j < i ==> r@[j] == gifs@[j].uuid,
        decreases gifs@.len() - i,
    {
        r.push(gifs[i].uuid);
        i = i + 1;
    }
    proof {
        assert(r@ =~= uuids_of(gifs@));
    }
    r
}

/// Assemble the final classification of one source cluster from its triage
/// regions, its frame-extraction result, and its embedding re-cluster
/// result.
pub fn final_classification_one(
    e: &ExtractedCluster,
    gif_pair: &Option<crate::structure::TriageGifGroupsGifStagePair>,
    clip_pair: &Option<Option<crate::structure::TriageGifGroupsClipStagePair>>,
) -> (r: crate::structure::FinalClassification)
    ensures
        (match (r.kept_text_anomalies_group, e.kept_text_anomalies) {
            (Some(a), Some(b)) => a@ == b@,
            (None, None) => true,
            _ => false,
        }),
        r.kept_non_gif == e.kept_non_gif,
        (match (r.other_need_delete_group, e.other_need_delete) {
            (Some(a), Some(b)) => a@ == b@,
            (None, None) => true,
            _ => false,
        }),
        (match gif_pair {
            Some(gp) => {
                &&& (match (r.triaged_gif_and_invalid_group, gp.invalid_gif_id) {
                    (Some(a), Some(b)) => a.0@ == b.0@ && a.1@.len() == b.1@.len() && (forall|
                        j: int,
                    | 0 <= j < b.1@.len() ==> a.1@[j]@ == b.1@[j]@),
                    (None, None) => true,
                    _ => false,
                })
                &&& (match (r.triaged_gif_and_discard_same_frame_group,
                gp.discard_same_frame_gif_id) {
                    (Some(a), Some(b)) => a@ == b@,
                    (None, None) => true,
                    _ => false,
                })
            },
            None => r.triaged_gif_and_invalid_group is None
                && r.triaged_gif_and_discard_same_frame_group is None,
        }),
        (match clip_pair {
            Some(Some(cp)) => {
                &&& (match (r.triaged_gif_and_then_will_keep_group, cp.kept_gifs) {
                    (Some(a), Some(b)) => a@ == uuids_of(b@),
                    (Some(a), None) => a@.len() == 0,
                    _ => false,
                })
                &&& (match (r.triaged_gif_and_then_will_delete_group, cp.discard_duplicate_gifs) {
                    (Some(a), Some(b)) => a@ == uuids_of(b@),
                    (Some(a), None) => a@.len() == 0,
                    _ => false,
                })
            },
            Some(None) => (match r.triaged_gif_and_then_will_keep_group {
                Some(a) => a@.len() == 0,
                None => false,
            }) && (match r.triaged_gif_and_then_will_delete_group {
                Some(a) => a@.len() == 0,
                None => false,
            }),
            None => r.triaged_gif_and_then_will_keep_group is None
                && r.triaged_gif_and_then_will_delete_group is None,
        }),
{
    let kept_text_anomalies_group = match &e.kept_text_anomalies {
        Some(v) => Some(copy_ids(v)),
        None => None,
    };
    let other_need_delete_group = match &e.other_need_delete {
        Some(v) => Some(copy_ids(v)),
        None => None,
    };
    let (triaged_gif_and_invalid_group, triaged_gif_and_discard_same_frame_group) = match gif_pair {
        Some(gp) => {
            let inv = match &gp.invalid_gif_id {
                Some(pair) => Some((copy_ids(&pair.0), copy_strings(&pair.1))),
                None => None,
            };
            let dis = match &gp.discard_same_frame_gif_id {
                Some(v) => Some(copy_ids(v)),
                None => None,
            };
            (inv, dis)
        },
        None => (None, None),
    };
    let (triaged_gif_and_then_will_keep_group, triaged_gif_and_then_will_delete_group) = match clip_pair {
        Some(Some(cp)) => {
            let kept = match &cp.kept_gifs {
                Some(gifs) => uuids_of_exec(gifs),
                None => Vec::new(),
            };
            let deleted = match &cp.discard_duplicate_gifs {
                Some(gifs) => uuids_of_exec(gifs),
                None => Vec::new(),
            };
            (Some(kept), Some(deleted))
        },
        Some(None) => (Some(Vec::new()), Some(Vec::new())),
        None => (None, None),
    };
    crate::structure::FinalClassification {
        kept_text_anomalies_group,
        triaged_gif_and_invalid_group,
        triaged_gif_and_discard_same_frame_group,
        triaged_gif_and_then_will_keep_group,
        triaged_gif_and_then_will_delete_group,
        kept_non_gif: e.kept_non_gif,
        other_need_delete_group,
    }
}

} // verus!
