//! GIF refinement decisions: the static-GIF filter over per-frame perceptual
//! hashes, anchor-frame selection, triage of decoded GIFs into invalid,
//! static and to-embed groups, and the pick of kept GIFs after the embedding
//! re-cluster.

use crate::cluster::{cluster_chunk, greedy, SimMatrix};
use crate::hamming;
use crate::hamming_spec;
use crate::point_id::PointId;
use crate::structure::{
    GifFrames, TriageGif, TriageGifClip, TriageGifGroupsClipStagePair, TriageGifGroupsGifStagePair,
};
use vstd::prelude::*;

verus! {

/// Hash distance below which two frames count as perceptually identical.
pub const SAME_FRAME_DISTANCE: u32 = 5;

/// Errors of the refinement stage decisions.
#[derive(Debug, Clone, Copy, PartialEq, Eq, Structural)]
pub enum GifError {
    /// The GIF has fewer frames than the anchor selection wants.
    PoorFrames(usize),
}

/// Whether every hash list entry has the first entry's length, short enough
/// for a 32-bit distance.
pub open spec fn hashes_wf(hashes: Seq<Seq<u8>>) -> bool {
    &&& forall|k: int| 0 <= k < hashes.len() ==> (#[trigger] hashes[k]).len() == hashes[0].len()
    &&& hashes.len() > 0 ==> hashes[0].len() <= u32::MAX as nat / 8
}

/// Whether a GIF is static: it has at most one frame, or every later
/// frame's hash is within the same-frame distance of the first frame's.
pub open spec fn is_static_spec(hashes: Seq<Seq<u8>>) -> bool {
    hashes.len() <= 1 || forall|k: int|
        1 <= k < hashes.len() ==> hamming_spec(hashes[0], #[trigger] hashes[k])
            < SAME_FRAME_DISTANCE as nat
}

/// Whether a GIF is static, judged from its per-frame perceptual hashes.
pub fn is_static(hashes: &Vec<Vec<u8>>) -> (r: bool)
    requires
        hashes_wf(hashes@.map_values(|h: Vec<u8>| h@)),
    ensures
        r == is_static_spec(hashes@.map_values(|h: Vec<u8>| h@)),
{
    let ghost view = hashes@.map_values(|h: Vec<u8>| h@);
    if hashes.len() <= 1 {
        return true;
    }
    let mut k: usize = 1;
    while k < hashes.len()
        invariant
            1 <= k <= hashes@.len(),
            view == hashes@.map_values(|h: Vec<u8>| h@),
            hashes_wf(view),
            forall|t: int|
                1 <= t < k ==> hamming_spec(view[0], #[trigger] view[t]) < SAME_FRAME_DISTANCE as nat,
        decreases hashes@.len() - k,
    {
        proof {
            assert(view[k as int] == hashes@[k as int]@);
            assert(view[0] == hashes@[0]@);
        }
        if hamming(&hashes[0], &hashes[k]) >= SAME_FRAME_DISTANCE {
            return false;
        }
        k = k + 1;
    }
    true
}

/// The anchor frame indices of a GIF with `total` frames: the first frame,
/// the three quarter points, and the last frame. A GIF with fewer than five
/// frames yields all its frames when `allow_poor_frame` is set, and is
/// refused otherwise.
pub fn anchor_indices(total: usize, allow_poor_frame: bool) -> (r: Result<Vec<usize>, GifError>)
    ensures
        match r {
            Ok(v) => {
                &&& total >= 5 ==> v@ =~= seq![
                    0usize,
                    total / 4,
                    total / 2,
                    (total * 3 / 4) as usize,
                    (total - 1) as usize,
                ]
                &&& total < 5 ==> allow_poor_frame && v@.len() == total && (forall|k: int|
                    0 <= k < total ==> (#[trigger] v@[k]) as int == k)
            },
            Err(GifError::PoorFrames(n)) => n == total && total < 5 && !allow_poor_frame,
        },
{
    if total < 5 {
        if !allow_poor_frame {
            return Err(GifError::PoorFrames(total));
        }
        let mut v: Vec<usize> = Vec::new();
        let mut k: usize = 0;
        while k < total
            invariant
                k <= total,
                v@.len() == k,
                forall|t: int| 0 <= t < k ==> (#[trigger] v@[t]) as int == t,
            decreases total - k,
        {
            v.push(k);
            k = k + 1;
        }
        return Ok(v);
    }
    proof {
        assert(total * 3 / 4 <= total) by (nonlinear_arith)
            requires
                total >= 5,
        ;
        assert(total * 3 >= total) by (nonlinear_arith)
            requires
                total >= 5,
        ;
    }
    let mut v: Vec<usize> = Vec::new();
    v.push(0);
    v.push(total / 4);
    v.push(total / 2);
    v.push(total / 4 * 3 + total % 4 * 3 / 4);
    v.push(total - 1);
    proof {
        assert(total / 4 * 3 + total % 4 * 3 / 4 == total * 3 / 4) by (nonlinear_arith);
        assert(v@ =~= seq![0usize, total / 4, total / 2, (total * 3 / 4) as usize, (total - 1) as usize]);
    }
    Ok(v)
}

/// What the decoder found in one GIF file: its per-frame hashes and
/// extracted anchor frames, or the failure text.
pub enum GifDecodeResult {
    Frames(Vec<Vec<u8>>, GifFrames),
    Failed(String),
}

/// The invalid entries of the first `k` items: identifier and reason of each
/// GIF that failed to decode, in order.
pub open spec fn invalid_upto(items: Seq<(TriageGif, GifDecodeResult)>, k: nat) -> Seq<
    (PointId, Seq<char>),
>
    decreases k,
{
    if k == 0 {
        Seq::empty()
    } else {
        let prefix = invalid_upto(items, (k - 1) as nat);
        match items[k - 1].1 {
            GifDecodeResult::Failed(e) => prefix.push((items[k - 1].0.uuid, e@)),
            GifDecodeResult::Frames(_, _) => prefix,
        }
    }
}

/// The static entries of the first `k` items: each decodable GIF whose
/// frames are all alike the first, in order.
pub open spec fn static_upto(items: Seq<(TriageGif, GifDecodeResult)>, k: nat) -> Seq<PointId>
    decreases k,
{
    if k == 0 {
        Seq::empty()
    } else {
        let prefix = static_upto(items, (k - 1) as nat);
        match items[k - 1].1 {
            GifDecodeResult::Frames(h, _) => if is_static_spec(h@.map_values(|x: Vec<u8>| x@)) {
                prefix.push(items[k - 1].0.uuid)
            } else {
                prefix
            },
            GifDecodeResult::Failed(_) => prefix,
        }
    }
}

/// The to-embed entries of the first `k` items: each animated GIF with its
/// frames, in order.
pub open spec fn prepare_upto(items: Seq<(TriageGif, GifDecodeResult)>, k: nat) -> Seq<
    TriageGifClip,
>
    decreases k,
{
    if k == 0 {
        Seq::empty()
    } else {
        let prefix = prepare_upto(items, (k - 1) as nat);
        match items[k - 1].1 {
            GifDecodeResult::Frames(h, f) => if is_static_spec(h@.map_values(|x: Vec<u8>| x@)) {
                prefix
            } else {
                prefix.push(
                    TriageGifClip {
                        id: items[k - 1].0.uuid,
                        path: items[k - 1].0.path,
                        size: items[k - 1].0.size,
                        frame: f,
                    },
                )
            },
            GifDecodeResult::Failed(_) => prefix,
        }
    }
}

/// Triage one group of decoded GIFs: GIFs that failed to decode become
/// invalid with their reason, static GIFs are set aside for discarding, and
/// the rest go on to the embedding stage with their anchor frames.
pub fn triage_gif_stage(items: Vec<(TriageGif, GifDecodeResult)>) -> (r:
    TriageGifGroupsGifStagePair)
    requires
        forall|k: int|
            0 <= k < items@.len() ==> match (#[trigger] items@[k]).1 {
                GifDecodeResult::Frames(h, _) => hashes_wf(h@.map_values(|x: Vec<u8>| x@)),
                GifDecodeResult::Failed(_) => true,
            },
    ensures
        ({
            let inv = invalid_upto(items@, items@.len());
            let sta = static_upto(items@, items@.len());
            let pre = prepare_upto(items@, items@.len());
            &&& (match r.invalid_gif_id {
                Some(iv) => inv.len() > 0 && iv.0@ == inv.map_values(
                    |e: (PointId, Seq<char>)| e.0,
                ) && iv.1@.map_values(|s: String| s@) == inv.map_values(
                    |e: (PointId, Seq<char>)| e.1,
                ),
                None => inv.len() == 0,
            })
            &&& (match r.discard_same_frame_gif_id {
                Some(ds) => sta.len() > 0 && ds@ == sta,
                None => sta.len() == 0,
            })
            &&& (match r.prepare_clip_gif_pair {
                Some(pc) => pre.len() > 0 && pc@ == pre,
                None => pre.len() == 0,
            })
        }),
{
    let ghost all = items@;
    let mut rest = items;
    let mut inv_ids: Vec<PointId> = Vec::new();
    let mut inv_reasons: Vec<String> = Vec::new();
    let mut statics: Vec<PointId> = Vec::new();
    let mut prepares: Vec<TriageGifClip> = Vec::new();
    let ghost mut k: nat = 0;
    proof {
        assert(rest@ =~= all.skip(0));
        assert(inv_ids@ =~= invalid_upto(all, 0).map_values(|e: (PointId, Seq<char>)| e.0));
        assert(inv_reasons@.map_values(|s: String| s@) =~= invalid_upto(all, 0).map_values(
            |e: (PointId, Seq<char>)| e.1,
        ));
        assert(statics@ =~= static_upto(all, 0));
        assert(prepares@ =~= prepare_upto(all, 0));
    }
    while rest.len() > 0
        invariant
            k <= all.len(),
            rest@ =~= all.skip(k as int),
            forall|t: int|
                0 <= t < all.len() ==> match (#[trigger] all[t]).1 {
                    GifDecodeResult::Frames(h, _) => hashes_wf(h@.map_values(|x: Vec<u8>| x@)),
                    GifDecodeResult::Failed(_) => true,
                },
            inv_ids@ == invalid_upto(all, k).map_values(|e: (PointId, Seq<char>)| e.0),
            inv_reasons@.map_values(|s: String| s@) == invalid_upto(all, k).map_values(
                |e: (PointId, Seq<char>)| e.1,
            ),
            statics@ == static_upto(all, k),
            prepares@ == prepare_upto(all, k),
        decreases rest@.len(),
    {
        proof {
            assert(all.skip(k as int)[0] == all[k as int]);
            assert(all.skip(k as int).drop_first() =~= all.skip(k as int + 1));
        }
        let (gif, decoded) = rest.remove(0);
        match decoded {
            GifDecodeResult::Failed(e) => {
                proof {
                    assert(all[k as int].1 == GifDecodeResult::Failed(e));
                    assert(gif == all[k as int].0);
                }
                let ghost ev = e@;
                let ghost old_reasons = inv_reasons@;
                inv_ids.push(gif.uuid);
                inv_reasons.push(e);
                proof {
                    assert(invalid_upto(all, k + 1) == invalid_upto(all, k).push(
                        (all[k as int].0.uuid, ev),
                    ));
                    assert(inv_ids@ =~= invalid_upto(all, k + 1).map_values(
                        |en: (PointId, Seq<char>)| en.0,
                    ));
                    let lhs = inv_reasons@.map_values(|s: String| s@);
                    let rhs = invalid_upto(all, k + 1).map_values(|en: (PointId, Seq<char>)| en.1);
                    assert(inv_reasons@.last()@ == ev);
                    assert(old_reasons.map_values(|s: String| s@).len() == invalid_upto(
                        all,
                        k,
                    ).map_values(|en: (PointId, Seq<char>)| en.1).len());
                    assert(old_reasons.len() == invalid_upto(all, k).len());
                    assert forall|j: int| 0 <= j < lhs.len() implies lhs[j] == rhs[j] by {
                        if j < old_reasons.len() {
                            assert(lhs[j] == old_reasons[j]@);
                            assert(old_reasons.map_values(|s: String| s@)[j] == old_reasons[j]@);
                            assert(invalid_upto(all, k).map_values(
                                |en: (PointId, Seq<char>)| en.1,
                            )[j] == invalid_upto(all, k)[j].1);
                            assert(rhs[j] == invalid_upto(all, k)[j].1);
                        } else {
                            assert(lhs[j] == ev);
                            assert(rhs[j] == ev);
                        }
                    }
                    assert(lhs =~= rhs);
                }
            },
            GifDecodeResult::Frames(h, f) => {
                proof {
                    assert(all[k as int].1 == GifDecodeResult::Frames(h, f));
                    assert(gif == all[k as int].0);
                }
                if is_static(&h) {
                    statics.push(gif.uuid);
                    proof {
                        assert(statics@ =~= static_upto(all, k + 1));
                    }
                } else {
                    prepares.push(
                        TriageGifClip { id: gif.uuid, path: gif.path, size: gif.size, frame: f },
                    );
                    proof {
                        assert(prepares@ =~= prepare_upto(all, k + 1));
                    }
                }
            },
        }
        proof {
            k = k + 1;
        }
    }
    proof {
        assert(k == all.len());
    }
    let invalid_gif_id = if inv_ids.len() > 0 {
        Some((inv_ids, inv_reasons))
    } else {
        None
    };
    let discard_same_frame_gif_id = if statics.len() > 0 {
        Some(statics)
    } else {
        None
    };
    let prepare_clip_gif_pair = if prepares.len() > 0 {
        Some(prepares)
    } else {
        None
    };
    TriageGifGroupsGifStagePair { invalid_gif_id, discard_same_frame_gif_id, prepare_clip_gif_pair }
}

/// The index of the largest-size GIF among the given positions; later ties
/// win.
pub open spec fn argmax_gif_size(gifs: Seq<TriageGif>, cl: Seq<usize>) -> int
    decreases cl.len(),
{
    if cl.len() <= 1 {
        0
    } else {
        let r = argmax_gif_size(gifs, cl.drop_last());
        if gifs[cl.last() as int].size >= gifs[cl[r] as int].size {
            cl.len() - 1
        } else {
            r
        }
    }
}

/// The kept GIF of each of the first `c` clusters: its largest-size member.
pub open spec fn kept_gifs_upto(gifs: Seq<TriageGif>, cls: Seq<Seq<usize>>, c: nat) -> Seq<
    TriageGif,
>
    decreases c,
{
    if c == 0 {
        Seq::empty()
    } else {
        kept_gifs_upto(gifs, cls, (c - 1) as nat).push(
            gifs[cls[c - 1][argmax_gif_size(gifs, cls[c - 1])] as int],
        )
    }
}

/// The discarded GIFs of the first `c` clusters: every member but the
/// largest-size one, cluster by cluster, in order.
pub open spec fn discard_gifs_upto(gifs: Seq<TriageGif>, cls: Seq<Seq<usize>>, c: nat) -> Seq<
    TriageGif,
>
    decreases c,
{
    if c == 0 {
        Seq::empty()
    } else {
        discard_gifs_upto(gifs, cls, (c - 1) as nat) + cluster_others(
            gifs,
            cls[c - 1],
            argmax_gif_size(gifs, cls[c - 1]),
            cls[c - 1].len(),
        )
    }
}

/// Of the first `k` members of a cluster, everyone but the member at `at`.
pub open spec fn cluster_others(gifs: Seq<TriageGif>, cl: Seq<usize>, at: int, k: nat) -> Seq<
    TriageGif,
>
    decreases k,
{
    if k == 0 {
        Seq::empty()
    } else {
        let prefix = cluster_others(gifs, cl, at, (k - 1) as nat);
        if k - 1 == at {
            prefix
        } else {
            prefix.push(gifs[cl[k - 1] as int])
        }
    }
}

/// The index of the largest-size GIF among the given positions.
fn argmax_gif_size_exec(gifs: &Vec<TriageGif>, cl: &Vec<usize>) -> (r: usize)
    requires
        cl@.len() > 0,
        forall|k: int| 0 <= k < cl@.len() ==> (#[trigger] cl@[k]) < gifs@.len(),
    ensures
        r < cl@.len(),
        r as int == argmax_gif_size(gifs@, cl@),
{
    let mut best: usize = 0;
    let mut k: usize = 1;
    proof {
        assert(cl@.take(1).len() == 1);
        assert(argmax_gif_size(gifs@, cl@.take(1)) == 0);
    }
    while k < cl.len()
        invariant
            1 <= k <= cl@.len(),
            best < k,
            forall|t: int| 0 <= t < cl@.len() ==> (#[trigger] cl@[t]) < gifs@.len(),
            best as int == argmax_gif_size(gifs@, cl@.take(k as int)),
        decreases cl@.len() - k,
    {
        proof {
            assert(cl@.take(k as int + 1).drop_last() =~= cl@.take(k as int));
            assert(cl@.take(k as int + 1).last() == cl@[k as int]);
            assert(cl@.take(k as int + 1)[best as int] == cl@[best as int]);
        }
        if gifs[cl[k]].size >= gifs[cl[best]].size {
            best = k;
        }
        k = k + 1;
    }
    proof {
        assert(cl@.take(cl@.len() as int) =~= cl@);
    }
    best
}

/// Copy one GIF record.
fn copy_gif(g: &TriageGif) -> (r: TriageGif)
    ensures
        r == *g,
{
    TriageGif { uuid: g.uuid, path: g.path.clone(), size: g.size }
}

/// Pick the survivors after the embedding re-cluster: the GIFs are clustered
/// greedily at the threshold over their mean-embedding similarities; each
/// cluster keeps its largest-size member and discards the rest.
pub fn select_kept_gifs(gifs: &Vec<TriageGif>, sims: &SimMatrix, tau: i64) -> (r:
    TriageGifGroupsClipStagePair)
    requires
        sims.wf(),
        gifs@.len() <= sims.n(),
    ensures
        ({
            let cls = greedy(
                sims,
                tau as int,
                Seq::new(gifs@.len(), |i: int| i as usize),
            );
            &&& (match r.kept_gifs {
                Some(kv) => kv@ == kept_gifs_upto(gifs@, cls, cls.len()),
                None => false,
            })
            &&& (match r.discard_duplicate_gifs {
                Some(dv) => dv@ == discard_gifs_upto(gifs@, cls, cls.len()),
                None => false,
            })
        }),
{
    let ghost idxs = Seq::new(gifs@.len(), |i: int| i as usize);
    let mut indices: Vec<usize> = Vec::new();
    let mut i: usize = 0;
    while i < gifs.len()
        invariant
            i <= gifs@.len(),
            indices@.len() == i,
            forall|t: int| 0 <= t < i ==> (#[trigger] indices@[t]) as int == t,
        decreases gifs@.len() - i,
    {
        indices.push(i);
        i = i + 1;
    }
    proof {
        assert(indices@ =~= idxs);
        assert(forall|t: int| 0 <= t < idxs.len() ==> (#[trigger] idxs[t]) < sims.n());
        crate::cluster::lemma_greedy_partition(sims, tau as int, idxs);
    }
    let clusters = cluster_chunk(sims, tau, &indices);
    let ghost cls = clusters@.map_values(|c: Vec<usize>| c@);
    let mut kept: Vec<TriageGif> = Vec::new();
    let mut discarded: Vec<TriageGif> = Vec::new();
    let mut c: usize = 0;
    proof {
        assert(kept@ =~= kept_gifs_upto(gifs@, cls, 0));
        assert(discarded@ =~= discard_gifs_upto(gifs@, cls, 0));
    }
    while c < clusters.len()
        invariant
            c <= clusters@.len(),
            cls == clusters@.map_values(|cv: Vec<usize>| cv@),
            crate::cluster::all_nonempty(cls),
            crate::cluster::members_from(cls, Seq::new(gifs@.len(), |i: int| i as usize)),
            kept@ == kept_gifs_upto(gifs@, cls, c as nat),
            discarded@ == discard_gifs_upto(gifs@, cls, c as nat),
        decreases clusters@.len() - c,
    {
        proof {
            assert(cls[c as int] == clusters@[c as int]@);
            assert(cls[c as int].len() > 0);
            assert forall|t: int|
                0 <= t < clusters@[c as int]@.len() implies (#[trigger] clusters@[c as int]@[t])
                < gifs@.len() by {
                let idxs2 = Seq::new(gifs@.len(), |i: int| i as usize);
                assert(idxs2.contains(cls[c as int][t]));
                let u = choose|u: int| 0 <= u < idxs2.len() && idxs2[u] == cls[c as int][t];
            }
        }
        let cl = &clusters[c];
        let best = argmax_gif_size_exec(gifs, cl);
        kept.push(copy_gif(&gifs[cl[best]]));
        let ghost pre_discarded = discarded@;
        let mut k: usize = 0;
        proof {
            assert(discarded@ =~= pre_discarded + cluster_others(
                gifs@,
                cl@,
                best as int,
                0,
            ));
        }
        while k < cl.len()
            invariant
                k <= cl@.len(),
                best < cl@.len(),
                forall|t: int| 0 <= t < cl@.len() ==> (#[trigger] cl@[t]) < gifs@.len(),
                discarded@ == pre_discarded + cluster_others(gifs@, cl@, best as int, k as nat),
            decreases cl@.len() - k,
        {
            if k != best {
                discarded.push(copy_gif(&gifs[cl[k]]));
            }
            proof {
                assert(discarded@ =~= pre_discarded + cluster_others(
                    gifs@,
                    cl@,
                    best as int,
                    k as nat + 1,
                ));
            }
            k = k + 1;
        }
        proof {
            assert(kept@ =~= kept_gifs_upto(gifs@, cls, c as nat + 1));
            assert(discarded@ =~= discard_gifs_upto(gifs@, cls, c as nat + 1));
        }
        c = c + 1;
    }
    TriageGifGroupsClipStagePair {
        kept_gifs: Some(kept),
        discard_duplicate_gifs: Some(discarded),
    }
}

} // verus!
