//! The mutation planner: turn each cluster's final classification into one
//! reset task naming the points to keep, the points to delete, and the
//! category tags carried over to every kept point — the deduplicated union
//! of the categories of every point in the cluster.

use crate::point_id::PointId;
use crate::structure::FinalClassification;
use crate::triage::{copy_ids, copy_strings, MetaMap};
use vstd::prelude::*;

verus! {

/// One cluster's mutation order.
#[derive(Debug, Clone)]
pub struct ReSetPointTask {
    /// Points whose payload is overwritten with the transfer tags.
    pub keep_point_list: Vec<PointId>,
    /// Points deleted from the collection.
    pub discard_point_list: Vec<PointId>,
    /// The tags set on each kept point, position-matched with the keeps.
    pub transfer_tag_list: Vec<Vec<String>>,
}

/// The sequence under an optional identifier list; empty when absent.
pub open spec fn opt_vec_seq(o: Option<Vec<PointId>>) -> Seq<PointId> {
    match o {
        Some(v) => v@,
        None => Seq::empty(),
    }
}

/// The points a classification keeps, in order: text-anomaly survivors, the
/// kept GIFs, and the kept non-GIF.
pub open spec fn keeps_of(fc: FinalClassification) -> Seq<PointId> {
    opt_vec_seq(fc.kept_text_anomalies_group) + opt_vec_seq(fc.triaged_gif_and_then_will_keep_group)
        + (match fc.kept_non_gif {
        Some(id) => seq![id],
        None => Seq::empty(),
    })
}

/// The points a classification deletes, in order: undecodable GIFs, static
/// GIFs, duplicate GIFs, and the other deletions.
pub open spec fn discards_of(fc: FinalClassification) -> Seq<PointId> {
    (match fc.triaged_gif_and_invalid_group {
        Some(p) => p.0@,
        None => Seq::empty(),
    }) + opt_vec_seq(fc.triaged_gif_and_discard_same_frame_group) + opt_vec_seq(
        fc.triaged_gif_and_then_will_delete_group,
    ) + opt_vec_seq(fc.other_need_delete_group)
}

/// The texts of a list of strings, in order.
pub open spec fn strings_view(v: Seq<String>) -> Seq<Seq<char>> {
    v.map_values(|s: String| s@)
}

/// The recorded category texts of a point; empty when it has none.
pub open spec fn cats_of(meta: &MetaMap, id: PointId) -> Seq<Seq<char>> {
    match meta.spec_get(id) {
        Some(pe) => match pe.0.categories {
            Some(v) => strings_view(v@),
            None => Seq::empty(),
        },
        None => Seq::empty(),
    }
}

/// Add the first `k` tags to the accumulator, keeping each text once, in
/// first-seen order.
pub open spec fn add_unique(acc: Seq<Seq<char>>, tags: Seq<Seq<char>>, k: nat) -> Seq<Seq<char>>
    decreases k,
{
    if k == 0 {
        acc
    } else {
        let prefix = add_unique(acc, tags, (k - 1) as nat);
        if prefix.contains(tags[k - 1]) {
            prefix
        } else {
            prefix.push(tags[k - 1])
        }
    }
}

/// The deduplicated union of the categories of the first `k` points, in
/// first-seen order.
pub open spec fn union_tags_upto(meta: &MetaMap, ids: Seq<PointId>, k: nat) -> Seq<Seq<char>>
    decreases k,
{
    if k == 0 {
        Seq::empty()
    } else {
        let prefix = union_tags_upto(meta, ids, (k - 1) as nat);
        add_unique(prefix, cats_of(meta, ids[k - 1]), cats_of(meta, ids[k - 1]).len())
    }
}

/// Whether one of the strings spells the same text.
fn contains_str(v: &Vec<String>, s: &String) -> (r: bool)
    ensures
        r == strings_view(v@).contains(s@),
{
    let mut i: usize = 0;
    while i < v.len()
        invariant
            i <= v@.len(),
            forall|j: int| 0 <= j < i ==> v@[j]@ != s@,
        decreases v@.len() - i,
    {
        if v[i].eq(s) {
            proof {
                assert(strings_view(v@)[i as int] == v@[i as int]@);
            }
            return true;
        }
        i = i + 1;
    }
    proof {
        if strings_view(v@).contains(s@) {
            let j = choose|j: int| 0 <= j < strings_view(v@).len() && strings_view(v@)[j] == s@;
            assert(strings_view(v@)[j] == v@[j]@);
        }
    }
    false
}

/// Gather the deduplicated union of the categories of the given points, in
/// first-seen order.
fn gather_tags(meta: &MetaMap, ids: &Vec<PointId>) -> (r: Vec<String>)
    ensures
        strings_view(r@) == union_tags_upto(meta, ids@, ids@.len()),
{
    let mut r: Vec<String> = Vec::new();
    let mut i: usize = 0;
    proof {
        assert(strings_view(r@) =~= union_tags_upto(meta, ids@, 0));
    }
    while i < ids.len()
        invariant
            i <= ids@.len(),
            strings_view(r@) == union_tags_upto(meta, ids@, i as nat),
        decreases ids@.len() - i,
    {
        let cats_opt = match meta.get(&ids[i]) {
            Some(pe) => match &pe.0.categories {
                Some(c) => Some(c),
                None => None,
            },
            None => None,
        };
        let ghost cats = cats_of(meta, ids@[i as int]);
        match cats_opt {
            Some(c) => {
                proof {
                    assert(cats == strings_view(c@));
                }
                let mut t: usize = 0;
                proof {
                    assert(strings_view(r@) =~= add_unique(
                        union_tags_upto(meta, ids@, i as nat),
                        cats,
                        0,
                    ));
                }
                while t < c.len()
                    invariant
                        t <= c@.len(),
                        cats == strings_view(c@),
                        strings_view(r@) == add_unique(
                            union_tags_upto(meta, ids@, i as nat),
                            cats,
                            t as nat,
                        ),
                    decreases c@.len() - t,
                {
                    proof {
                        assert(cats[t as int] == c@[t as int]@);
                    }
                    let ghost pre = r@;
                    if !contains_str(&r, &c[t]) {
                        r.push(c[t].clone());
                        proof {
                            let lhs = strings_view(r@);
                            let target = add_unique(
                                union_tags_upto(meta, ids@, i as nat),
                                cats,
                                t as nat + 1,
                            );
                            assert(target == strings_view(pre).push(cats[t as int]));
                            assert forall|j: int| 0 <= j < lhs.len() implies lhs[j]
                                == target[j] by {
                                if j < pre.len() {
                                    assert(lhs[j] == pre[j]@);
                                    assert(strings_view(pre)[j] == pre[j]@);
                                } else {
                                    assert(lhs[j] == r@[j]@);
                                }
                            }
                            assert(lhs.len() == target.len());
                            assert(lhs =~= target);
                        }
                    }
                    t = t + 1;
                }
                proof {
                    assert(union_tags_upto(meta, ids@, i as nat + 1) == add_unique(
                        union_tags_upto(meta, ids@, i as nat),
                        cats,
                        cats.len(),
                    ));
                    assert(cats.len() == c@.len());
                }
            },
            None => {
                proof {
                    assert(cats =~= Seq::<Seq<char>>::empty());
                    assert(union_tags_upto(meta, ids@, i as nat + 1) == add_unique(
                        union_tags_upto(meta, ids@, i as nat),
                        cats,
                        0,
                    ));
                }
            },
        }
        i = i + 1;
    }
    r
}

/// Plan the mutation of one cluster: every kept point receives the
/// deduplicated union of the categories of every point in the cluster, and
/// the task carries exactly one tag list per kept point.
pub fn build_reset_point_task(fc: &FinalClassification, meta: &MetaMap) -> (r: ReSetPointTask)
    ensures
        r.keep_point_list@ == keeps_of(*fc),
        r.discard_point_list@ == discards_of(*fc),
        r.transfer_tag_list@.len() == r.keep_point_list@.len(),
        forall|i: int|
            0 <= i < r.transfer_tag_list@.len() ==> strings_view(#[trigger] r.transfer_tag_list@[i]@)
                == union_tags_upto(
                meta,
                keeps_of(*fc) + discards_of(*fc),
                (keeps_of(*fc) + discards_of(*fc)).len(),
            ),
{
    let mut keeps: Vec<PointId> = Vec::new();
    if let Some(v) = &fc.kept_text_anomalies_group {
        let mut c = copy_ids(v);
        keeps.append(&mut c);
    }
    if let Some(v) = &fc.triaged_gif_and_then_will_keep_group {
        let mut c = copy_ids(v);
        keeps.append(&mut c);
    }
    if let Some(id) = &fc.kept_non_gif {
        keeps.push(*id);
    }
    proof {
        assert(keeps@ =~= keeps_of(*fc));
    }
    let mut discards: Vec<PointId> = Vec::new();
    if let Some(p) = &fc.triaged_gif_and_invalid_group {
        let mut c = copy_ids(&p.0);
        discards.append(&mut c);
    }
    if let Some(v) = &fc.triaged_gif_and_discard_same_frame_group {
        let mut c = copy_ids(v);
        discards.append(&mut c);
    }
    if let Some(v) = &fc.triaged_gif_and_then_will_delete_group {
        let mut c = copy_ids(v);
        discards.append(&mut c);
    }
    if let Some(v) = &fc.other_need_delete_group {
        let mut c = copy_ids(v);
        discards.append(&mut c);
    }
    proof {
        assert(discards@ =~= discards_of(*fc));
    }
    let mut all = copy_ids(&keeps);
    let mut dcopy = copy_ids(&discards);
    all.append(&mut dcopy);
    proof {
        assert(all@ =~= keeps_of(*fc) + discards_of(*fc));
    }
    let tags = gather_tags(meta, &all);
    let mut transfer: Vec<Vec<String>> = Vec::new();
    let mut i: usize = 0;
    while i < keeps.len()
        invariant
            i <= keeps@.len(),
            transfer@.len() == i,
            strings_view(tags@) == union_tags_upto(meta, all@, all@.len()),
            all@ == keeps_of(*fc) + discards_of(*fc),
            forall|j: int|
                0 <= j < i ==> strings_view(#[trigger] transfer@[j]@) == union_tags_upto(
                    meta,
                    all@,
                    all@.len(),
                ),
        decreases keeps@.len() - i,
    {
        let one = copy_strings(&tags);
        proof {
            assert(strings_view(one@) =~= strings_view(tags@));
        }
        transfer.push(one);
        i = i + 1;
    }
    ReSetPointTask {
        keep_point_list: keeps,
        discard_point_list: discards,
        transfer_tag_list: transfer,
    }
}

/// Plan the mutations of every cluster in turn.
pub fn build_reset_point_tasks(fcs: &Vec<FinalClassification>, meta: &MetaMap) -> (r: Vec<
    ReSetPointTask,
>)
    ensures
        r@.len() == fcs@.len(),
        forall|c: int|
            0 <= c < fcs@.len() ==> {
                &&& (#[trigger] r@[c]).keep_point_list@ == keeps_of(fcs@[c])
                &&& r@[c].discard_point_list@ == discards_of(fcs@[c])
                &&& r@[c].transfer_tag_list@.len() == r@[c].keep_point_list@.len()
            },
{
    let mut r: Vec<ReSetPointTask> = Vec::new();
    let mut c: usize = 0;
    while c < fcs.len()
        invariant
            c <= fcs@.len(),
            r@.len() == c,
            forall|t: int|
                0 <= t < c ==> {
                    &&& (#[trigger] r@[t]).keep_point_list@ == keeps_of(fcs@[t])
                    &&& r@[t].discard_point_list@ == discards_of(fcs@[t])
                    &&& r@[t].transfer_tag_list@.len() == r@[t].keep_point_list@.len()
                },
        decreases fcs@.len() - c,
    {
        let one = build_reset_point_task(&fcs[c], meta);
        r.push(one);
        c = c + 1;
    }
    r
}

} // verus!
