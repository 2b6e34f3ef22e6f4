use neko_dedup::cluster::SimMatrix;
use neko_dedup::point_id::PointId;
use neko_dedup::structure::{NekoPoint, NekoPointExt, NekoPointText, TEXT_SIM_THRESHOLD_MICRO};
use neko_dedup::structure::{TriageGif, TriageGifGroupsClipStagePair, TriageGifGroupsGifStagePair};
use neko_dedup::triage::{extract_cluster, final_classification_one, ExtractedCluster, MetaMap};

fn pid(n: u128) -> PointId {
    PointId::from_u128(n)
}

fn point(id: PointId, size: Option<usize>, with_text: bool) -> NekoPoint {
    NekoPoint {
        id,
        height: 100,
        weight: 100,
        size,
        categories: None,
        text_info: if with_text {
            Some(NekoPointText { text: "caption".to_string(), text_vector: vec![0; 768] })
        } else {
            None
        },
    }
}

fn ext(file_path: &str) -> NekoPointExt {
    NekoPointExt { file_path: file_path.to_string(), source: None }
}

fn zero_matrix(n: usize) -> SimMatrix {
    SimMatrix::new(n, vec![0; n * n]).unwrap()
}

#[test]
fn biggest_non_gif_survives() {
    let a = pid(1);
    let b = pid(2);
    let mut meta = MetaMap::new();
    meta.push(a, point(a, Some(100), false), ext("a.png"));
    meta.push(b, point(b, Some(200), false), ext("b.png"));
    let cluster = vec![a, b];
    let r = extract_cluster(&cluster, &meta, &zero_matrix(2), TEXT_SIM_THRESHOLD_MICRO);
    assert_eq!(r.kept_text_anomalies, None);
    assert_eq!(r.need_triage_gifs, None);
    assert_eq!(r.kept_non_gif, Some(b));
    assert_eq!(r.other_need_delete, Some(vec![a]));
}

#[test]
fn all_text_anomalies_exit_early() {
    // Every member has a text embedding and the pairwise text similarities
    // are below the threshold: each is its own anomaly cluster and survives.
    let a = pid(1);
    let b = pid(2);
    let mut meta = MetaMap::new();
    meta.push(a, point(a, Some(10), true), ext("a.png"));
    meta.push(b, point(b, Some(20), true), ext("b.png"));
    let cluster = vec![a, b];
    let r = extract_cluster(&cluster, &meta, &zero_matrix(2), TEXT_SIM_THRESHOLD_MICRO);
    assert_eq!(r.kept_text_anomalies, Some(vec![a, b]));
    assert_eq!(r.need_triage_gifs, None);
    assert_eq!(r.kept_non_gif, None);
    assert_eq!(r.other_need_delete, Some(vec![]));
}

#[test]
fn similar_text_cluster_keeps_largest() {
    // Both texts are alike, so they form one anomaly cluster; the larger
    // file survives and the other falls back into the delete pool.
    let a = pid(1);
    let b = pid(2);
    let mut meta = MetaMap::new();
    meta.push(a, point(a, Some(10), true), ext("a.png"));
    meta.push(b, point(b, Some(20), true), ext("b.png"));
    let sims = SimMatrix::new(2, vec![1_000_000, 950_000, 950_000, 1_000_000]).unwrap();
    let cluster = vec![a, b];
    let r = extract_cluster(&cluster, &meta, &sims, TEXT_SIM_THRESHOLD_MICRO);
    assert_eq!(r.kept_text_anomalies, Some(vec![b]));
    assert_eq!(r.need_triage_gifs, None);
    assert_eq!(r.kept_non_gif, Some(a));
    assert_eq!(r.other_need_delete, None);
}

#[test]
fn two_gifs_go_to_refinement() {
    let a = pid(1);
    let b = pid(2);
    let c = pid(3);
    let mut meta = MetaMap::new();
    meta.push(a, point(a, Some(100), false), ext("a.gif"));
    meta.push(b, point(b, Some(200), false), ext("b.gif"));
    meta.push(c, point(c, Some(50), false), ext("c.png"));
    let cluster = vec![a, b, c];
    let r = extract_cluster(&cluster, &meta, &zero_matrix(3), TEXT_SIM_THRESHOLD_MICRO);
    assert_eq!(r.kept_text_anomalies, None);
    assert_eq!(r.need_triage_gifs, Some(vec![a, b]));
    assert_eq!(r.kept_non_gif, None);
    assert_eq!(r.other_need_delete, Some(vec![c]));
}

#[test]
fn single_gif_survives_alone() {
    let a = pid(1);
    let b = pid(2);
    let mut meta = MetaMap::new();
    meta.push(a, point(a, Some(100), false), ext("a.gif"));
    meta.push(b, point(b, Some(200), false), ext("b.png"));
    let cluster = vec![a, b];
    let r = extract_cluster(&cluster, &meta, &zero_matrix(2), TEXT_SIM_THRESHOLD_MICRO);
    assert_eq!(r.need_triage_gifs, None);
    assert_eq!(r.kept_non_gif, Some(a));
    assert_eq!(r.other_need_delete, Some(vec![b]));
}

#[test]
fn regions_partition_the_cluster() {
    // A mixed cluster: one text anomaly, two GIFs, one non-GIF.
    let ids: Vec<PointId> = (1..=4).map(pid).collect();
    let mut meta = MetaMap::new();
    meta.push(ids[0], point(ids[0], Some(10), true), ext("t.png"));
    meta.push(ids[1], point(ids[1], Some(20), false), ext("x.gif"));
    meta.push(ids[2], point(ids[2], Some(30), false), ext("y.gif"));
    meta.push(ids[3], point(ids[3], Some(40), false), ext("z.jpg"));
    let r = extract_cluster(&ids, &meta, &zero_matrix(4), TEXT_SIM_THRESHOLD_MICRO);
    let mut seen: Vec<PointId> = Vec::new();
    if let Some(v) = &r.kept_text_anomalies {
        seen.extend(v.iter().copied());
    }
    if let Some(v) = &r.need_triage_gifs {
        seen.extend(v.iter().copied());
    }
    if let Some(id) = &r.kept_non_gif {
        seen.push(*id);
    }
    if let Some(v) = &r.other_need_delete {
        seen.extend(v.iter().copied());
    }
    let mut sorted = seen.clone();
    sorted.sort_by_key(|p| p.value);
    sorted.dedup_by_key(|p| p.value);
    assert_eq!(seen.len(), ids.len(), "no identifier may appear twice");
    assert_eq!(sorted.len(), ids.len());
    for id in &ids {
        assert!(seen.contains(id), "every cluster member must appear");
    }
}

#[test]
fn final_classification_combines_the_stages() {
    let keep = pid(1);
    let g1 = pid(2);
    let g2 = pid(3);
    let bad = pid(4);
    let extracted = ExtractedCluster {
        kept_text_anomalies: Some(vec![keep]),
        need_triage_gifs: Some(vec![g1, g2, bad]),
        kept_non_gif: None,
        other_need_delete: None,
    };
    let gif_pair = Some(TriageGifGroupsGifStagePair {
        invalid_gif_id: Some((vec![bad], vec!["truncated".to_string()])),
        discard_same_frame_gif_id: None,
        prepare_clip_gif_pair: None,
    });
    let clip_pair = Some(Some(TriageGifGroupsClipStagePair {
        kept_gifs: Some(vec![TriageGif {
            uuid: g1,
            path: "g1.gif".to_string(),
            size: 10,
        }]),
        discard_duplicate_gifs: Some(vec![TriageGif {
            uuid: g2,
            path: "g2.gif".to_string(),
            size: 5,
        }]),
    }));
    let fc = final_classification_one(&extracted, &gif_pair, &clip_pair);
    assert_eq!(fc.kept_text_anomalies_group, Some(vec![keep]));
    let (ids, reasons) = fc.triaged_gif_and_invalid_group.unwrap();
    assert_eq!(ids, vec![bad]);
    assert_eq!(reasons, vec!["truncated".to_string()]);
    assert_eq!(fc.triaged_gif_and_discard_same_frame_group, None);
    assert_eq!(fc.triaged_gif_and_then_will_keep_group, Some(vec![g1]));
    assert_eq!(fc.triaged_gif_and_then_will_delete_group, Some(vec![g2]));
    assert_eq!(fc.kept_non_gif, None);
    assert_eq!(fc.other_need_delete_group, None);
}
