use neko_dedup::mutation::build_reset_point_task;
use neko_dedup::point_id::PointId;
use neko_dedup::structure::{FinalClassification, NekoPoint, NekoPointExt};
use neko_dedup::triage::MetaMap;

fn pid(n: u128) -> PointId {
    PointId::from_u128(n)
}

fn point_with_tags(id: PointId, tags: &[&str]) -> NekoPoint {
    NekoPoint {
        id,
        height: 1,
        weight: 1,
        size: Some(1),
        categories: Some(tags.iter().map(|t| t.to_string()).collect()),
        text_info: None,
    }
}

fn ext() -> NekoPointExt {
    NekoPointExt { file_path: "x.png".to_string(), source: None }
}

#[test]
fn transfer_tags_union_all_cluster_categories() {
    let keep = pid(1);
    let gone = pid(2);
    let also_gone = pid(3);
    let mut meta = MetaMap::new();
    meta.push(keep, point_with_tags(keep, &["cat", "art"]), ext());
    meta.push(gone, point_with_tags(gone, &["cat", "meme"]), ext());
    meta.push(also_gone, point_with_tags(also_gone, &["meme"]), ext());
    let fc = FinalClassification {
        kept_text_anomalies_group: None,
        triaged_gif_and_invalid_group: None,
        triaged_gif_and_discard_same_frame_group: None,
        triaged_gif_and_then_will_keep_group: None,
        triaged_gif_and_then_will_delete_group: None,
        kept_non_gif: Some(keep),
        other_need_delete_group: Some(vec![gone, also_gone]),
    };
    let task = build_reset_point_task(&fc, &meta);
    assert_eq!(task.keep_point_list, vec![keep]);
    assert_eq!(task.discard_point_list, vec![gone, also_gone]);
    assert_eq!(task.transfer_tag_list.len(), task.keep_point_list.len());
    assert_eq!(task.transfer_tag_list[0], vec!["cat", "art", "meme"]);
}

#[test]
fn every_kept_point_gets_one_tag_list() {
    let a = pid(1);
    let b = pid(2);
    let c = pid(3);
    let mut meta = MetaMap::new();
    meta.push(a, point_with_tags(a, &["x"]), ext());
    meta.push(b, point_with_tags(b, &["y"]), ext());
    meta.push(c, point_with_tags(c, &["z"]), ext());
    let fc = FinalClassification {
        kept_text_anomalies_group: Some(vec![a]),
        triaged_gif_and_invalid_group: None,
        triaged_gif_and_discard_same_frame_group: None,
        triaged_gif_and_then_will_keep_group: Some(vec![b]),
        triaged_gif_and_then_will_delete_group: Some(vec![c]),
        kept_non_gif: None,
        other_need_delete_group: None,
    };
    let task = build_reset_point_task(&fc, &meta);
    assert_eq!(task.keep_point_list, vec![a, b]);
    assert_eq!(task.discard_point_list, vec![c]);
    assert_eq!(task.transfer_tag_list.len(), 2);
    assert_eq!(task.transfer_tag_list[0], vec!["x", "y", "z"]);
    assert_eq!(task.transfer_tag_list[1], vec!["x", "y", "z"]);
}

#[test]
fn points_without_metadata_contribute_no_tags() {
    let keep = pid(1);
    let gone = pid(2);
    let meta = MetaMap::new();
    let fc = FinalClassification {
        kept_text_anomalies_group: None,
        triaged_gif_and_invalid_group: None,
        triaged_gif_and_discard_same_frame_group: None,
        triaged_gif_and_then_will_keep_group: None,
        triaged_gif_and_then_will_delete_group: None,
        kept_non_gif: Some(keep),
        other_need_delete_group: Some(vec![gone]),
    };
    let task = build_reset_point_task(&fc, &meta);
    assert_eq!(task.transfer_tag_list, vec![Vec::<String>::new()]);
}
