use neko_dedup::cluster::SimMatrix;
use neko_dedup::gif::{anchor_indices, select_kept_gifs, triage_gif_stage, GifDecodeResult, GifError};
use neko_dedup::hamming;
use neko_dedup::point_explorer::{PointExplorer, PointExplorerError};
use neko_dedup::point_id::PointId;
use neko_dedup::structure::TriageGif;

fn gif(n: u128, path: &str, size: usize) -> TriageGif {
    TriageGif { uuid: PointId::from_u128(n), path: path.to_string(), size }
}

#[test]
fn hamming_counts_differing_bits() {
    assert_eq!(hamming(&vec![0xFF], &vec![0x00]), 8);
    assert_eq!(hamming(&vec![0b1010], &vec![0b0101]), 4);
    assert_eq!(hamming(&vec![1, 2, 3], &vec![1, 2, 3]), 0);
    assert_eq!(hamming(&vec![0x0F, 0xF0], &vec![0x00, 0x00]), 8);
}

#[test]
fn static_gif_is_routed_to_discard() {
    // Every frame hashes alike the first: the GIF is static and is not
    // prepared for the embedder.
    let hash = vec![0xAB, 0xCD, 0xEF, 0x01];
    let items = vec![(
        gif(1, "static.gif", 100),
        GifDecodeResult::Frames(
            vec![hash.clone(), hash.clone(), hash.clone()],
            vec![vec![0u8; 12]],
        ),
    )];
    let r = triage_gif_stage(items);
    assert_eq!(r.discard_same_frame_gif_id, Some(vec![PointId::from_u128(1)]));
    assert!(r.prepare_clip_gif_pair.is_none());
    assert!(r.invalid_gif_id.is_none());
}

#[test]
fn animated_gif_is_prepared_and_failures_are_invalid() {
    let near = vec![0b0000_0001u8];
    let far = vec![0b1111_1110u8];
    let items = vec![
        (
            gif(1, "anim.gif", 100),
            GifDecodeResult::Frames(vec![near.clone(), far.clone()], vec![vec![1, 2, 3]]),
        ),
        (gif(2, "broken.gif", 50), GifDecodeResult::Failed("truncated".to_string())),
    ];
    let r = triage_gif_stage(items);
    assert!(r.discard_same_frame_gif_id.is_none());
    let prepared = r.prepare_clip_gif_pair.unwrap();
    assert_eq!(prepared.len(), 1);
    assert_eq!(prepared[0].id, PointId::from_u128(1));
    assert_eq!(prepared[0].frame, vec![vec![1, 2, 3]]);
    let (ids, reasons) = r.invalid_gif_id.unwrap();
    assert_eq!(ids, vec![PointId::from_u128(2)]);
    assert_eq!(reasons, vec!["truncated".to_string()]);
}

#[test]
fn single_frame_gif_is_static() {
    let items = vec![(
        gif(7, "one.gif", 10),
        GifDecodeResult::Frames(vec![vec![0x11]], vec![vec![9]]),
    )];
    let r = triage_gif_stage(items);
    assert_eq!(r.discard_same_frame_gif_id, Some(vec![PointId::from_u128(7)]));
}

#[test]
fn anchor_indices_pick_five_frames() {
    let v = anchor_indices(10, false).unwrap();
    assert_eq!(v, vec![0, 2, 5, 7, 9]);
    let v = anchor_indices(5, false).unwrap();
    assert_eq!(v, vec![0, 1, 2, 3, 4]);
    let v = anchor_indices(3, true).unwrap();
    assert_eq!(v, vec![0, 1, 2]);
    assert_eq!(anchor_indices(3, false).unwrap_err(), GifError::PoorFrames(3));
}

#[test]
fn identical_gifs_keep_the_larger() {
    // Two identical GIFs; the smaller is discarded as a duplicate.
    let g1 = gif(1, "g1.gif", 2000);
    let g2 = gif(2, "g2.gif", 1000);
    let sims = SimMatrix::new(2, vec![1_000_000, 1_000_000, 1_000_000, 1_000_000]).unwrap();
    let r = select_kept_gifs(&vec![g1, g2], &sims, 985000);
    let kept = r.kept_gifs.unwrap();
    let discarded = r.discard_duplicate_gifs.unwrap();
    assert_eq!(kept.len(), 1);
    assert_eq!(kept[0].uuid, PointId::from_u128(1));
    assert_eq!(discarded.len(), 1);
    assert_eq!(discarded[0].uuid, PointId::from_u128(2));
}

#[test]
fn dissimilar_gifs_are_all_kept() {
    let g1 = gif(1, "g1.gif", 2000);
    let g2 = gif(2, "g2.gif", 1000);
    let sims = SimMatrix::new(2, vec![1_000_000, 0, 0, 1_000_000]).unwrap();
    let r = select_kept_gifs(&vec![g1, g2], &sims, 985000);
    let kept = r.kept_gifs.unwrap();
    assert_eq!(kept.len(), 2);
    assert_eq!(r.discard_duplicate_gifs.unwrap().len(), 0);
}

#[test]
fn stored_hashes_have_hamming_lookups() {
    let mut store: PointExplorer<u8> = PointExplorer::new(2);
    let a = PointId::from_u128(1);
    let b = PointId::from_u128(2);
    store.insert(a, vec![0xFF, 0x00]);
    store.insert(b, vec![0x00, 0x00]);
    assert_eq!(store.get_hamming((&a, &b)).unwrap(), 8);
    assert_eq!(store.get_hamming((&a, &a)).unwrap(), 0);
    let missing = PointId::from_u128(9);
    assert!(matches!(
        store.get_hamming((&a, &missing)),
        Err(PointExplorerError::PointNotFound(_))
    ));
}
