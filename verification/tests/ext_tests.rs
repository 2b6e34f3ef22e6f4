use neko_dedup::ext_check::{plan_content_rename, plan_ext_rename, verify_single_ext};
use neko_dedup::point_id::PointId;
use neko_dedup::structure::{file_ext, file_stem, path_join, NekoPointExt, TriageFile, WrongExtFile};

fn png_bytes() -> Vec<u8> {
    vec![0x89, b'P', b'N', b'G', 0x0D, 0x0A, 0x1A, 0x0A, 0, 0, 0, 0]
}

#[test]
fn ext_takes_the_text_after_the_last_dot() {
    let e = NekoPointExt { file_path: "a/b/c.tar.gz".to_string(), source: None };
    assert_eq!(e.ext(), "gz");
    let e = NekoPointExt { file_path: "plain".to_string(), source: None };
    assert_eq!(e.ext(), "plain");
    let e = NekoPointExt { file_path: "trailing.".to_string(), source: None };
    assert_eq!(e.ext(), "");
    assert_eq!(file_ext("x.gif"), "gif");
    assert_eq!(file_stem("dir/file.jpeg.bak"), "dir/file");
    assert_eq!(path_join("/base", "name.gif"), "/base/name.gif");
    assert_eq!(path_join("/base/", "name.gif"), "/base/name.gif");
}

#[test]
fn wrong_extension_is_reported_with_the_inferred_one() {
    let path = "bucket/item.jpg".to_string();
    let r = verify_single_ext(&path, Ok(png_bytes()));
    match r {
        Some(TriageFile::Wrong(w)) => {
            assert_eq!(w.path, path);
            assert_eq!(w.expected_ext, "png");
        },
        other => panic!("expected a wrong-extension record, got {:?}", other),
    }
}

#[test]
fn matching_extension_passes() {
    let path = "bucket/item.png".to_string();
    assert!(verify_single_ext(&path, Ok(png_bytes())).is_none());
}

#[test]
fn unreadable_and_unrecognised_files_fail() {
    let path = "bucket/item.png".to_string();
    match verify_single_ext(&path, Err("timed out".to_string())) {
        Some(TriageFile::Failed(f)) => {
            assert_eq!(f.path, path);
            assert_eq!(f.error, "read error: timed out");
        },
        other => panic!("expected a failure record, got {:?}", other),
    }
    match verify_single_ext(&path, Ok(vec![0u8; 4])) {
        Some(TriageFile::Failed(f)) => {
            assert_eq!(f.error, "infer::get returned None");
        },
        other => panic!("expected a failure record, got {:?}", other),
    }
}

#[test]
fn ext_rename_plans_the_corrected_path() {
    let file = WrongExtFile {
        path: "dir/file.jpeg".to_string(),
        expected_ext: "png".to_string(),
    };
    let dst = plan_ext_rename(&file, &Vec::new(), false);
    assert_eq!(dst, Some("dir/file.png".to_string()));
    let skips = vec![("jpeg".to_string(), "png".to_string())];
    assert_eq!(plan_ext_rename(&file, &skips, false), None);
    assert_eq!(plan_ext_rename(&file, &Vec::new(), true), None);
}

#[test]
fn content_rename_uses_the_identifier_and_corrects_the_extension() {
    let id = PointId::from_u128(0);
    let dst_dir = "out".to_string();
    let (dst, wrong) =
        plan_content_rename(&dst_dir, id, &"jpg".to_string(), &png_bytes(), true).unwrap();
    assert_eq!(dst, "out/00000000-0000-0000-0000-000000000000.png");
    let wrong = wrong.unwrap();
    assert_eq!(wrong.path, dst);
    assert_eq!(wrong.expected_ext, "png");
    let (dst, wrong) =
        plan_content_rename(&dst_dir, id, &"png".to_string(), &png_bytes(), true).unwrap();
    assert_eq!(dst, "out/00000000-0000-0000-0000-000000000000.png");
    assert!(wrong.is_none());
    let (dst, wrong) =
        plan_content_rename(&dst_dir, id, &"jpg".to_string(), &png_bytes(), false).unwrap();
    assert_eq!(dst, "out/00000000-0000-0000-0000-000000000000.jpg");
    assert!(wrong.is_none());
    assert!(plan_content_rename(&dst_dir, id, &"jpg".to_string(), &vec![0u8; 3], true).is_none());
}
