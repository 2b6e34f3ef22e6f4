use neko_dedup::point_explorer::{PointExplorer, PointExplorerBuilder, PointExplorerError, PointUri};
use neko_dedup::point_id::PointId;
use rand::{RngExt, SeedableRng};
use rand_pcg::Pcg64;

const EPS: f32 = 1e-6;

fn bits(v: &[f32]) -> Vec<u32> {
    v.iter().map(|x| x.to_bits()).collect()
}

fn cosine(a: &[u32], b: &[u32]) -> f32 {
    let af: Vec<f32> = a.iter().map(|&x| f32::from_bits(x)).collect();
    let bf: Vec<f32> = b.iter().map(|&x| f32::from_bits(x)).collect();
    let dot: f32 = af.iter().zip(bf.iter()).map(|(x, y)| x * y).sum();
    let na: f32 = af.iter().map(|x| x * x).sum::<f32>().sqrt();
    let nb: f32 = bf.iter().map(|x| x * x).sum::<f32>().sqrt();
    dot / (na * nb)
}

fn fresh_id() -> PointId {
    PointId::from_u128(uuid::Uuid::new_v4().as_u128())
}

fn make_unit_vector(dim: usize, pos: usize) -> Vec<f32> {
    let mut v = vec![0.0; dim];
    v[pos] = 1.0;
    v
}

#[test]
fn insert_and_similarity() {
    let mut explorer: PointExplorer<u32> = PointExplorer::new(768);
    let id1 = fresh_id();
    let id2 = fresh_id();
    let v1 = vec![1.0f32; 768];
    let v2 = vec![1.0f32; 768];
    explorer.insert(id1, bits(&v1));
    explorer.insert(id2, bits(&v2));
    assert_eq!(explorer.len(), 2);
    let (a, b) = explorer.get_vector_pair((&id1, &id2)).unwrap();
    let sim = cosine(a, b);
    assert!((sim - 1.0).abs() < EPS);
}

#[test]
fn batch_insert_and_error_handling() {
    let mut explorer: PointExplorer<u32> = PointExplorer::new(768);
    let id1 = fresh_id();
    let id2 = fresh_id();
    let v1 = make_unit_vector(768, 0);
    let v2 = make_unit_vector(768, 1);
    explorer.extend(vec![(id1, bits(&v1)), (id2, bits(&v2))]);
    let uuid_except_1 = explorer.index2uuid(1);
    assert_eq!(uuid_except_1, Some(id2));
    let (a, b) = explorer.get_vector_pair((&id1, &id2)).unwrap();
    let sim = cosine(a, b);
    assert!(sim.abs() < EPS);
    let missing = fresh_id();
    let err = explorer.get_vector_pair((&id1, &missing)).unwrap_err();
    assert!(matches!(err, PointExplorerError::PointNotFound(_)));
}

#[test]
fn test_index2uuid() {
    let mut explorer: PointExplorer<u32> = PointExplorer::new(768);
    let id1 = fresh_id();
    let id2 = fresh_id();
    explorer.insert(id1, bits(&vec![0.0; 768]));
    explorer.insert(id2, bits(&vec![1.0; 768]));
    assert_eq!(explorer.index2uuid(0), Some(id1));
    assert_eq!(explorer.index2uuid(1), Some(id2));
    assert_eq!(explorer.index2uuid(2), None);
}

#[test]
fn serialize_deserialize_simple() {
    let mut explorer: PointExplorer<u32> = PointExplorer::new(768);
    let id1 = fresh_id();
    let id2 = fresh_id();
    let v1 = vec![1.0f32; 768];
    let v2 = vec![2.0f32; 768];
    explorer.insert(id1, bits(&v1));
    explorer.insert(id2, bits(&v2));
    let (a, b) = explorer.get_vector_pair((&id1, &id2)).unwrap();
    let pre_sim = cosine(a, b);
    let bytes = explorer.to_bytes();
    let decoded = PointExplorer::<u32>::from_bytes(&bytes).unwrap();
    let (a, b) = decoded.get_vector_pair((&id1, &id2)).unwrap();
    let post_sim = cosine(a, b);
    assert_eq!(decoded.len(), 2);
    assert_eq!(pre_sim, post_sim);
}

#[test]
fn serialize_deserialize_large_random() {
    let mut explorer: PointExplorer<u32> = PointExplorer::new(768);
    let mut rng = Pcg64::seed_from_u64(42);
    let dim = 768;
    let n = 1000;
    let mut ids = Vec::with_capacity(n);
    for _ in 0..n {
        let id = fresh_id();
        let v: Vec<f32> = (0..dim).map(|_| rng.random()).collect();
        explorer.insert(id, bits(&v));
        ids.push((id, v));
    }
    let bytes = explorer.to_bytes();
    let decoded = PointExplorer::<u32>::from_bytes(&bytes).unwrap();
    assert_eq!(decoded.len(), n);
    for _ in 0..100 {
        let i = rng.random_range(0..n);
        let j = rng.random_range(0..n);
        let (id1, _) = &ids[i];
        let (id2, _) = &ids[j];
        let (a, b) = explorer.get_vector_pair((id1, id2)).unwrap();
        let expected = cosine(a, b);
        let (a, b) = decoded.get_vector_pair((id1, id2)).unwrap();
        let actual = cosine(a, b);
        assert!((expected - actual).abs() < EPS, "pair {}-{} differs", i, j);
    }
}

#[test]
fn test_resource_prefix() {
    let url = "https://example.com/resources/";
    let unix_path = "/path/to/resources/";
    let windows_path = "C:\\path\\to\\resources\\";
    let pe: PointExplorer<u32> = PointExplorerBuilder::new()
        .point_url_prefix("url".to_string(), url.to_string())
        .point_url_prefix("unix".to_string(), unix_path.to_string())
        .point_url_prefix("windows".to_string(), windows_path.to_string())
        .build(32);
    match pe.get_uri_prefix("url") {
        Some(PointUri::Url(u)) => assert_eq!(u, url),
        other => panic!("expected a URL prefix, got {:?}", other),
    }
    match pe.get_uri_prefix("unix") {
        Some(PointUri::Path(p)) => assert_eq!(p, unix_path),
        other => panic!("expected a path prefix, got {:?}", other),
    }
    match pe.get_uri_prefix("windows") {
        Some(PointUri::Path(p)) => assert_eq!(p, windows_path),
        other => panic!("expected a path prefix, got {:?}", other),
    }
}

#[test]
fn remove_then_insert_restores_vector_but_may_move_index() {
    let mut explorer: PointExplorer<u32> = PointExplorer::new(4);
    let id1 = fresh_id();
    let id2 = fresh_id();
    let v1: Vec<u32> = vec![1, 2, 3, 4];
    let v2: Vec<u32> = vec![5, 6, 7, 8];
    explorer.insert(id1, v1.clone());
    explorer.insert(id2, v2.clone());
    assert_eq!(explorer.uuid2index(&id1), Some(0));
    let removed = explorer.remove(&id1).unwrap();
    assert_eq!(removed, v1);
    assert_eq!(explorer.uuid2index(&id2), Some(0));
    explorer.insert(id1, v1.clone());
    assert_eq!(explorer.get_vector(&id1), Some(&v1));
    assert_eq!(explorer.uuid2index(&id1), Some(1));
}

#[test]
fn from_bytes_rejects_malformed_data() {
    let garbage: Vec<u8> = vec![1, 2, 3];
    let err = PointExplorer::<u32>::from_bytes(&garbage).unwrap_err();
    assert!(matches!(err, PointExplorerError::SerdeError(_)));
    let mut explorer: PointExplorer<u32> = PointExplorer::new(2);
    explorer.insert(fresh_id(), vec![7, 9]);
    let mut bytes = explorer.to_bytes();
    bytes.pop();
    let err = PointExplorer::<u32>::from_bytes(&bytes).unwrap_err();
    assert!(matches!(err, PointExplorerError::SerdeError(_)));
}

#[test]
fn get_point_uri_joins_prefixes() {
    let mut pe: PointExplorer<u32> = PointExplorerBuilder::new()
        .point_url_prefix("url".to_string(), "https://example.com/resources/".to_string())
        .point_url_prefix("unix".to_string(), "/path/to/resources".to_string())
        .build(32);
    let id = PointId::from_u128(0);
    let ext = neko_dedup::structure::NekoPointExt {
        file_path: "bucket/item.gif".to_string(),
        source: None,
    };
    pe.set_metadata_ext(vec![(id, ext)]);
    let from_url = pe.get_point_uri("url", &id).unwrap();
    assert_eq!(
        from_url,
        "https://example.com/resources/00000000-0000-0000-0000-000000000000.gif"
    );
    let from_path = pe.get_point_uri("unix", &id).unwrap();
    assert_eq!(
        from_path,
        "/path/to/resources/00000000-0000-0000-0000-000000000000.gif"
    );
    assert_eq!(pe.get_point_uri("missing", &id), None);
    assert_eq!(pe.get_point_uri("url", &PointId::from_u128(5)), None);
}

#[test]
fn byte_store_round_trips() {
    let mut store: PointExplorer<u8> = PointExplorer::new(4);
    let id1 = fresh_id();
    let id2 = fresh_id();
    store.insert(id1, vec![1, 2, 3, 4]);
    store.insert(id2, vec![9, 8, 7, 6]);
    let bytes = store.to_bytes();
    let decoded = PointExplorer::<u8>::from_bytes(&bytes).unwrap();
    assert_eq!(decoded.len(), 2);
    assert_eq!(decoded.get_vector(&id1), Some(&vec![1, 2, 3, 4]));
    assert_eq!(decoded.get_vector(&id2), Some(&vec![9, 8, 7, 6]));
    assert_eq!(decoded.index2uuid(0), Some(id1));
    assert!(PointExplorer::<u8>::from_bytes(&bytes[..bytes.len() - 1]).is_err());
}
