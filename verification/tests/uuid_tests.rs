use neko_dedup::neko_uuid::NekoUuid;
use sha1::Digest;

#[test]
fn test_neko_uuid_generate() {
    let neko_uuid = NekoUuid::new();
    let data = b"qwq";
    let id = neko_uuid.generate(&data[..]);
    assert_eq!(id.hyphenated(), "6c439572-44ed-5ba9-a6fb-627b06406c73");
}

#[test]
fn test_neko_uuid_generate_from_sha1() {
    let neko_uuid = NekoUuid::new();
    let qwq = sha1::Sha1::digest(b"qwq");
    let id = neko_uuid.generate_from_sha1(qwq.as_slice());
    assert_eq!(id.hyphenated(), "6c439572-44ed-5ba9-a6fb-627b06406c73");
}

#[test]
fn generate_agrees_with_uuid_crate() {
    let neko_uuid = NekoUuid::new();
    let data = b"some image bytes";
    let id = neko_uuid.generate(&data[..]);
    let namespace = uuid::Uuid::new_v5(
        &uuid::Uuid::NAMESPACE_DNS,
        "github.com/hv0905/NekoImageGallery".as_ref(),
    );
    let digest = sha1::Sha1::digest(&data[..]);
    let hex: String = digest.iter().map(|b| format!("{:02x}", b)).collect();
    let expected = uuid::Uuid::new_v5(&namespace, hex.as_bytes());
    assert_eq!(id.hyphenated(), expected.to_string());
}

#[test]
fn hyphenated_formats_the_identifier() {
    let id = neko_dedup::point_id::PointId::from_u128(0x6c43957244ed5ba9a6fb627b06406c73);
    assert_eq!(id.hyphenated(), "6c439572-44ed-5ba9-a6fb-627b06406c73");
    let zero = neko_dedup::point_id::PointId::from_u128(0);
    assert_eq!(zero.hyphenated(), "00000000-0000-0000-0000-000000000000");
}
