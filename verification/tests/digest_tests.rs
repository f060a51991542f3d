use netweevil::digest::{aggregate_source_digest, file_digest, profile_fingerprint};
use sha2::{Digest, Sha256};

#[test]
fn file_digests_are_lower_case_hex_sha256() {
    assert_eq!(file_digest(b""), "e3b0c44298fc1c149afbf4c8996fb92427ae41e4649b934ca495991b7852b855");
    assert_eq!(file_digest(b"abc"), "ba7816bf8f01cfea414140de5dae2223b00361a396177a9cb410ff61f20015ad");
}

#[test]
fn a_single_source_is_its_own_digest() {
    let digest = Sha256::digest(b"abc").to_vec();
    let (hash, size) = aggregate_source_digest(&vec![(b"a.pbf".to_vec(), digest, 3)]);
    assert_eq!(hash, "ba7816bf8f01cfea414140de5dae2223b00361a396177a9cb410ff61f20015ad");
    assert_eq!(size, 3);
}

#[test]
fn several_sources_hash_paths_and_digests_together() {
    let first = Sha256::digest(b"one").to_vec();
    let second = Sha256::digest(b"two").to_vec();
    let (hash, size) = aggregate_source_digest(&vec![
        (b"a.gpkg".to_vec(), first.clone(), 10),
        (b"b.gpkg".to_vec(), second.clone(), u64::MAX - 3),
    ]);
    let mut expected = Sha256::new();
    expected.update(b"a.gpkg");
    expected.update([0]);
    expected.update(hex::encode(&first).as_bytes());
    expected.update([0]);
    expected.update(b"b.gpkg");
    expected.update([0]);
    expected.update(hex::encode(&second).as_bytes());
    expected.update([0]);
    assert_eq!(hash, hex::encode(expected.finalize()));
    assert_eq!(size, u64::MAX);
}

#[test]
fn profile_fingerprints_hash_the_cost_model_revision_first() {
    let yaml = b"profile:\n  id: test\n";
    let mut expected = Sha256::new();
    expected.update(b"netweevil-profile-cost-v2\0");
    expected.update(yaml);
    assert_eq!(profile_fingerprint(yaml), hex::encode(expected.finalize()));
    assert_ne!(profile_fingerprint(yaml), profile_fingerprint(b"profile:\n  id: other\n"));
}
