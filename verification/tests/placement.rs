use minikeyvalue::hash::{key_to_path, key_to_volume, needs_rebalance};

fn volumes(names: &[&str]) -> Vec<String> {
    names.iter().map(|s| s.to_string()).collect()
}

#[test]
fn path_of_hello_matches_md5_and_base64() {
    // MD5("hello") = 5d41402abc4b2a76b9719d911017c592; 0x5d = 93, 0x41 = 65.
    assert_eq!(key_to_path("hello"), "/93/65/XUFAKrxLKna5cZ2REBfFkg==");
}

#[test]
fn path_is_deterministic_and_separates_keys() {
    assert_eq!(key_to_path("abc"), key_to_path("abc"));
    assert_ne!(key_to_path("abc"), key_to_path("abd"));
}

#[test]
fn placement_has_replica_count_entries() {
    let vols = volumes(&["v1", "v2", "v3", "v4"]);
    let r = key_to_volume("hello", &vols, 3, 1);
    assert_eq!(r.len(), 3);
    for v in &r {
        assert!(vols.contains(v));
    }
}

#[test]
fn placement_is_deterministic() {
    let vols = volumes(&["v1", "v2", "v3", "v4"]);
    let a = key_to_volume("some-key", &vols, 2, 10);
    let b = key_to_volume("some-key", &vols, 2, 10);
    assert_eq!(a, b);
}

#[test]
fn placement_matches_rendezvous_ranking() {
    // Rank each volume by MD5(key || volume) and take the lowest digests.
    let vols = volumes(&["v1", "v2", "v3", "v4"]);
    let key = "hello";
    let mut ranked: Vec<(Vec<u8>, usize)> = vols
        .iter()
        .enumerate()
        .map(|(i, v)| {
            let mut data = key.as_bytes().to_vec();
            data.extend_from_slice(v.as_bytes());
            (md5::compute(&data).0.to_vec(), i)
        })
        .collect();
    ranked.sort();
    let expected: Vec<String> = ranked.iter().take(3).map(|(_, i)| vols[*i].clone()).collect();
    assert_eq!(key_to_volume(key, &vols, 3, 1), expected);
}

#[test]
fn placement_suffixes_subvolumes() {
    let vols = volumes(&["host1:3001", "host2:3001"]);
    let r = key_to_volume("k", &vols, 2, 10);
    for v in &r {
        let (base, sv) = v.split_at(v.find("/sv").expect("expected a sub-volume suffix"));
        assert!(vols.contains(&base.to_string()));
        assert!(sv.starts_with("/sv"));
        let n: u32 = sv[3..].parse().expect("numeric sub-volume label");
        assert!(n < 10);
        assert_eq!(sv.len(), 5); // "/sv" plus two digits
    }
}

#[test]
fn placement_subvolume_matches_digest_bytes() {
    // The sub-volume index is the big-endian u32 of digest bytes 12..16,
    // modulo the sub-volume count.
    let vols = volumes(&["host1:3001"]);
    let key = "k";
    let mut data = key.as_bytes().to_vec();
    data.extend_from_slice(vols[0].as_bytes());
    let d = md5::compute(&data).0;
    let h = u32::from_be_bytes([d[12], d[13], d[14], d[15]]);
    let expected = format!("{}/sv{:02}", vols[0], h % 10);
    assert_eq!(key_to_volume(key, &vols, 1, 10), vec![expected]);
}

#[test]
fn adding_a_volume_moves_only_keys_it_now_hosts() {
    // Rendezvous churn: with one volume appended, a key's placement either
    // stays exactly the same or now includes the new volume.
    let before_vols = volumes(&["v1", "v2", "v3", "v4"]);
    let after_vols = volumes(&["v1", "v2", "v3", "v4", "v5"]);
    for key in ["/a", "/b", "/c", "/hello", "/world", "/x1", "/x2", "/x3"] {
        let before = key_to_volume(key, &before_vols, 2, 1);
        let after = key_to_volume(key, &after_vols, 2, 1);
        if !after.contains(&"v5".to_string()) {
            assert_eq!(before, after);
        }
    }
}

#[test]
fn needs_rebalance_detects_any_difference() {
    let a = volumes(&["v1", "v2"]);
    let b = volumes(&["v1", "v2"]);
    let c = volumes(&["v2", "v1"]);
    let d = volumes(&["v1"]);
    assert!(!needs_rebalance(&a, &b));
    assert!(needs_rebalance(&a, &c));
    assert!(needs_rebalance(&a, &d));
}
