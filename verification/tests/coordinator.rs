use minikeyvalue::hash::key_to_path;
use minikeyvalue::mkv::{
    get_resolve, rebalance_survivors, rebuild, subtract_volumes, DeleteBegin, GetOutcome,
    GetPlan, Minikeyvalue, PutBegin, RebalanceBegin,
};
use minikeyvalue::record::Deleted;

use base64::Engine;

fn volumes(names: &[&str]) -> Vec<String> {
    names.iter().map(|s| s.to_string()).collect()
}

fn master() -> Minikeyvalue {
    Minikeyvalue::new(volumes(&["v1", "v2", "v3", "v4"]), String::new(), 3, 1, false, 3000)
}

fn do_put(mkv: &mut Minikeyvalue, key: &str, body: &[u8]) -> u16 {
    match mkv.put_begin(key, body.len()) {
        PutBegin::LengthRequired => 411,
        PutBegin::Busy => 409,
        PutBegin::Exists => 403,
        PutBegin::Started { .. } => mkv.put_commit(key, body, true),
    }
}

#[test]
fn put_stores_live_record_with_md5_hash() {
    let mut mkv = master();
    assert_eq!(do_put(&mut mkv, "/hello", b"world"), 201);
    let rec = mkv.get_record("/hello");
    assert!(matches!(rec.deleted, Deleted::No));
    assert_eq!(rec.hash, "7d793037a0760186574b0282f2f435e7");
    assert_eq!(rec.rvolumes.len(), 3);
}

#[test]
fn put_requires_a_body() {
    let mut mkv = master();
    assert!(matches!(mkv.put_begin("/k", 0), PutBegin::LengthRequired));
}

#[test]
fn put_over_live_key_is_refused() {
    let mut mkv = master();
    assert_eq!(do_put(&mut mkv, "/hello", b"world"), 201);
    assert_eq!(do_put(&mut mkv, "/hello", b"world2"), 403);
}

#[test]
fn concurrent_puts_one_wins() {
    let mut mkv = master();
    let first = mkv.put_begin("/k", 5);
    assert!(matches!(first, PutBegin::Started { .. }));
    // A second PUT arriving while the first still holds the key.
    assert!(matches!(mkv.put_begin("/k", 5), PutBegin::Busy));
    assert_eq!(mkv.put_commit("/k", b"world", true), 201);
    // After the winner committed, later PUTs see the live record instead.
    assert!(matches!(mkv.put_begin("/k", 5), PutBegin::Exists));
}

#[test]
fn failed_replica_write_leaves_soft_record() {
    let mut mkv = master();
    match mkv.put_begin("/k", 5) {
        PutBegin::Started { .. } => {},
        _ => panic!("expected the put to start"),
    }
    assert_eq!(mkv.put_commit("/k", b"world", false), 500);
    let rec = mkv.get_record("/k");
    assert!(matches!(rec.deleted, Deleted::Soft));
    assert_eq!(rec.hash, "");
    // The key is free again and a retry may proceed.
    assert!(matches!(mkv.put_begin("/k", 5), PutBegin::Started { .. }));
}

#[test]
fn get_redirects_to_first_alive_replica() {
    let mut mkv = master();
    assert_eq!(do_put(&mut mkv, "/hello", b"world"), 201);
    let plan = mkv.get_plan("/hello");
    match plan {
        GetPlan::Probe { rvolumes, path, content_md5 } => {
            assert_eq!(path, key_to_path("/hello"));
            assert_eq!(content_md5, "7d793037a0760186574b0282f2f435e7");
            assert_eq!(rvolumes.len(), 3);
            let heads = vec![false, true, true];
            match get_resolve(&rvolumes, &path, &heads) {
                GetOutcome::Redirect { location } => {
                    assert_eq!(location, format!("http://{}{}", rvolumes[1], path));
                },
                GetOutcome::NotFound => panic!("expected a redirect"),
            }
            let silent = vec![false, false, false];
            assert!(matches!(get_resolve(&rvolumes, &path, &silent), GetOutcome::NotFound));
        },
        GetPlan::Miss { .. } => panic!("expected a probe plan for a live key"),
    }
}

#[test]
fn get_misses_absent_and_unlinked_keys() {
    let mut mkv = master();
    assert!(matches!(mkv.get_plan("/nope"), GetPlan::Miss { .. }));
    assert_eq!(do_put(&mut mkv, "/hello", b"world"), 201);
    assert_eq!(mkv.unlink("/hello"), 204);
    match mkv.get_plan("/hello") {
        GetPlan::Miss { content_md5 } => {
            assert_eq!(content_md5, "7d793037a0760186574b0282f2f435e7");
        },
        GetPlan::Probe { .. } => panic!("expected a miss for an unlinked key"),
    }
}

#[test]
fn get_falls_back_when_configured() {
    let mut mkv = Minikeyvalue::new(
        volumes(&["v1", "v2", "v3"]),
        "fallback:3000".to_string(),
        3,
        1,
        false,
        3000,
    );
    match mkv.get_plan("/nope") {
        GetPlan::Probe { rvolumes, .. } => {
            assert_eq!(rvolumes, vec!["fallback:3000".to_string()]);
        },
        GetPlan::Miss { .. } => panic!("expected the fallback to be probed"),
    }
}

#[test]
fn unlink_then_put_reuses_key() {
    let mut mkv = master();
    assert_eq!(do_put(&mut mkv, "/hello", b"world"), 201);
    assert_eq!(mkv.unlink("/hello"), 204);
    assert_eq!(mkv.unlink("/hello"), 404);
    assert_eq!(do_put(&mut mkv, "/hello", b"again"), 201);
    let listing = mkv.list_keys(false, 0).expect("listing should fit");
    assert_eq!(listing.keys, vec!["/hello".to_string()]);
    assert_eq!(listing.next, "");
}

#[test]
fn unlink_missing_key_is_not_found() {
    let mut mkv = master();
    assert_eq!(mkv.unlink("/ghost"), 404);
}

#[test]
fn protected_delete_needs_unlink_first() {
    let mut mkv = Minikeyvalue::new(volumes(&["v1", "v2", "v3"]), String::new(), 3, 1, true, 3000);
    assert_eq!(do_put(&mut mkv, "/hello", b"world"), 201);
    assert!(matches!(mkv.delete_begin("/hello"), DeleteBegin::Protected));
    assert_eq!(mkv.unlink("/hello"), 204);
    match mkv.delete_begin("/hello") {
        DeleteBegin::Proceed { rvolumes, path } => {
            assert_eq!(rvolumes.len(), 3);
            assert_eq!(path, key_to_path("/hello"));
        },
        _ => panic!("expected the delete to proceed"),
    }
    assert_eq!(mkv.delete_finish("/hello", true), 204);
    assert!(matches!(mkv.get_record("/hello").deleted, Deleted::Hard));
}

#[test]
fn failed_replica_delete_keeps_record() {
    let mut mkv = master();
    assert_eq!(do_put(&mut mkv, "/hello", b"world"), 201);
    assert!(matches!(mkv.delete_begin("/hello"), DeleteBegin::Proceed { .. }));
    assert_eq!(mkv.delete_finish("/hello", false), 500);
    assert!(matches!(mkv.get_record("/hello").deleted, Deleted::Soft));
}

#[test]
fn delete_missing_key_is_not_found() {
    let mut mkv = master();
    assert!(matches!(mkv.delete_begin("/ghost"), DeleteBegin::Missing));
}

#[test]
fn listing_honours_limit_and_cursor() {
    let mut mkv = master();
    assert_eq!(do_put(&mut mkv, "/a", b"1"), 201);
    assert_eq!(do_put(&mut mkv, "/b", b"2"), 201);
    assert_eq!(do_put(&mut mkv, "/c", b"3"), 201);
    assert_eq!(mkv.unlink("/b"), 204);
    let live = mkv.list_keys(false, 0).expect("fits");
    assert_eq!(live.keys, vec!["/a".to_string(), "/c".to_string()]);
    assert_eq!(live.next, "");
    let unlinked = mkv.list_keys(true, 0).expect("fits");
    assert_eq!(unlinked.keys, vec!["/b".to_string()]);
    let page = mkv.list_keys(false, 1).expect("fits");
    assert_eq!(page.keys, vec!["/a".to_string()]);
    assert_eq!(page.next, "/c");
}

#[test]
fn rebalance_places_record_on_target_volumes() {
    let mut mkv = master();
    assert_eq!(do_put(&mut mkv, "/hello", b"world"), 201);
    let req = match mkv.rebalance_begin("/hello") {
        RebalanceBegin::Proceed { req } => req,
        _ => panic!("expected the rebalance to proceed"),
    };
    assert_eq!(req.key, "/hello");
    assert_eq!(req.volumes, req.kvolumes); // freshly placed, nothing drifted
    let heads = vec![true, true, true];
    let survivors = rebalance_survivors(&req.volumes, &heads);
    assert_eq!(survivors, req.volumes);
    let missing = subtract_volumes(&req.kvolumes, &survivors);
    assert!(missing.is_empty());
    mkv.rebalance_commit("/hello", req.kvolumes.clone());
    assert_eq!(mkv.rebalance_end("/hello", true), 204);
    let rec = mkv.get_record("/hello");
    assert_eq!(rec.rvolumes, req.kvolumes);
    assert!(matches!(rec.deleted, Deleted::No));
    assert_eq!(rec.hash, "7d793037a0760186574b0282f2f435e7");
}

#[test]
fn rebalance_refuses_missing_key() {
    let mut mkv = master();
    assert!(matches!(mkv.rebalance_begin("/ghost"), RebalanceBegin::Missing));
}

#[test]
fn rebalance_survivor_filter_and_difference() {
    let vols = volumes(&["a", "b", "c"]);
    let heads = vec![true, false, true];
    let survivors = rebalance_survivors(&vols, &heads);
    assert_eq!(survivors, volumes(&["a", "c"]));
    let stale = subtract_volumes(&survivors, &volumes(&["c", "d"]));
    assert_eq!(stale, volumes(&["a"]));
}

#[test]
fn rebuild_recovers_keys_from_listing_names() {
    let mut mkv = master();
    assert_eq!(do_put(&mut mkv, "/hello", b"world"), 201);
    mkv.rebuild_reset();
    assert!(mkv.list_keys(false, 0).expect("fits").keys.is_empty());
    let name = base64::engine::general_purpose::STANDARD.encode(b"/hello");
    assert!(rebuild(&mut mkv, "v2", &name));
    let rec = mkv.get_record("/hello");
    assert!(matches!(rec.deleted, Deleted::No));
    assert_eq!(rec.hash, ""); // rebuild cannot recover content hashes
    assert_eq!(rec.rvolumes, vec!["v2".to_string()]);
    // A second copy found on another volume merges into the same record.
    assert!(rebuild(&mut mkv, "v4", &name));
    let rec = mkv.get_record("/hello");
    assert!(rec.rvolumes.contains(&"v2".to_string()));
    assert!(rec.rvolumes.contains(&"v4".to_string()));
}

#[test]
fn rebuild_rejects_bad_names() {
    let mut mkv = master();
    assert!(!rebuild(&mut mkv, "v1", "not!!base64"));
    // valid base64, but the bytes are not UTF-8 text
    let binary = base64::engine::general_purpose::STANDARD.encode([0xffu8, 0xfe]);
    assert!(!rebuild(&mut mkv, "v1", &binary));
}

#[test]
fn rebuild_yields_to_the_lock_holder() {
    let mut mkv = master();
    let name = base64::engine::general_purpose::STANDARD.encode(b"/busy");
    assert!(mkv.lock_key("/busy"));
    assert!(!rebuild(&mut mkv, "v1", &name));
    mkv.unlock_key("/busy");
    assert!(rebuild(&mut mkv, "v1", &name));
}

#[test]
fn rebalance_plan_covers_every_key() {
    let mut mkv = master();
    assert_eq!(do_put(&mut mkv, "/a", b"1"), 201);
    assert_eq!(do_put(&mut mkv, "/b", b"2"), 201);
    let plan = mkv.rebalance_plan();
    assert_eq!(plan.len(), 2);
    assert_eq!(plan[0].key, "/a");
    assert_eq!(plan[1].key, "/b");
    assert_eq!(plan[0].kvolumes.len(), 3);
}
