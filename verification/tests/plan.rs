//! Tests of update planning and of the run over the update queue.

use cargo_update_installed::{
    plan_updates, Crate, CrateKind, PlannedUpdate, ResolvedVersion, UpdateRun,
};

fn rec(name: &[u8], version: &[u8]) -> Crate {
    Crate { name: name.to_vec(), version: version.to_vec(), kind: CrateKind::CratesIo }
}

fn res(name: &[u8], version: &[u8]) -> ResolvedVersion {
    ResolvedVersion { name: name.to_vec(), version: version.to_vec() }
}

#[test]
fn plan_queues_exactly_the_outdated_packages() {
    let installed = vec![rec(b"pkgA", b"1.0.0"), rec(b"pkgB", b"2.0.0")];
    let resolved = vec![res(b"pkgA", b"1.0.0"), res(b"pkgB", b"3.0.0")];
    let plan = plan_updates(&installed, &resolved);
    assert_eq!(plan.updates.len(), 1);
    assert_eq!(plan.updates[0].name, b"pkgB".to_vec());
    assert_eq!(plan.updates[0].version, b"3.0.0".to_vec());
    assert_eq!(plan.up_to_date, vec![b"pkgA".to_vec()]);
}

#[test]
fn run_attempts_each_queued_update_once() {
    let installed = vec![rec(b"pkgA", b"1.0.0"), rec(b"pkgB", b"2.0.0")];
    let resolved = vec![res(b"pkgA", b"1.0.0"), res(b"pkgB", b"3.0.0")];
    let plan = plan_updates(&installed, &resolved);
    let mut run = UpdateRun::new(plan.updates);
    let mut installs: Vec<(Vec<u8>, Vec<u8>)> = Vec::new();
    loop {
        let (name, version) = match run.next_update() {
            Some(u) => (u.name.clone(), u.version.clone()),
            None => break,
        };
        installs.push((name, version));
        run.record(true);
    }
    assert_eq!(installs, vec![(b"pkgB".to_vec(), b"3.0.0".to_vec())]);
}

#[test]
fn failure_stops_the_run() {
    let queue = vec![
        PlannedUpdate { name: b"one".to_vec(), version: b"1.0.0".to_vec() },
        PlannedUpdate { name: b"two".to_vec(), version: b"2.0.0".to_vec() },
    ];
    let mut run = UpdateRun::new(queue);
    let first = run.next_update().expect("an update is owed");
    assert_eq!(first.name, b"one".to_vec());
    run.record(false);
    assert!(run.next_update().is_none());
}

#[test]
fn successes_walk_the_whole_queue() {
    let queue = vec![
        PlannedUpdate { name: b"one".to_vec(), version: b"1.0.0".to_vec() },
        PlannedUpdate { name: b"two".to_vec(), version: b"2.0.0".to_vec() },
    ];
    let mut run = UpdateRun::new(queue);
    assert_eq!(run.next_update().expect("first").name, b"one".to_vec());
    run.record(true);
    assert_eq!(run.next_update().expect("second").name, b"two".to_vec());
    run.record(true);
    assert!(run.next_update().is_none());
}

#[test]
fn nothing_installed_means_nothing_to_update() {
    let plan = plan_updates(&Vec::new(), &Vec::new());
    assert!(plan.updates.is_empty());
    assert!(plan.up_to_date.is_empty());
    let mut run = UpdateRun::new(plan.updates);
    assert!(run.next_update().is_none());
}

#[test]
fn updates_keep_name_order() {
    let installed = vec![rec(b"alpha", b"1.0.0"), rec(b"beta", b"1.0.0"), rec(b"gamma", b"1.0.0")];
    let resolved = vec![res(b"alpha", b"2.0.0"), res(b"beta", b"1.0.0"), res(b"gamma", b"3.0.0")];
    let plan = plan_updates(&installed, &resolved);
    let names: Vec<Vec<u8>> = plan.updates.iter().map(|u| u.name.clone()).collect();
    assert_eq!(names, vec![b"alpha".to_vec(), b"gamma".to_vec()]);
}
