use easy_deploy::deploy;
use easy_deploy::engine::deploy_with_state;
use easy_deploy::engine::load_state;
use easy_deploy::engine::rollback_internal;
use easy_deploy::errors::Error;
use easy_deploy::fsmodel::FsModel;
use easy_deploy::list;
use easy_deploy::rollback;
use easy_deploy::state::DeploymentRecord;
use easy_deploy::state::TargetState;
use easy_deploy::state::MAX_VERSIONS_TO_KEEP;
use easy_deploy::wall_clock::FakeTime;
use easy_deploy::engine::deploy_internal;
use easy_deploy::paths::get_hidden_target;
use easy_deploy::paths::get_state_path;

fn ms(text: &str) -> i64 {
    chrono::DateTime::parse_from_rfc3339(text).unwrap().timestamp_millis()
}

fn assert_contents_matches(fs: &FsModel, file: &Vec<u8>, contents: &str) {
    let read = fs.read_file(file).unwrap();
    assert_eq!(read, contents.as_bytes().to_vec());
}

fn create_file(fs: &mut FsModel, path: &Vec<u8>, contents: &str) {
    fs.write_file(path.clone(), contents.as_bytes().to_vec());
}

fn setup_test_paths() -> (Vec<u8>, Vec<u8>) {
    let target = b"/deploy/my_bin".to_vec();
    let to_deploy = b"/deploy/to_deploy.exe".to_vec();
    (to_deploy, target)
}

fn record(time: i64, message: &str, original_id: u32) -> DeploymentRecord {
    DeploymentRecord { time, message: message.as_bytes().to_vec(), original_id }
}

#[test]
fn deploying_with_state_copies_contents() {
    let (to_deploy, target) = setup_test_paths();
    let mut fs = FsModel::new();
    let state = TargetState::new(target.clone());
    let time = ms("2020-01-01T12:25:00-00:00");
    let message = "deploy";

    let text1: &str = "some contents";
    create_file(&mut fs, &to_deploy, text1);

    let state = deploy_with_state(
        &mut fs,
        state,
        &to_deploy,
        time,
        message.as_bytes().to_vec(),
        None,
    )
    .unwrap();
    assert_contents_matches(&fs, &state.target, text1);

    let text2: &str = "contents changed";
    create_file(&mut fs, &to_deploy, text2);

    let state = deploy_with_state(
        &mut fs,
        state,
        &to_deploy,
        time,
        message.as_bytes().to_vec(),
        None,
    )
    .unwrap();
    assert_contents_matches(&fs, &state.target, text2);

    assert_eq!(
        state.deployments,
        vec![(0, record(time, message, 0)), (1, record(time, message, 1))]
    );
}

#[test]
fn full_deploy_copies_contents() {
    let (to_deploy, target) = setup_test_paths();
    let mut fs = FsModel::new();
    let clock = FakeTime::new(ms("2020-01-01T04:50:00-00:00"));

    let text1: &str = "some contents";
    create_file(&mut fs, &to_deploy, text1);

    deploy_internal(&mut fs, &to_deploy, &target, &clock, b"deploy1".to_vec(), None).unwrap();
    assert_contents_matches(&fs, &target, text1);

    let clock = clock.advance(2 * 60 * 1000);
    let text2: &str = "contents changed";
    create_file(&mut fs, &to_deploy, text2);

    deploy_internal(&mut fs, &to_deploy, &target, &clock, b"deploy2".to_vec(), None).unwrap();
    assert_contents_matches(&fs, &target, text2);

    let expected_state = TargetState {
        deployments: vec![
            (0, record(ms("2020-01-01T04:50:00Z"), "deploy1", 0)),
            (1, record(ms("2020-01-01T04:52:00Z"), "deploy2", 1)),
        ],
        current: Some(1),
        target: target.clone(),
    };
    let state = load_state(&fs, &target).unwrap();
    assert_eq!(expected_state, state);
}

#[test]
fn rollback_works() {
    let (to_deploy, target) = setup_test_paths();
    let mut fs = FsModel::new();
    let clock = FakeTime::new(ms("2020-01-01T04:50:00-00:00"));

    let text1: &str = "some contents";
    create_file(&mut fs, &to_deploy, text1);
    deploy_internal(&mut fs, &to_deploy, &target, &clock, b"deploy1".to_vec(), None).unwrap();

    let clock = clock.advance(5 * 60 * 1000);
    let text2: &str = "contents changed";
    create_file(&mut fs, &to_deploy, text2);
    deploy_internal(&mut fs, &to_deploy, &target, &clock, b"deploy2".to_vec(), None).unwrap();

    let clock = clock.advance(5 * 60 * 1000);
    let text3: &str = "contents the third";
    create_file(&mut fs, &to_deploy, text3);
    deploy_internal(&mut fs, &to_deploy, &target, &clock, b"deploy3".to_vec(), None).unwrap();

    let state = load_state(&fs, &target).unwrap();
    assert_eq!(vec![2, 1, 0], state.order_ids());

    let clock = clock.advance(5 * 60 * 1000);
    rollback_internal(&mut fs, &target, &clock, b"rollback".to_vec(), None).unwrap();

    let expected_state = TargetState {
        deployments: vec![
            (0, record(ms("2020-01-01T04:50:00Z"), "deploy1", 0)),
            (1, record(ms("2020-01-01T04:55:00Z"), "deploy2", 1)),
            (2, record(ms("2020-01-01T05:00:00Z"), "deploy3", 2)),
            (3, record(ms("2020-01-01T05:05:00Z"), "rollback", 1)),
        ],
        current: Some(3),
        target: target.clone(),
    };
    let state = load_state(&fs, &target).unwrap();
    assert_eq!(expected_state, state);
    assert_contents_matches(&fs, &state.target, "contents changed")
}

#[test]
fn garbage_collection_works() {
    let (to_deploy, target) = setup_test_paths();
    let mut fs = FsModel::new();
    let clock = FakeTime::new(ms("2020-01-01T04:50:00-00:00"));

    for _ in 0..20 {
        let text1: &str = "some contents";
        create_file(&mut fs, &to_deploy, text1);
        deploy_internal(&mut fs, &to_deploy, &target, &clock, b"deploy1".to_vec(), None).unwrap();
    }

    let state = load_state(&fs, &target).unwrap();
    assert!(state.deployments.len() <= MAX_VERSIONS_TO_KEEP);
}

#[test]
fn twenty_deploys_keep_the_ten_newest_and_drop_old_hidden_copies() {
    let (to_deploy, target) = setup_test_paths();
    let mut fs = FsModel::new();
    let clock = FakeTime::new(ms("2020-01-01T04:50:00-00:00"));

    for i in 0..20 {
        create_file(&mut fs, &to_deploy, &format!("contents {}", i));
        deploy_internal(&mut fs, &to_deploy, &target, &clock, b"deploy".to_vec(), None).unwrap();
    }

    let state = load_state(&fs, &target).unwrap();
    let ids: Vec<u32> = state.deployments.iter().map(|p| p.0).collect();
    assert_eq!(ids, vec![10, 11, 12, 13, 14, 15, 16, 17, 18, 19]);
    assert_eq!(state.current, Some(19));
    for id in 0..10 {
        let hidden = get_hidden_target(&target, id);
        assert!(!fs.occupied(&hidden), "hidden copy {} should be deleted", id);
    }
    for id in 10..20 {
        let hidden = get_hidden_target(&target, id);
        assert!(fs.occupied(&hidden), "hidden copy {} should be retained", id);
    }
    assert_contents_matches(&fs, &target, "contents 19");
}

#[test]
fn two_deploys_list_two_rows_with_the_second_current() {
    let (to_deploy, target) = setup_test_paths();
    let mut fs = FsModel::new();
    let clock = FakeTime::new(ms("2020-01-01T04:50:00-00:00"));

    create_file(&mut fs, &to_deploy, "some contents");
    deploy(&mut fs, &to_deploy, &target, b"first".to_vec(), &clock).unwrap();
    create_file(&mut fs, &to_deploy, "contents changed");
    deploy(&mut fs, &to_deploy, &target, b"second".to_vec(), &clock).unwrap();

    let rows = list(&fs, &target).unwrap();
    assert_eq!(rows.len(), 2);
    assert_eq!(rows[0].0, 1);
    assert_eq!(rows[0].1, b"second".to_vec());
    assert!(rows[0].3, "the newest deployment is current");
    assert_eq!(rows[1].0, 0);
    assert_eq!(rows[1].1, b"first".to_vec());
    assert!(!rows[1].3);
    assert_contents_matches(&fs, &target, "contents changed");
}

#[test]
fn first_deploys_number_from_zero_and_current_follows() {
    let (to_deploy, target) = setup_test_paths();
    let mut fs = FsModel::new();
    let clock = FakeTime::new(ms("2020-01-01T04:50:00-00:00"));

    for i in 0..5 {
        create_file(&mut fs, &to_deploy, &format!("v{}", i));
        let st = deploy(&mut fs, &to_deploy, &target, b"m".to_vec(), &clock).unwrap();
        let ids: Vec<u32> = st.deployments.iter().map(|p| p.0).collect();
        let expected: Vec<u32> = (0..=i).collect();
        assert_eq!(ids, expected);
        assert_eq!(st.current, Some(i));
    }
}

#[test]
fn rollback_with_no_history_fails_without_mutation() {
    let (_, target) = setup_test_paths();
    let mut fs = FsModel::new();
    let clock = FakeTime::new(ms("2020-01-01T04:50:00-00:00"));

    let r = rollback(&mut fs, &target, b"r".to_vec(), None, &clock);
    assert_eq!(r, Err(Error::NothingToRollBack));
    let sp = get_state_path(&target);
    assert!(!fs.occupied(&sp), "a failed rollback must not create state");
}

#[test]
fn rollback_with_one_deployment_fails() {
    let (to_deploy, target) = setup_test_paths();
    let mut fs = FsModel::new();
    let clock = FakeTime::new(ms("2020-01-01T04:50:00-00:00"));

    create_file(&mut fs, &to_deploy, "only one");
    deploy(&mut fs, &to_deploy, &target, b"m".to_vec(), &clock).unwrap();
    let before = load_state(&fs, &target).unwrap();

    let r = rollback(&mut fs, &target, b"r".to_vec(), None, &clock);
    assert_eq!(r, Err(Error::NothingToRollBack));
    let after = load_state(&fs, &target).unwrap();
    assert_eq!(before, after);
}

#[test]
fn rollback_to_unknown_id_fails() {
    let (to_deploy, target) = setup_test_paths();
    let mut fs = FsModel::new();
    let clock = FakeTime::new(ms("2020-01-01T04:50:00-00:00"));

    create_file(&mut fs, &to_deploy, "a");
    deploy(&mut fs, &to_deploy, &target, b"m".to_vec(), &clock).unwrap();
    create_file(&mut fs, &to_deploy, "b");
    deploy(&mut fs, &to_deploy, &target, b"m".to_vec(), &clock).unwrap();

    let r = rollback(&mut fs, &target, b"r".to_vec(), Some(99), &clock);
    assert_eq!(r, Err(Error::UnknownRollbackId(99)));
}

#[test]
fn rollback_to_explicit_id_restores_that_content() {
    let (to_deploy, target) = setup_test_paths();
    let mut fs = FsModel::new();
    let clock = FakeTime::new(ms("2020-01-01T04:50:00-00:00"));

    create_file(&mut fs, &to_deploy, "oldest");
    deploy(&mut fs, &to_deploy, &target, b"m0".to_vec(), &clock).unwrap();
    create_file(&mut fs, &to_deploy, "middle");
    deploy(&mut fs, &to_deploy, &target, b"m1".to_vec(), &clock).unwrap();
    create_file(&mut fs, &to_deploy, "newest");
    deploy(&mut fs, &to_deploy, &target, b"m2".to_vec(), &clock).unwrap();

    rollback(&mut fs, &target, b"back".to_vec(), Some(0), &clock).unwrap();
    assert_contents_matches(&fs, &target, "oldest");
    let state = load_state(&fs, &target).unwrap();
    assert_eq!(state.current, Some(3));
    assert_eq!(state.deployments.last().unwrap().1.original_id, 0);
}

#[test]
fn deploy_replaces_a_plain_file_at_the_target() {
    let (to_deploy, target) = setup_test_paths();
    let mut fs = FsModel::new();
    let clock = FakeTime::new(ms("2020-01-01T04:50:00-00:00"));

    fs.write_file(target.clone(), b"an old plain file".to_vec());
    create_file(&mut fs, &to_deploy, "the deployed one");
    deploy(&mut fs, &to_deploy, &target, b"m".to_vec(), &clock).unwrap();
    assert_contents_matches(&fs, &target, "the deployed one");
}

#[test]
fn deploy_of_a_missing_source_fails_without_mutation() {
    let (to_deploy, target) = setup_test_paths();
    let mut fs = FsModel::new();
    let clock = FakeTime::new(ms("2020-01-01T04:50:00-00:00"));

    let r = deploy(&mut fs, &to_deploy, &target, b"m".to_vec(), &clock);
    assert_eq!(r, Err(Error::SourceUnreadable));
    let sp = get_state_path(&target);
    assert!(!fs.occupied(&sp));
    assert!(!fs.occupied(&target));
}

#[test]
fn deploy_on_a_corrupt_state_file_fails() {
    let (to_deploy, target) = setup_test_paths();
    let mut fs = FsModel::new();
    let clock = FakeTime::new(ms("2020-01-01T04:50:00-00:00"));

    let sp = get_state_path(&target);
    fs.write_file(sp, b"not a state file".to_vec());
    create_file(&mut fs, &to_deploy, "x");
    let r = deploy(&mut fs, &to_deploy, &target, b"m".to_vec(), &clock);
    assert_eq!(r, Err(Error::StateCorrupt));
    assert_eq!(list(&fs, &target), Err(Error::StateCorrupt));
}

#[test]
fn list_of_a_fresh_target_is_empty() {
    let (_, target) = setup_test_paths();
    let fs = FsModel::new();
    let rows = list(&fs, &target).unwrap();
    assert!(rows.is_empty());
}

#[test]
fn fake_time_advances() {
    let clock = FakeTime::new(1000);
    let clock = clock.advance(500);
    assert_eq!(clock.current, 1500);
}

#[test]
fn an_exhausted_id_space_fails_the_deploy() {
    let (to_deploy, target) = setup_test_paths();
    let mut fs = FsModel::new();
    let clock = FakeTime::new(ms("2020-01-01T04:50:00-00:00"));

    let sp = get_state_path(&target);
    let doc = b"{\"V1\":{\"deployments\":{\"4294967295\":{\"time\":\"2020-01-01T00:00:00.000Z\",\"message\":\"\",\"original_id\":4294967295}},\"current\":4294967295,\"target\":\"/deploy/my_bin\"}}".to_vec();
    fs.write_file(sp, doc);
    create_file(&mut fs, &to_deploy, "x");
    let r = deploy(&mut fs, &to_deploy, &target, b"m".to_vec(), &clock);
    assert_eq!(r, Err(Error::IdSpaceExhausted));
}

#[test]
fn a_clock_outside_the_supported_range_fails_the_deploy() {
    let (to_deploy, target) = setup_test_paths();
    let mut fs = FsModel::new();
    let clock = FakeTime::new(-5);

    create_file(&mut fs, &to_deploy, "x");
    let r = deploy(&mut fs, &to_deploy, &target, b"m".to_vec(), &clock);
    assert_eq!(r, Err(Error::ClockOutOfRange));
}

#[test]
fn garbage_collection_returns_evicted_ids_newest_first() {
    let target = b"/deploy/my_bin".to_vec();
    let time = ms("2020-01-01T04:50:00Z");
    let mut deployments = Vec::new();
    for id in 0..13u32 {
        deployments.push((id, record(time, "m", id)));
    }
    let mut state = TargetState { deployments, current: Some(12), target };
    let evicted = state.garbage_collect();
    assert_eq!(evicted, vec![2, 1, 0]);
    let ids: Vec<u32> = state.deployments.iter().map(|p| p.0).collect();
    assert_eq!(ids, vec![3, 4, 5, 6, 7, 8, 9, 10, 11, 12]);
    assert_eq!(state.current, Some(12));
}
