use easy_deploy::codec::dump_state;
use easy_deploy::codec::load_from_bytes;
use easy_deploy::engine::load_state;
use easy_deploy::errors::Error;
use easy_deploy::fsmodel::FsModel;
use easy_deploy::paths::get_hidden_target;
use easy_deploy::paths::get_state_path;
use easy_deploy::paths::is_valid_target;
use easy_deploy::state::DeploymentRecord;
use easy_deploy::state::TargetState;
use easy_deploy::time::format_rfc3339;
use easy_deploy::time::parse_rfc3339;
use easy_deploy::wall_clock::FakeTime;
use easy_deploy::wall_clock::WallClock;

fn ms(text: &str) -> i64 {
    chrono::DateTime::parse_from_rfc3339(text).unwrap().timestamp_millis()
}

fn sample_state(target: &[u8]) -> TargetState {
    TargetState {
        deployments: vec![
            (
                0,
                DeploymentRecord {
                    time: ms("2020-01-01T04:50:00Z"),
                    message: b"plain".to_vec(),
                    original_id: 0,
                },
            ),
            (
                3,
                DeploymentRecord {
                    time: ms("2021-06-15T23:59:59.123Z"),
                    message: b"with \"quotes\" and \\slashes\\ and\nnewlines\tand \x01".to_vec(),
                    original_id: 1,
                },
            ),
        ],
        current: Some(3),
        target: target.to_vec(),
    }
}

#[test]
fn dump_then_load_gives_the_same_state() {
    let target = b"/srv/bin/tool".to_vec();
    let state = sample_state(&target);
    let bytes = dump_state(&state);
    let reloaded = load_from_bytes(&bytes, &target).unwrap();
    assert_eq!(state, reloaded);
}

#[test]
fn dump_writes_the_current_schema_tag() {
    let target = b"/srv/bin/tool".to_vec();
    let state = sample_state(&target);
    let bytes = dump_state(&state);
    assert!(bytes.starts_with(b"{\"V1\":{\"deployments\":{\"0\":{\"time\":\""));
    assert!(bytes.ends_with(b"\"}}"));
}

#[test]
fn dump_of_an_empty_state_round_trips() {
    let target = b"/srv/bin/tool".to_vec();
    let state = TargetState { deployments: vec![], current: None, target: target.clone() };
    let bytes = dump_state(&state);
    assert_eq!(
        bytes,
        b"{\"V1\":{\"deployments\":{},\"current\":null,\"target\":\"/srv/bin/tool\"}}".to_vec()
    );
    let reloaded = load_from_bytes(&bytes, &target).unwrap();
    assert_eq!(state, reloaded);
}

#[test]
fn oldest_schema_loads_with_defaults_and_resaves_in_the_current_schema() {
    let target = b"/srv/bin/tool".to_vec();
    let doc = b"{\"V2\":{\"deployments\":{\"0\":{\"time\":\"2020-01-01T04:50:00.000Z\"},\"4\":{\"time\":\"2020-01-02T04:50:00.000Z\"}},\"current\":4,\"target\":\"/srv/bin/tool\"}}"
        .to_vec();
    let upgraded = load_from_bytes(&doc, &target).unwrap();
    assert_eq!(upgraded.deployments.len(), 2);
    for (id, rec) in &upgraded.deployments {
        assert_eq!(rec.message, Vec::<u8>::new());
        assert_eq!(rec.original_id, *id);
    }
    assert_eq!(upgraded.current, Some(4));

    // Re-saving yields a current-schema document, and loading it again is a
    // no-op: the migration is idempotent.
    let resaved = dump_state(&upgraded);
    assert!(resaved.starts_with(b"{\"V1\":"));
    let again = load_from_bytes(&resaved, &target).unwrap();
    assert_eq!(upgraded, again);
}

#[test]
fn the_oldest_schema_can_be_loaded_through_the_state_store() {
    let target = b"/srv/bin/tool".to_vec();
    let mut fs = FsModel::new();
    let sp = get_state_path(&target);
    fs.write_file(
        sp,
        b"{\"V2\":{\"deployments\":{\"7\":{\"time\":\"2020-01-01T04:50:00.000Z\"}},\"current\":7,\"target\":\"/srv/bin/tool\"}}"
            .to_vec(),
    );
    let state = load_state(&fs, &target).unwrap();
    assert_eq!(state.deployments.len(), 1);
    assert_eq!(state.deployments[0].0, 7);
    assert_eq!(state.deployments[0].1.message, Vec::<u8>::new());
    assert_eq!(state.deployments[0].1.original_id, 7);
}

#[test]
fn an_unknown_schema_tag_is_corrupt() {
    let target = b"/srv/bin/tool".to_vec();
    let doc = b"{\"V3\":{\"deployments\":{},\"current\":null,\"target\":\"/srv/bin/tool\"}}"
        .to_vec();
    assert_eq!(load_from_bytes(&doc, &target), Err(Error::StateCorrupt));
}

#[test]
fn a_state_file_for_another_target_is_corrupt() {
    let target = b"/srv/bin/tool".to_vec();
    let doc = b"{\"V1\":{\"deployments\":{},\"current\":null,\"target\":\"/other/place\"}}"
        .to_vec();
    assert_eq!(load_from_bytes(&doc, &target), Err(Error::StateCorrupt));
}

#[test]
fn duplicate_or_unordered_ids_are_rejected() {
    let target = b"/t".to_vec();
    let doc = b"{\"V1\":{\"deployments\":{\"2\":{\"time\":\"2020-01-01T00:00:00.000Z\",\"message\":\"\",\"original_id\":2},\"1\":{\"time\":\"2020-01-01T00:00:00.000Z\",\"message\":\"\",\"original_id\":1}},\"current\":2,\"target\":\"/t\"}}"
        .to_vec();
    assert_eq!(load_from_bytes(&doc, &target), Err(Error::StateCorrupt));
}

#[test]
fn a_current_pointer_to_a_missing_id_is_corrupt() {
    let target = b"/t".to_vec();
    let doc = b"{\"V1\":{\"deployments\":{\"1\":{\"time\":\"2020-01-01T00:00:00.000Z\",\"message\":\"\",\"original_id\":1}},\"current\":3,\"target\":\"/t\"}}"
        .to_vec();
    assert_eq!(load_from_bytes(&doc, &target), Err(Error::StateCorrupt));
}

#[test]
fn hidden_and_state_paths_are_siblings_with_prefixed_names() {
    let target = b"/a/b/bin".to_vec();
    assert_eq!(get_hidden_target(&target, 7), b"/a/b/.7_bin".to_vec());
    assert_eq!(get_hidden_target(&target, 4294967295), b"/a/b/.4294967295_bin".to_vec());
    assert_eq!(get_state_path(&target), b"/a/b/.easy-deploy_bin".to_vec());

    let bare = b"bin".to_vec();
    assert_eq!(get_hidden_target(&bare, 0), b".0_bin".to_vec());
    assert_eq!(get_state_path(&bare), b".easy-deploy_bin".to_vec());
}

#[test]
fn paths_without_a_file_name_are_invalid_targets() {
    assert!(!is_valid_target(&b"".to_vec()));
    assert!(!is_valid_target(&b"/a/b/".to_vec()));
    assert!(!is_valid_target(&b"/a/..".to_vec()));
    assert!(!is_valid_target(&b"/a/.".to_vec()));
    assert!(is_valid_target(&b"/a/b".to_vec()));
    assert!(is_valid_target(&b"bin".to_vec()));
    assert!(is_valid_target(&b"/a/.hidden".to_vec()));
}

#[test]
fn timestamps_render_and_parse_back_exactly() {
    let t = ms("2020-01-01T04:50:00Z");
    let rendered = format_rfc3339(t);
    assert_eq!(rendered, b"2020-01-01T04:50:00.000Z".to_vec());
    assert_eq!(parse_rfc3339(&rendered), Some(t));

    let u = ms("2021-06-15T23:59:59.123Z");
    assert_eq!(parse_rfc3339(&format_rfc3339(u)), Some(u));
}

#[test]
fn out_of_range_timestamps_are_rejected() {
    assert_eq!(parse_rfc3339(&b"+990000-01-01T00:00:00Z".to_vec()), None);
    assert_eq!(parse_rfc3339(&b"1950-01-01T00:00:00Z".to_vec()), None);
    assert_eq!(parse_rfc3339(&b"nonsense".to_vec()), None);
}

#[test]
fn the_system_clock_reports_something() {
    let clock = easy_deploy::wall_clock::SystemTime(());
    let _ = clock.now();
    let fake = FakeTime::new(42);
    assert_eq!(fake.now(), 42);
}

#[test]
fn a_leading_zero_id_is_corrupt() {
    let target = b"/t".to_vec();
    let doc = b"{\"V1\":{\"deployments\":{\"07\":{\"time\":\"2020-01-01T00:00:00.000Z\",\"message\":\"\",\"original_id\":7}},\"current\":7,\"target\":\"/t\"}}"
        .to_vec();
    assert_eq!(load_from_bytes(&doc, &target), Err(Error::StateCorrupt));
}

#[test]
fn a_non_canonical_timestamp_is_corrupt() {
    let target = b"/t".to_vec();
    let doc = b"{\"V1\":{\"deployments\":{\"0\":{\"time\":\"2020-01-01T00:00:00Z\",\"message\":\"\",\"original_id\":0}},\"current\":0,\"target\":\"/t\"}}"
        .to_vec();
    assert_eq!(load_from_bytes(&doc, &target), Err(Error::StateCorrupt));
}
