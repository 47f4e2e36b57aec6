use dataflow::consul::{
    adapter_id_to_path, get_controller_state, get_workers, is_new_index, next_state_version,
    path_to_adapter_id, path_to_worker_id, worker_id_to_path, AuthorityError, ChunkedState,
    ConsulAuthority, GetLeaderResult, KvPair, StateVersion, CHUNK_SIZE,
};

fn pair(key: &str, value: &str, session: Option<&str>, modify: Option<u64>, create: Option<u64>) -> KvPair {
    KvPair {
        key: key.to_string(),
        value: value.as_bytes().to_vec(),
        session: session.map(|s| s.to_string()),
        modify_index: modify,
        create_index: create,
    }
}

#[test]
fn paths_of_workers_and_adapters() {
    assert_eq!(worker_id_to_path("abc"), "workers/abc");
    assert_eq!(adapter_id_to_path("abc"), "adapters/abc");
    assert_eq!(path_to_worker_id("deployment/workers/abc"), "abc");
    assert_eq!(path_to_adapter_id("deployment/adapters/x-y"), "x-y");
    assert_eq!(path_to_worker_id("workers/"), "");
    assert_eq!(path_to_worker_id(&worker_id_to_path("w7")), "w7");
    assert_eq!(path_to_worker_id("dép/workers/é1"), "é1");
}

#[test]
fn versions_take_turns() {
    assert_eq!(next_state_version("0"), "1");
    assert_eq!(next_state_version("1"), "0");
    assert_eq!(next_state_version("anything"), "0");
    let v = StateVersion::default();
    assert_eq!(v.num_chunks, 0);
    assert_eq!(v.version, "0");
}

#[test]
fn connect_string_is_split_at_the_last_slash() {
    let a = ConsulAuthority::new("http://127.0.0.1:8500/leader_election").unwrap();
    assert_eq!(a.address(), "http://127.0.0.1:8500");
    assert_eq!(a.deployment(), "leader_election");
    assert_eq!(a.prefix_with_deployment("controller"), "leader_election/controller");
    assert_eq!(
        ConsulAuthority::new("no-deployment").err(),
        Some(AuthorityError::MissingDeployment)
    );
}

#[test]
fn read_only_authority_remembers_nothing() {
    let mut a = ConsulAuthority::new_with_inner("http://h/d", None).unwrap();
    assert_eq!(a.set_session("s".to_string()), Err(AuthorityError::ReadOnly));
    let kv = pair("d/controller", "", Some("s"), Some(3), None);
    assert_eq!(a.update_controller_index_from_pair(&kv), Err(AuthorityError::ReadOnly));
    assert!(matches!(a.try_get_leader(Some(&kv)), Err(AuthorityError::ReadOnly)));
}

#[test]
fn session_and_leadership() {
    let mut a = ConsulAuthority::new("http://h/d").unwrap();
    assert!(!a.leads(&Some("s1".to_string())));
    assert_eq!(a.set_session("s1".to_string()), Ok(()));
    assert_eq!(a.get_session(), "s1");
    assert!(a.leads(&Some("s1".to_string())));
    assert!(!a.leads(&Some("s2".to_string())));
    assert!(!a.leads(&None));
}

#[test]
fn new_index_is_greater_or_unknown() {
    let kv = pair("k", "", None, Some(5), Some(2));
    assert!(is_new_index(None, &kv));
    assert!(is_new_index(Some(4), &kv));
    assert!(!is_new_index(Some(5), &kv));
    let created = pair("k", "", None, None, Some(2));
    assert!(is_new_index(Some(1), &created));
    assert!(!is_new_index(Some(2), &created));
    let bare = pair("k", "", None, None, None);
    assert!(is_new_index(Some(9), &bare));
}

#[test]
fn leader_is_taken_from_the_controller_key() {
    let mut a = ConsulAuthority::new("http://h/d").unwrap();
    assert!(matches!(a.try_get_leader(None), Ok(GetLeaderResult::NoLeader)));
    // "aGVsbG8gd29ybGQ=" is "hello world"
    let kv = pair("d/controller", "aGVsbG8gd29ybGQ=", Some("s"), Some(7), Some(1));
    match a.try_get_leader(Some(&kv)) {
        Ok(GetLeaderResult::NewLeader(payload)) => assert_eq!(payload, b"hello world".to_vec()),
        other => panic!("a new leader: {:?}", other),
    }
    // the same key again: nothing new
    assert!(matches!(a.try_get_leader(Some(&kv)), Ok(GetLeaderResult::Unchanged)));
    // a newer key that no session holds: the leader is gone
    let dead = pair("d/controller", "aGVsbG8gd29ybGQ=", None, Some(8), Some(1));
    assert!(matches!(a.try_get_leader(Some(&dead)), Ok(GetLeaderResult::NoLeader)));
    // a newer key with a value that is no base64 text
    let bad = pair("d/controller", "***", Some("s"), Some(9), Some(1));
    assert!(matches!(a.try_get_leader(Some(&bad)), Err(AuthorityError::Encoding)));
}

#[test]
fn state_is_cut_into_chunks_and_put_together() {
    let v: Vec<u8> = (0..10u8).collect();
    let c = ChunkedState::cut(&v, 4);
    assert_eq!(c.0, vec![vec![0, 1, 2, 3], vec![4, 5, 6, 7], vec![8, 9]]);
    assert_eq!(c.join(), v);
    assert_eq!(ChunkedState::cut(&vec![], 4).0.len(), 0);
    assert_eq!(ChunkedState::cut(&vec![1, 2, 3, 4], 4).0, vec![vec![1, 2, 3, 4]]);
    let big = vec![3u8; 2 * CHUNK_SIZE + 1];
    let c = ChunkedState::cut(&big, CHUNK_SIZE);
    assert_eq!(c.0.len(), 3);
    assert_eq!(c.0[0].len(), 256000);
    assert_eq!(c.0[2].len(), 1);
    assert_eq!(c.join(), big);
}

#[test]
fn state_is_written_under_the_other_version() {
    let a = ConsulAuthority::new("http://h/d").unwrap();
    let state = b"No way we lose this data".to_vec();
    let (version, writes) = a.write_controller_state(None, &state).unwrap();
    assert_eq!(version.version, "1");
    assert_eq!(version.num_chunks, 1);
    assert_eq!(writes.len(), 1);
    assert_eq!(writes[0].0, "d/state/1/0");
    assert_ne!(writes[0].1, state);
    assert_eq!(a.chunk_paths(&version), vec!["d/state/1/0".to_string()]);

    let (next, _) = a.write_controller_state(Some(version), &state).unwrap();
    assert_eq!(next.version, "0");
}

#[test]
fn state_comes_back_from_its_chunks() {
    let a = ConsulAuthority::new("http://h/d").unwrap();
    // a state that does not compress well, so that it takes several chunks
    let mut state: Vec<u8> = Vec::new();
    let mut x: u32 = 12345;
    for _ in 0..600000 {
        x = x.wrapping_mul(1103515245).wrapping_add(12345);
        state.push((x >> 16) as u8);
    }
    let (version, writes) = a.write_controller_state(None, &state).unwrap();
    assert!(version.num_chunks >= 2);
    assert_eq!(writes.len(), version.num_chunks);
    assert_eq!(a.chunk_paths(&version).len(), version.num_chunks);
    for (i, (path, chunk)) in writes.iter().enumerate() {
        assert_eq!(path, &format!("d/state/1/{}", i));
        assert!(chunk.len() <= CHUNK_SIZE);
    }
    // the store hands the chunks out in base64
    let values: Vec<Vec<u8>> = writes.iter().map(|(_, c)| base64::encode(c).into_bytes()).collect();
    assert_eq!(get_controller_state(&values), Ok(state));
}

#[test]
fn broken_chunks_are_refused() {
    assert_eq!(get_controller_state(&vec![b"***".to_vec()]), Err(AuthorityError::Encoding));
    // base64 of bytes that are no compressed stream
    assert_eq!(
        get_controller_state(&vec![b"aGVsbG8gd29ybGQ=".to_vec()]),
        Err(AuthorityError::Compression)
    );
}

#[test]
fn workers_without_a_session_are_dead() {
    let children = vec![
        pair("d/workers/a", "", Some("a"), None, None),
        pair("d/workers/b", "", None, None, None),
        pair("d/workers/c", "", Some("c"), None, None),
    ];
    assert_eq!(get_workers(&children), vec!["a".to_string(), "c".to_string()]);
}
