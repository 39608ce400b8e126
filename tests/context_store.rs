use tezos_context::{
    checkout, close, commit, copy, dir_mem, get, get_protocol, init, mem, remove_rec,
    set_protocol, ContextHash, IrminContext, IrminContextIndex,
};

fn key(parts: &[&str]) -> Vec<String> {
    parts.iter().map(|p| p.to_string()).collect()
}

fn genesis() -> (String, String, String) {
    ("main".to_string(), "net1".to_string(), "proto1".to_string())
}

fn open() -> (IrminContextIndex, ContextHash) {
    init("/tmp/store", genesis(), None).expect("init succeeds")
}

fn genesis_context() -> (IrminContextIndex, IrminContext) {
    let (index, h0) = open();
    let c0 = checkout(&index, &h0).expect("genesis is registered");
    (index, c0)
}

fn put(c: &IrminContext, parts: &[&str], value: u8) -> IrminContext {
    tezos_context::context::set(c, &key(parts), &vec![value])
}

fn hex(b: &[u8]) -> String {
    b.iter().map(|x| format!("{:02x}", x)).collect()
}

#[test]
fn end_to_end_scenario() {
    let (mut index, h0) = init("/tmp/store", genesis(), None).unwrap();
    let c0 = checkout(&index, &h0).unwrap();
    let c1 = tezos_context::context::set(&c0, &key(&["a", "b"]), &vec![1, 2, 3]);
    let h1 = commit(&mut index, 1700000000, "block1", &c1);
    assert_ne!(h1.0, h0.0);
    let c2 = checkout(&index, &h1).unwrap();
    assert_eq!(get(&c2, &key(&["a", "b"])), Some(vec![1, 2, 3]));
    let mut unknown = h1.0.clone();
    unknown.push(b'x');
    assert!(checkout(&index, &ContextHash(unknown)).is_none());
    close(index);
}

#[test]
fn genesis_hash_is_blake2b_of_the_commit_encoding() {
    let (_, h0) = open();
    assert_eq!(
        hex(&h0.0),
        "021b8a5a97f64b736df78f038930499a418b97fba5e0b85a086f9975b6fb678e"
    );
}

#[test]
fn commit_hash_has_32_bytes() {
    let (mut index, c0) = genesis_context();
    let h = commit(&mut index, 5, "m", &c0);
    assert_eq!(h.0.len(), 32);
}

#[test]
fn genesis_holds_identifiers() {
    let (_, c0) = genesis_context();
    assert_eq!(get_protocol(&c0), b"proto1".to_vec());
    assert_eq!(get(&c0, &key(&["genesis", "network"])), Some(b"main".to_vec()));
    assert_eq!(get(&c0, &key(&["genesis", "chain"])), Some(b"net1".to_vec()));
    assert!(dir_mem(&c0, key(&["genesis"])));
}

#[test]
fn init_applies_sandbox_patch() {
    let patch = Some(("sandbox".to_string(), "{}".to_string()));
    let (index, h0) = init("/tmp/store", genesis(), patch).unwrap();
    let c0 = checkout(&index, &h0).unwrap();
    assert_eq!(get(&c0, &key(&["sandbox"])), Some(b"{}".to_vec()));
    let (_, plain) = open();
    assert_ne!(h0.0, plain.0);
}

#[test]
fn init_patch_at_protocol_key_sets_protocol() {
    let patch = Some(("protocol".to_string(), "proto2".to_string()));
    let (index, h0) = init("/tmp/store", genesis(), patch).unwrap();
    let c0 = checkout(&index, &h0).unwrap();
    assert_eq!(get_protocol(&c0), b"proto2".to_vec());
    assert!(!mem(&c0, key(&["protocol"])));
}

#[test]
fn init_rejects_empty_data_dir() {
    assert!(init("", genesis(), None).is_err());
}

#[test]
fn init_rejects_empty_genesis_identifier() {
    let g = ("main".to_string(), String::new(), "proto1".to_string());
    assert!(init("/tmp/store", g, None).is_err());
}

#[test]
fn init_rejects_empty_patch_key() {
    let patch = Some((String::new(), "x".to_string()));
    assert!(init("/tmp/store", genesis(), patch).is_err());
}

#[test]
fn get_after_set() {
    let (_, c0) = genesis_context();
    let c1 = tezos_context::context::set(&c0, &key(&["x", "y", "z"]), &vec![9]);
    assert_eq!(get(&c1, &key(&["x", "y", "z"])), Some(vec![9]));
    let c2 = tezos_context::context::set(&c1, &key(&["x", "y", "z"]), &vec![]);
    assert_eq!(get(&c2, &key(&["x", "y", "z"])), Some(vec![]));
    assert_eq!(get(&c1, &key(&["x", "y"])), None);
}

#[test]
fn set_over_leaf_makes_directory() {
    let (_, c0) = genesis_context();
    let c1 = tezos_context::context::set(&c0, &key(&["a"]), &vec![1]);
    assert!(mem(&c1, key(&["a"])));
    assert!(!dir_mem(&c1, key(&["a"])));
    let c2 = tezos_context::context::set(&c1, &key(&["a", "b"]), &vec![2]);
    assert!(!mem(&c2, key(&["a"])));
    assert!(dir_mem(&c2, key(&["a"])));
    assert_eq!(get(&c2, &key(&["a"])), None);
    let c3 = tezos_context::context::set(&c2, &key(&["a"]), &vec![3]);
    assert!(mem(&c3, key(&["a"])));
    assert!(!mem(&c3, key(&["a", "b"])));
    assert_eq!(get(&c3, &key(&["a"])), Some(vec![3]));
}

#[test]
fn set_leaves_source_context_unchanged() {
    let (_, c0) = genesis_context();
    let c1 = tezos_context::context::set(&c0, &key(&["a"]), &vec![1]);
    let _c2 = tezos_context::context::set(&c1, &key(&["a"]), &vec![2]);
    assert_eq!(get(&c1, &key(&["a"])), Some(vec![1]));
    assert_eq!(get(&c0, &key(&["a"])), None);
}

#[test]
fn absent_key_reads_none_and_remove_is_noop() {
    let (mut index, c0) = genesis_context();
    let c1 = tezos_context::context::set(&c0, &key(&["a", "b"]), &vec![1]);
    assert_eq!(get(&c1, &key(&["nothing"])), None);
    assert!(!mem(&c1, key(&["nothing"])));
    let c2 = remove_rec(&c1, &key(&["nothing"]));
    assert_eq!(get(&c2, &key(&["a", "b"])), Some(vec![1]));
    assert_eq!(get(&c2, &key(&["genesis", "network"])), Some(b"main".to_vec()));
    let h1 = commit(&mut index, 7, "m", &c1);
    let h2 = commit(&mut index, 7, "m", &c2);
    assert_eq!(h1.0, h2.0);
}

#[test]
fn remove_rec_removes_subtree() {
    let (_, c0) = genesis_context();
    let c1 = tezos_context::context::set(&c0, &key(&["a", "b"]), &vec![1]);
    let c2 = tezos_context::context::set(&c1, &key(&["a", "c", "d"]), &vec![2]);
    let c3 = tezos_context::context::set(&c2, &key(&["ab"]), &vec![3]);
    let c4 = remove_rec(&c3, &key(&["a"]));
    assert!(!dir_mem(&c4, key(&["a"])));
    assert_eq!(get(&c4, &key(&["a", "b"])), None);
    assert_eq!(get(&c4, &key(&["a", "c", "d"])), None);
    assert_eq!(get(&c4, &key(&["ab"])), Some(vec![3]));
    let c5 = remove_rec(&c3, &key(&["a", "c", "d"]));
    assert!(!dir_mem(&c5, key(&["a", "c"])));
    assert!(mem(&c5, key(&["a", "b"])));
}

#[test]
fn commit_is_deterministic_over_build_order() {
    let (mut index, c0) = genesis_context();
    let a = put(&put(&c0, &["k", "1"], 1), &["k", "2"], 2);
    let b = put(&put(&c0, &["k", "2"], 2), &["k", "1"], 1);
    let c = put(&put(&c0, &["z"], 0), &["k", "1"], 1);
    let c = put(&remove_rec(&c, &key(&["z"])), &["k", "2"], 2);
    let ha = commit(&mut index, 100, "block", &a);
    let hb = commit(&mut index, 100, "block", &b);
    let hc = commit(&mut index, 100, "block", &c);
    assert_eq!(ha.0, hb.0);
    assert_eq!(ha.0, hc.0);
    let later = commit(&mut index, 101, "block", &a);
    assert_ne!(ha.0, later.0);
    let other = commit(&mut index, 100, "other", &a);
    assert_ne!(ha.0, other.0);
}

#[test]
fn checkout_after_commit_round_trips() {
    let (mut index, c0) = genesis_context();
    let c1 = tezos_context::context::set(&c0, &key(&["x", "y"]), &vec![4, 5]);
    let c1 = set_protocol(&c1, &vec![7; 32]);
    let h = commit(&mut index, 42, "msg", &c1);
    let back = checkout(&index, &h).unwrap();
    for k in [
        key(&["x", "y"]),
        key(&["x"]),
        key(&["protocol"]),
        key(&["genesis", "chain"]),
        key(&["missing"]),
    ] {
        assert_eq!(get(&back, &k), get(&c1, &k));
        assert_eq!(mem(&back, k.clone()), mem(&c1, k.clone()));
        assert_eq!(dir_mem(&back, k.clone()), dir_mem(&c1, k.clone()));
    }
    assert_eq!(get(&c1, &key(&["x", "y"])), Some(vec![4, 5]));
}

#[test]
fn copy_replicates_and_preserves_source() {
    let (_, c0) = genesis_context();
    let c1 = tezos_context::context::set(&c0, &key(&["src", "a"]), &vec![1]);
    let c2 = tezos_context::context::set(&c1, &key(&["src", "b", "c"]), &vec![2]);
    let c3 = tezos_context::context::set(&c2, &key(&["dst", "old"]), &vec![3]);
    let r = copy(&c3, &key(&["src"]), &key(&["dst"])).unwrap();
    assert_eq!(get(&r, &key(&["dst", "a"])), Some(vec![1]));
    assert_eq!(get(&r, &key(&["dst", "b", "c"])), Some(vec![2]));
    assert_eq!(get(&r, &key(&["dst", "old"])), None);
    assert_eq!(get(&r, &key(&["src", "a"])), Some(vec![1]));
    assert_eq!(get(&r, &key(&["src", "b", "c"])), Some(vec![2]));
}

#[test]
fn copy_of_a_leaf() {
    let (_, c0) = genesis_context();
    let c1 = tezos_context::context::set(&c0, &key(&["one"]), &vec![1]);
    let r = copy(&c1, &key(&["one"]), &key(&["two", "deep"])).unwrap();
    assert_eq!(get(&r, &key(&["two", "deep"])), Some(vec![1]));
    assert!(dir_mem(&r, key(&["two"])));
    assert!(mem(&r, key(&["one"])));
}

#[test]
fn copy_of_absent_source_is_none() {
    let (_, c0) = genesis_context();
    assert!(copy(&c0, &key(&["none"]), &key(&["dst"])).is_none());
}

#[test]
fn protocol_key_is_special() {
    let (_, c0) = genesis_context();
    let c1 = tezos_context::context::set(&c0, &key(&["protocol"]), &vec![0xab; 32]);
    assert_eq!(get(&c1, &key(&["protocol"])), Some(vec![0xab; 32]));
    assert_eq!(get_protocol(&c1), vec![0xab; 32]);
    assert!(!dir_mem(&c1, key(&["protocol"])));
    assert!(!mem(&c1, key(&["protocol"])));
    assert_eq!(get(&c0, &key(&["protocol"])), Some(b"proto1".to_vec()));
    let c2 = tezos_context::context::set(&c1, &key(&["protocol", "x"]), &vec![1]);
    assert!(!dir_mem(&c2, key(&["protocol"])));
    assert_eq!(get(&c2, &key(&["protocol", "x"])), Some(vec![1]));
}

#[test]
fn set_protocol_keeps_tree() {
    let (_, c0) = genesis_context();
    let c1 = set_protocol(&c0, &vec![1, 2]);
    assert_eq!(get_protocol(&c1), vec![1, 2]);
    assert_eq!(get(&c1, &key(&["genesis", "network"])), Some(b"main".to_vec()));
}

#[test]
fn unicode_segments_are_distinct_keys() {
    let (_, c0) = genesis_context();
    let c1 = tezos_context::context::set(&c0, &key(&["é"]), &vec![1]);
    let c2 = tezos_context::context::set(&c1, &key(&["e"]), &vec![2]);
    assert_eq!(get(&c2, &key(&["é"])), Some(vec![1]));
    assert_eq!(get(&c2, &key(&["e"])), Some(vec![2]));
}
