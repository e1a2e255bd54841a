use journaled_trie::counting::{CountingTrie, RejectingTrie};
use journaled_trie::deploy;
use journaled_trie::journal::{JournalError, JournaledTrie};
use journaled_trie::memtrie::MemoryTrie;
use journaled_trie::syscall::SyscallPoseidon;
use journaled_trie::trie::{TrieError, TrieStorage};

fn bytes32(val: &str) -> [u8; 32] {
    let mut word: [u8; 32] = [0; 32];
    if val.len() > 32 {
        word.copy_from_slice(&val.as_bytes()[0..32]);
    } else {
        word[0..val.len()].copy_from_slice(val.as_bytes());
    }
    word
}

fn calc_trie_root(values: Vec<([u8; 32], Vec<[u8; 32]>, u32)>) -> [u8; 32] {
    let mut trie = MemoryTrie::new();
    for (key, value, flags) in values.iter() {
        trie.update(key, *flags, value).unwrap();
    }
    trie.compute_root()
}

fn test_address() -> [u8; 20] {
    let mut address: [u8; 20] = [0; 20];
    address[19] = 1;
    address
}

#[test]
fn test_commit_multiple_values() {
    let zktrie = MemoryTrie::new();
    let mut journal = JournaledTrie::new(zktrie);
    journal.update(&bytes32("key1"), &vec![bytes32("val1")], 0);
    journal.update(&bytes32("key2"), &vec![bytes32("val2")], 1);
    // just commit all changes w/o revert
    journal.commit().unwrap();
    assert_eq!(
        journal.compute_root(),
        calc_trie_root(vec![
            (bytes32("key1"), vec![bytes32("val1")], 0),
            (bytes32("key2"), vec![bytes32("val2")], 1),
        ])
    );
    // add third key to the existing trie and commit
    journal.update(&bytes32("key3"), &vec![bytes32("val3")], 0);
    journal.commit().unwrap();
    assert_eq!(
        journal.compute_root(),
        calc_trie_root(vec![
            (bytes32("key1"), vec![bytes32("val1")], 0),
            (bytes32("key2"), vec![bytes32("val2")], 1),
            (bytes32("key3"), vec![bytes32("val3")], 0),
        ])
    );
}

#[test]
fn test_commit_and_rollback() {
    let zktrie = MemoryTrie::new();
    let mut journal = JournaledTrie::new(zktrie);
    journal.update(&bytes32("key1"), &vec![bytes32("val1")], 0);
    journal.update(&bytes32("key2"), &vec![bytes32("val2")], 1);
    // just commit all changes w/o revert
    journal.commit().unwrap();
    assert_eq!(
        journal.compute_root(),
        calc_trie_root(vec![
            (bytes32("key1"), vec![bytes32("val1")], 0),
            (bytes32("key2"), vec![bytes32("val2")], 1),
        ])
    );
    // add third key to the existing trie and rollback
    let checkpoint = journal.checkpoint();
    journal.update(&bytes32("key3"), &vec![bytes32("val3")], 0);
    journal.rollback(checkpoint);
    // commit drained the overlay, so no uncommitted entries are left
    assert_eq!(journal.state.len(), 0);
    assert_eq!(
        journal.compute_root(),
        calc_trie_root(vec![
            (bytes32("key1"), vec![bytes32("val1")], 0),
            (bytes32("key2"), vec![bytes32("val2")], 1),
        ])
    );
    // modify the same key and rollback
    let checkpoint = journal.checkpoint();
    journal.update(&bytes32("key2"), &vec![bytes32("Hello, World")], 0);
    journal.rollback(checkpoint);
    assert_eq!(journal.state.len(), 0);
    assert_eq!(
        journal.compute_root(),
        calc_trie_root(vec![
            (bytes32("key1"), vec![bytes32("val1")], 0),
            (bytes32("key2"), vec![bytes32("val2")], 1),
        ])
    );
}

#[test]
fn test_rollback_to_empty() {
    let zktrie = MemoryTrie::new();
    let mut journal = JournaledTrie::new(zktrie);
    let checkpoint = journal.checkpoint();
    journal.update(&bytes32("key1"), &vec![bytes32("val1")], 0);
    journal.update(&bytes32("key2"), &vec![bytes32("val2")], 1);
    journal.rollback(checkpoint);
    assert_eq!(journal.compute_root(), calc_trie_root(vec![]));
    assert_eq!(journal.state.len(), 0);
    let checkpoint = journal.checkpoint();
    journal.update(&bytes32("key3"), &vec![bytes32("val3")], 0);
    journal.update(&bytes32("key4"), &vec![bytes32("val4")], 1);
    journal.rollback(checkpoint);
    assert_eq!(journal.compute_root(), calc_trie_root(vec![]));
    assert_eq!(journal.state.len(), 0);
}

#[test]
fn test_storage_store_load() {
    let zktrie = MemoryTrie::new();
    let mut journal = JournaledTrie::new(zktrie);
    let address = test_address();
    journal.store(&address, &bytes32("slot1"), &bytes32("value1"));
    let (value, is_cold) = journal.load(&address, &bytes32("slot1")).unwrap();
    assert_eq!(value, bytes32("value1"));
    // value is warm because we've just loaded it into state
    assert_eq!(is_cold, false);
    journal.commit().unwrap();
    let (value, is_cold) = journal.load(&address, &bytes32("slot1")).unwrap();
    assert_eq!(value, bytes32("value1"));
    // value is cold because we committed state before that made it empty
    assert_eq!(is_cold, true);
}

#[test]
fn test_rollback_across_nested_checkpoints() {
    let mut journal = JournaledTrie::new(MemoryTrie::new());
    journal.update(&bytes32("k1"), &vec![bytes32("v1")], 0);
    let cp1 = journal.checkpoint();
    journal.update(&bytes32("k2"), &vec![bytes32("v2")], 0);
    let _cp2 = journal.checkpoint();
    journal.update(&bytes32("k3"), &vec![bytes32("v3")], 0);
    journal.rollback(cp1);
    let (value, is_cold) = journal.get(&bytes32("k1")).unwrap();
    assert_eq!(value, vec![bytes32("v1")]);
    assert_eq!(is_cold, false);
    assert!(journal.get(&bytes32("k2")).is_none());
    assert!(journal.get(&bytes32("k3")).is_none());
}

#[test]
fn test_commit_coalesces_writes() {
    let mut journal = JournaledTrie::new(CountingTrie::new());
    journal.update(&bytes32("k1"), &vec![bytes32("v1")], 0);
    journal.update(&bytes32("k1"), &vec![bytes32("v2")], 0);
    journal.update(&bytes32("k1"), &vec![bytes32("v3")], 0);
    journal.commit().unwrap();
    // only one write reached the trie, and it carries the last value
    assert_eq!(journal.storage.writes, 1);
    assert_eq!(journal.storage.get(&bytes32("k1")), Some(vec![bytes32("v3")]));
}

#[test]
fn test_update_then_remove_leaves_nothing() {
    let mut journal = JournaledTrie::new(CountingTrie::new());
    journal.update(&bytes32("k1"), &vec![bytes32("v1")], 0);
    let (value, is_cold) = journal.get(&bytes32("k1")).unwrap();
    assert_eq!(value, vec![bytes32("v1")]);
    assert_eq!(is_cold, false);
    journal.remove(&bytes32("k1"));
    assert!(journal.get(&bytes32("k1")).is_none());
    journal.commit().unwrap();
    // the change and the removal coalesced into a single trie removal
    assert_eq!(journal.storage.writes, 1);
    assert!(journal.get(&bytes32("k1")).is_none());
    assert!(journal.storage.get(&bytes32("k1")).is_none());
}

#[test]
fn test_commit_error_is_surfaced() {
    let mut journal = JournaledTrie::new(RejectingTrie::new());
    journal.update(&bytes32("k1"), &vec![bytes32("v1")], 0);
    let result = journal.commit();
    assert!(matches!(result, Err(TrieError::WriteFailed)));
    // the overlay itself is untouched and can still be read
    assert_eq!(journal.state.len(), 1);
    let (value, is_cold) = journal.get(&bytes32("k1")).unwrap();
    assert_eq!(value, vec![bytes32("v1")]);
    assert_eq!(is_cold, false);
}

#[test]
fn test_try_load_rejects_wide_slot() {
    let mut journal = JournaledTrie::new(MemoryTrie::new());
    let address = test_address();
    let key = JournaledTrie::<MemoryTrie>::storage_key(&address, &bytes32("slot1"));
    journal.update(&key, &vec![bytes32("w1"), bytes32("w2")], 1);
    let result = journal.try_load(&address, &bytes32("slot1"));
    assert!(matches!(result, Err(JournalError::NonSingleValue)));
}

#[test]
fn test_try_load_misses_and_hits() {
    let mut journal = JournaledTrie::new(MemoryTrie::new());
    let address = test_address();
    assert_eq!(journal.try_load(&address, &bytes32("slot1")), Ok(None));
    journal.store(&address, &bytes32("slot1"), &bytes32("value1"));
    assert_eq!(
        journal.try_load(&address, &bytes32("slot1")),
        Ok(Some((bytes32("value1"), false)))
    );
}

#[test]
fn test_storage_key_mixes_inputs() {
    let address = test_address();
    let slot = bytes32("slot1");
    let key = JournaledTrie::<MemoryTrie>::storage_key(&address, &slot);
    // deterministic, and not any of its inputs handed back
    assert_eq!(key, JournaledTrie::<MemoryTrie>::storage_key(&address, &slot));
    assert_ne!(key, slot);
    let mut other_address = address;
    other_address[0] = 7;
    assert_ne!(key, JournaledTrie::<MemoryTrie>::storage_key(&other_address, &slot));
    assert_ne!(
        key,
        JournaledTrie::<MemoryTrie>::storage_key(&address, &bytes32("slot2"))
    );
}

#[test]
fn test_compress_value_is_a_hash() {
    let val = bytes32("some value");
    let compressed = JournaledTrie::<MemoryTrie>::compress_value(&val);
    assert_eq!(compressed, JournaledTrie::<MemoryTrie>::compress_value(&val));
    assert_ne!(compressed, val);
    assert_ne!(
        compressed,
        JournaledTrie::<MemoryTrie>::compress_value(&bytes32("another value"))
    );
}

#[test]
fn test_poseidon_syscall_digest() {
    let data = bytes32("input block");
    let digest = SyscallPoseidon::fn_impl(&data);
    assert_eq!(digest, SyscallPoseidon::fn_impl(&data));
    assert_ne!(digest, data);
    assert_ne!(digest, SyscallPoseidon::fn_impl(b"abc"));
    assert_ne!(SyscallPoseidon::fn_impl(b"abc"), SyscallPoseidon::fn_impl(b"abd"));
    // an empty input absorbs no chunk: the digest is the all-zero state
    assert_eq!(SyscallPoseidon::fn_impl(&[]), [0u8; 32]);
}

#[test]
fn test_logs_follow_checkpoints_and_commit() {
    let mut journal = JournaledTrie::new(MemoryTrie::new());
    let address = test_address();
    journal.update(&bytes32("k1"), &vec![bytes32("v1")], 0);
    journal.emit_log(address, vec![bytes32("topic1")], vec![1, 2, 3]);
    let checkpoint = journal.checkpoint();
    journal.emit_log(address, vec![bytes32("topic2")], vec![4, 5, 6]);
    journal.rollback(checkpoint);
    let (_root, logs) = journal.commit().unwrap();
    // the rolled-back log is gone, the earlier one is drained by commit
    assert_eq!(logs.len(), 1);
    assert_eq!(logs[0].address, address);
    assert_eq!(logs[0].topics, vec![bytes32("topic1")]);
    assert_eq!(logs[0].data, vec![1, 2, 3]);
    // after commit the log buffer starts over
    journal.update(&bytes32("k2"), &vec![bytes32("v2")], 0);
    let (_root, logs) = journal.commit().unwrap();
    assert_eq!(logs.len(), 0);
}

#[test]
fn test_checkpoint_captures_lengths() {
    let mut journal = JournaledTrie::new(MemoryTrie::new());
    let checkpoint = journal.checkpoint();
    assert_eq!(checkpoint.state(), 0);
    assert_eq!(checkpoint.logs(), 0);
    journal.update(&bytes32("k1"), &vec![bytes32("v1")], 0);
    journal.emit_log(test_address(), vec![], vec![]);
    let checkpoint = journal.checkpoint();
    assert_eq!(checkpoint.0, 1);
    assert_eq!(checkpoint.1, 1);
}

#[test]
fn test_root_ignores_write_order() {
    let ordered = calc_trie_root(vec![
        (bytes32("key1"), vec![bytes32("val1")], 0),
        (bytes32("key2"), vec![bytes32("val2")], 1),
    ]);
    let reversed = calc_trie_root(vec![
        (bytes32("key2"), vec![bytes32("val2")], 1),
        (bytes32("key1"), vec![bytes32("val1")], 0),
    ]);
    assert_eq!(ordered, reversed);
    assert_ne!(ordered, calc_trie_root(vec![]));
}

#[test]
fn test_remove_masks_committed_value() {
    let mut journal = JournaledTrie::new(MemoryTrie::new());
    journal.update(&bytes32("k1"), &vec![bytes32("v1")], 0);
    journal.commit().unwrap();
    // the committed value reads back cold from the trie
    let (value, is_cold) = journal.get(&bytes32("k1")).unwrap();
    assert_eq!(value, vec![bytes32("v1")]);
    assert_eq!(is_cold, true);
    // an uncommitted removal hides it even though the trie still holds it
    journal.remove(&bytes32("k1"));
    assert!(journal.get(&bytes32("k1")).is_none());
    assert_eq!(journal.storage.get(&bytes32("k1")), Some(vec![bytes32("v1")]));
}

#[test]
fn test_deploy_is_a_noop() {
    deploy();
}
