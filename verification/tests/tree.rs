use locker_db::key::{Key, KEY_SIZE};
use locker_db::lsm_tree::{keeps_apart, LSMTree, LoadError, LogFile, TableFiles};
use locker_db::sstable::TableError;
use locker_db::state::{State, StateError};

fn k(byte: u8) -> Key {
    Key::Key([byte; KEY_SIZE])
}

fn v(s: &str) -> Option<Vec<u8>> {
    Some(s.as_bytes().to_vec())
}

fn reopen(tree: &LSMTree) -> LSMTree {
    let (state, logs, tables) = tree.snapshot();
    let bytes = state.save().unwrap();
    let state = State::load(&bytes).unwrap();
    LSMTree::load(&state, &logs, &tables).unwrap()
}

#[test]
fn empty_get() {
    let tree = LSMTree::new();
    assert_eq!(tree.read(&k(0)), None);
    assert_eq!(k(0).hex(), "00000000000000000000000000000000");
}

#[test]
fn put_get_delete() {
    let k1 = k(0x11);
    assert_eq!(k1.hex(), "11111111111111111111111111111111");
    let mut tree = LSMTree::new();
    tree.write(k1, v("a"));
    assert_eq!(tree.read(&k1), v("a"));
    tree.write(k1, None);
    assert_eq!(tree.read(&k1), None);
}

#[test]
fn writes_survive_a_restart() {
    let (k1, k2) = (k(0x11), k(0x22));
    let mut tree = LSMTree::new();
    tree.write(k1, v("a"));
    tree.write(k2, v("b"));
    let tree = reopen(&tree);
    assert_eq!(tree.read(&k1), v("a"));
    assert_eq!(tree.read(&k2), v("b"));
    assert_eq!(tree.read(&k(0x33)), None);
}

#[test]
fn shadowing_across_levels() {
    let k1 = k(0x11);
    let mut tree = LSMTree::new();
    tree.write(k1, v("v1"));
    assert!(tree.new_buffer(0));
    tree.write(k1, v("v2"));
    assert!(tree.new_buffer(0));
    assert_eq!(tree.read(&k1), v("v2"));
    assert_eq!(tree.state().builders.len(), 2);
    assert!(tree.merge().is_some());
    assert_eq!(tree.read(&k1), v("v2"));
    assert!(tree.merge().is_some());
    assert_eq!(tree.read(&k1), v("v2"));
    assert!(tree.merge().is_none());
    assert_eq!(reopen(&tree).read(&k1), v("v2"));
}

#[test]
fn merge_preserves_tombstones() {
    let k1 = k(0x11);
    let mut tree = LSMTree::new();
    tree.write(k1, v("v"));
    assert!(tree.new_buffer(0));
    tree.write(k1, None);
    assert!(tree.new_buffer(0));
    assert!(tree.merge().is_some());
    assert!(tree.merge().is_some());
    assert_eq!(tree.read(&k1), None);
    assert_eq!(reopen(&tree).read(&k1), None);
}

#[test]
fn merge_of_a_large_young_table_leaves_one_table() {
    let k1 = k(0x11);
    let mut tree = LSMTree::new();
    tree.write(k1, v("v"));
    assert!(tree.new_buffer(0));
    tree.write(k1, None);
    tree.write(k(1), v("x"));
    tree.write(k(2), v("y"));
    tree.write(k(3), v("z"));
    assert!(tree.new_buffer(0));
    assert!(tree.merge().is_some());
    assert_eq!(tree.state().tables.len(), 1);
    assert!(tree.merge().is_some());
    assert_eq!(tree.read(&k1), None);
    assert_eq!(tree.read(&k(2)), v("y"));
    let state = tree.state();
    assert_eq!(state.tables.len(), 1);
    assert_eq!(state.builders.len(), 0);
    let garbage = tree.prune_dag();
    assert_eq!(garbage.len(), 2);
    assert!(tree.prune_dag().is_empty());
    let (_, _, files) = tree.snapshot();
    assert_eq!(files.len(), 1);
    assert_eq!(files[0].id, state.tables[0]);
    assert_eq!(files[0].offsets.len(), 4 * 32);
    assert_eq!(reopen(&tree).read(&k1), None);
}

#[test]
fn crash_between_rotate_and_manifest() {
    let (k1, k2) = (k(0x11), k(0x22));
    let mut tree = LSMTree::new();
    tree.write(k1, v("a"));
    tree.write(k2, v("b"));
    assert!(tree.new_buffer(0));
    // the manifest and the files as they are before the table is written
    let (state, logs, tables) = tree.snapshot();
    assert!(tables.is_empty());
    // the new table is written, the manifest is not
    assert!(tree.merge().is_some());
    let (_, _, written) = tree.snapshot();
    assert_eq!(written.len(), 1);
    // the files found afterwards: the old logs and the new table
    let recovered = LSMTree::load(&state, &logs, &written).unwrap();
    assert_eq!(recovered.state(), state);
    assert_eq!(recovered.state().tables.len(), 0);
    assert_eq!(recovered.read(&k1), v("a"));
    assert_eq!(recovered.read(&k2), v("b"));
}

#[test]
fn rotation_waits_for_the_threshold() {
    let mut tree = LSMTree::new();
    for i in 0..5u8 {
        tree.write(k(i), v("x"));
    }
    tree.write(k(0), v("again"));
    let first = tree.state().wal;
    assert!(!tree.new_buffer(5));
    assert_eq!(tree.state().wal, first);
    tree.write(k(5), v("x"));
    assert!(tree.new_buffer(5));
    let state = tree.state();
    assert_ne!(state.wal, first);
    assert_eq!(state.builders, vec![first]);
    assert!(!tree.new_buffer(5));
    assert_eq!(tree.read(&k(0)), v("again"));
}

#[test]
fn proportion_test() {
    assert!(keeps_apart(1, 1));
    assert!(keeps_apart(2, 1));
    assert!(!keeps_apart(3, 1));
    assert!(keeps_apart(4, 3));
    assert!(!keeps_apart(4, 2));
    assert!(keeps_apart(0, 0));
    assert!(!keeps_apart(2, 0));
    assert!(keeps_apart(1, 0));
    assert!(keeps_apart(u64::MAX, u64::MAX));
    assert!(!keeps_apart(u64::MAX, u64::MAX / 2));
}

#[test]
fn chain_is_in_proportion_after_a_merge_pass() {
    let mut tree = LSMTree::new();
    let mut next = 0u8;
    for round in 0..6u8 {
        for _ in 0..(round + 1) {
            tree.write(k(next), v("x"));
            next += 1;
        }
        tree.write(k(0), Some(vec![round]));
        assert!(tree.new_buffer(0));
        assert!(tree.merge().is_some());
        let (_, _, files) = tree.snapshot();
        for pair in files.windows(2) {
            let first = (pair[0].offsets.len() / 32) as u64;
            let second = (pair[1].offsets.len() / 32) as u64;
            assert!(keeps_apart(first, second));
        }
        assert_eq!(tree.read(&k(0)), Some(vec![round]));
    }
    for i in 1..next {
        assert_eq!(tree.read(&k(i)), v("x"));
    }
    let reopened = reopen(&tree);
    for i in 1..next {
        assert_eq!(reopened.read(&k(i)), v("x"));
    }
}

#[test]
fn merge_into_node_walks_the_chain() {
    let mut tree = LSMTree::new();
    assert_eq!(tree.merge_into_node(0), None);
    tree.write(k(1), v("a"));
    assert!(tree.new_buffer(0));
    assert!(tree.merge().is_some());
    assert_eq!(tree.merge_into_node(0), None);
    tree.write(k(2), v("b"));
    assert!(tree.new_buffer(0));
    assert!(tree.merge().is_some());
    assert_eq!(tree.state().tables.len(), 2);
    assert_eq!(tree.merge_into_node(0), Some(1));
    assert_eq!(tree.merge_into_node(1), None);
    assert_eq!(tree.merge_into_node(7), None);
}

#[test]
fn last_write_wins_over_any_sequence() {
    let mut tree = LSMTree::new();
    let ops: Vec<(u8, Option<Vec<u8>>)> = vec![
        (1, v("a")),
        (2, v("b")),
        (1, None),
        (3, v("c")),
        (2, v("bb")),
        (3, None),
        (3, v("ccc")),
    ];
    for (i, (key, value)) in ops.iter().enumerate() {
        tree.write(k(*key), value.clone());
        if i % 2 == 1 {
            tree.new_buffer(0);
        }
        if i % 3 == 2 {
            tree.merge();
        }
    }
    assert_eq!(tree.read(&k(1)), None);
    assert_eq!(tree.read(&k(2)), v("bb"));
    assert_eq!(tree.read(&k(3)), v("ccc"));
    assert_eq!(tree.read(&k(4)), None);
    let tree = reopen(&tree);
    assert_eq!(tree.read(&k(1)), None);
    assert_eq!(tree.read(&k(2)), v("bb"));
    assert_eq!(tree.read(&k(3)), v("ccc"));
    assert_eq!(tree.read(&k(4)), None);
}

#[test]
fn load_fails_on_missing_or_broken_files() {
    let mut tree = LSMTree::new();
    tree.write(k(1), v("a"));
    assert!(tree.new_buffer(0));
    assert!(tree.merge().is_some());
    tree.write(k(2), v("b"));
    assert!(tree.new_buffer(0));
    let (state, logs, tables) = tree.snapshot();
    assert_eq!(logs.len(), 2);
    assert_eq!(tables.len(), 1);
    assert!(LSMTree::load(&state, &logs, &tables).is_ok());
    let no_logs: Vec<LogFile> = Vec::new();
    assert_eq!(LSMTree::load(&state, &no_logs, &tables).err(), Some(LoadError::MissingLog));
    let only_builder = vec![logs[1].clone()];
    assert_eq!(LSMTree::load(&state, &only_builder, &tables).err(), Some(LoadError::MissingLog));
    let no_tables: Vec<TableFiles> = Vec::new();
    assert_eq!(LSMTree::load(&state, &logs, &no_tables).err(), Some(LoadError::MissingTable));
    let mut broken = tables.clone();
    broken[0].strings.clear();
    assert_eq!(
        LSMTree::load(&state, &logs, &broken).err(),
        Some(LoadError::Table(TableError::UnexpectedEof))
    );
}

#[test]
fn manifest_round_trip() {
    let state = State::new(
        "aa".to_string(),
        vec!["bb".to_string(), "cc".to_string()],
        vec!["dd".to_string()],
    );
    let bytes = state.save().unwrap();
    // three strings, each behind an eight-byte length, and two list lengths
    assert_eq!(bytes.len(), 8 + 2 + 8 + (8 + 2) * 2 + 8 + (8 + 2));
    assert_eq!(&bytes[..10], &[2, 0, 0, 0, 0, 0, 0, 0, b'a', b'a']);
    assert_eq!(State::load(&bytes), Ok(state));
    assert_eq!(State::load(&bytes[..5]), Err(StateError::Decode));
    assert_eq!(State::load(&[]), Err(StateError::Decode));
}

#[test]
fn manifest_names_the_levels_in_order() {
    let mut tree = LSMTree::new();
    let w0 = tree.state().wal;
    tree.write(k(1), v("a"));
    assert!(tree.new_buffer(0));
    let w1 = tree.state().wal;
    tree.write(k(2), v("b"));
    assert!(tree.new_buffer(0));
    let state = tree.state();
    assert_eq!(state.builders, vec![w1.clone(), w0.clone()]);
    let spent = tree.merge().unwrap();
    assert_eq!(spent.id(), w0);
    let state = tree.state();
    assert_eq!(state.builders, vec![w1.clone()]);
    assert_eq!(state.tables, vec![w0.clone()]);
    tree.merge().unwrap();
    assert_eq!(tree.state().tables, vec![w1, w0]);
}

#[test]
fn service_cycle_rotates_then_flushes() {
    let mut tree = LSMTree::new();
    let idle = tree.service(5);
    assert!(idle.idle());
    assert!(idle.spent.is_none() && !idle.rotated && idle.garbage.is_empty());
    for i in 0..5u8 {
        tree.write(k(i), v("x"));
    }
    assert!(tree.service(5).idle());
    tree.write(k(5), v("x"));
    let first = tree.state().wal;
    let cycle = tree.service(5);
    assert!(cycle.rotated);
    assert!(!cycle.idle());
    assert_eq!(cycle.spent.unwrap().id(), first);
    let state = tree.state();
    assert_ne!(state.wal, first);
    assert!(state.builders.is_empty());
    assert_eq!(state.tables, vec![first.clone()]);
    tree.write(k(9), v("y"));
    let second = tree.state().wal;
    let next = tree.service(0);
    assert!(next.rotated);
    assert_eq!(next.spent.unwrap().id(), second);
    assert_eq!(tree.state().tables, vec![second, first]);
    assert!(tree.service(0).idle());
    for i in 0..6u8 {
        assert_eq!(tree.read(&k(i)), v("x"));
    }
    assert_eq!(tree.read(&k(9)), v("y"));
}

#[test]
fn service_hands_over_replaced_tables() {
    let mut tree = LSMTree::new();
    tree.write(k(1), v("a"));
    tree.service(0);
    assert_eq!(tree.state().tables.len(), 1);
    for i in 2..6u8 {
        tree.write(k(i), v("b"));
    }
    let merged = tree.service(0);
    assert!(merged.spent.is_some());
    assert!(merged.garbage.is_empty());
    assert_eq!(tree.state().tables.len(), 1);
    let next = tree.service(0);
    assert!(next.idle());
    assert_eq!(next.garbage.len(), 2);
    assert!(tree.service(0).garbage.is_empty());
    for i in 2..6u8 {
        assert_eq!(tree.read(&k(i)), v("b"));
    }
    assert_eq!(tree.read(&k(1)), v("a"));
}

#[test]
fn writes_after_a_torn_log_are_kept() {
    let mut tree = LSMTree::new();
    tree.write(k(1), v("a"));
    let (state, mut logs, tables) = tree.snapshot();
    // half a record at the end of the log, as after a crash during a write
    logs[0].bytes.extend_from_slice(&[0, 0, 0, 0, 0, 0, 0, 18, 1, 2, 3]);
    let mut tree = LSMTree::load(&state, &logs, &tables).unwrap();
    assert_eq!(tree.read(&k(1)), v("a"));
    tree.write(k(2), v("b"));
    let tree = reopen(&tree);
    assert_eq!(tree.read(&k(1)), v("a"));
    assert_eq!(tree.read(&k(2)), v("b"));
}

#[test]
fn load_looks_only_at_named_files() {
    let mut tree = LSMTree::new();
    tree.write(k(1), v("a"));
    assert!(tree.new_buffer(0));
    assert!(tree.merge().is_some());
    tree.write(k(2), v("b"));
    let (state, mut logs, mut tables) = tree.snapshot();
    logs.push(LogFile { id: "stray".to_string(), bytes: vec![1, 2, 3] });
    tables.push(TableFiles { id: "stray".to_string(), offsets: vec![7; 5], strings: Vec::new() });
    let loaded = LSMTree::load(&state, &logs, &tables).unwrap();
    assert_eq!(loaded.state(), state);
    let (_, kept_logs, kept_tables) = loaded.snapshot();
    assert_eq!(kept_logs.len(), 1);
    assert_eq!(kept_tables.len(), 1);
    assert_eq!(loaded.read(&k(1)), v("a"));
    assert_eq!(loaded.read(&k(2)), v("b"));
}
