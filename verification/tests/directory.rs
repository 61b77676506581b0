use locker_db::directory::{drain_dir, file_stem, is_allowed, offsets_file, strings_file, wal_file};
use locker_db::key::{Key, KEY_SIZE};
use locker_db::lsm_tree::LSMTree;
use locker_db::state::State;

fn names(list: &[&str]) -> Vec<String> {
    list.iter().map(|s| s.to_string()).collect()
}

#[test]
fn stem_drops_the_last_extension() {
    assert_eq!(file_stem("abc.wal"), "abc");
    assert_eq!(file_stem("abc"), "abc");
    assert_eq!(file_stem("a.b.c"), "a.b");
    assert_eq!(file_stem(".hidden"), ".hidden");
    assert_eq!(file_stem(".a.b"), ".a");
    assert_eq!(file_stem("abc."), "abc");
    assert_eq!(file_stem(""), "");
    assert_eq!(file_stem("."), ".");
    assert_eq!(file_stem("é.x"), "é");
}

#[test]
fn file_names_carry_the_identifier() {
    let id = Key::Key([0x11; KEY_SIZE]).hex();
    assert_eq!(wal_file(&id), "11111111111111111111111111111111.wal");
    assert_eq!(offsets_file(&id), "11111111111111111111111111111111.offsets");
    assert_eq!(strings_file(&id), "11111111111111111111111111111111.strings");
    assert_eq!(file_stem(&wal_file(&id)), id);
    assert_eq!(file_stem(&offsets_file(&id)), id);
    assert_eq!(file_stem(&strings_file(&id)), id);
}

#[test]
fn is_allowed_looks_for_the_whole_name() {
    let allowed = names(&["aa", "bb"]);
    assert!(is_allowed(&allowed, &"aa".to_string()));
    assert!(is_allowed(&allowed, &"bb".to_string()));
    assert!(!is_allowed(&allowed, &"a".to_string()));
    assert!(!is_allowed(&Vec::new(), &"aa".to_string()));
}

#[test]
fn drain_removes_what_is_not_named() {
    let listed = names(&["aa.offsets", "cc.offsets", "aa.strings", "cc.strings", "junk", "bb.tmp"]);
    assert_eq!(
        drain_dir(&listed, &names(&["aa", "bb"])),
        names(&["cc.offsets", "cc.strings", "junk"])
    );
    assert_eq!(drain_dir(&listed, &Vec::new()), listed);
    assert!(drain_dir(&Vec::new(), &names(&["aa"])).is_empty());
    let root = names(&["state", "tables", "wals", "1f.state", "notes.txt"]);
    assert_eq!(
        drain_dir(&root, &names(&["state", "tables", "wals"])),
        names(&["1f.state", "notes.txt"])
    );
}

#[test]
fn recognized_wals_are_the_builders_and_the_log_in_use() {
    let state = State::new("w".to_string(), names(&["b1", "b2"]), names(&["t"]));
    assert_eq!(state.recognized_wals(), names(&["b1", "b2", "w"]));
    let none = State::new("w".to_string(), Vec::new(), Vec::new());
    assert_eq!(none.recognized_wals(), names(&["w"]));
}

#[test]
fn a_table_written_before_a_crash_is_drained() {
    let mut tree = LSMTree::new();
    tree.write(Key::Key([1; KEY_SIZE]), Some(vec![1]));
    assert!(tree.new_buffer(0));
    let manifest = tree.state();
    assert!(tree.merge().is_some());
    let written = tree.state().tables[0].clone();
    let on_disk = vec![offsets_file(&written), strings_file(&written)];
    assert_eq!(drain_dir(&on_disk, &manifest.tables), on_disk);
    let wals = vec![wal_file(&manifest.wal), wal_file(&manifest.builders[0])];
    assert!(drain_dir(&wals, &manifest.recognized_wals()).is_empty());
    // once the manifest names the table, its files stay
    assert!(drain_dir(&on_disk, &tree.state().tables).is_empty());
}
