use std::cell::{Cell, RefCell};
use std::collections::HashMap;

use ensync::defs::HashId;
use ensync::errors::Error;
use ensync::server::kdf::{KdfAlgorithm, KeyChain, Timestamp};
use ensync::server::keymgmt::{
    after_attempt, del_key, destroy_group, dirid_keys, disassoc_group, do_tx, edit_kdflist,
    list_keys, AddKey, AssocGroup, Attempt, ChangeKey, CreateGroup, DeriveKeyChain, InitTx,
    Storage, Tx, TxStep, TX_ATTEMPTS,
};

// The registry is made and grown with the cheap algorithm throughout: the
// one for real use takes far too long to be run dozens of times. The
// operations on a storage know no other than that one, so each is put
// together here from the edit it makes and the transaction it runs in.

const WEAK: KdfAlgorithm = KdfAlgorithm::Scrypt12_4_1;

enum Op {
    Mkdir(HashId, HashId, Vec<u8>),
    Rmdir(HashId, HashId, u32),
}

/// Directories kept in memory, with transactions that fail on conflict.
struct MemStorage {
    dirs: RefCell<HashMap<HashId, (HashId, Vec<u8>)>>,
    pending: RefCell<Vec<Op>>,
    conflicts_left: Cell<u32>,
    commits: Cell<u32>,
    aborts: Cell<u32>,
}

impl MemStorage {
    fn new() -> Self {
        MemStorage {
            dirs: RefCell::new(HashMap::new()),
            pending: RefCell::new(Vec::new()),
            conflicts_left: Cell::new(0),
            commits: Cell::new(0),
            aborts: Cell::new(0),
        }
    }
}

impl Storage for MemStorage {
    fn start_tx(&self, _tx: Tx) -> Result<(), Error> {
        self.pending.borrow_mut().clear();
        Ok(())
    }

    fn commit(&self, _tx: Tx) -> Result<bool, Error> {
        let ops: Vec<Op> = self.pending.borrow_mut().drain(..).collect();
        if self.conflicts_left.get() > 0 {
            self.conflicts_left.set(self.conflicts_left.get() - 1);
            return Ok(false);
        }
        let mut dirs = self.dirs.borrow().clone();
        for op in ops {
            match op {
                Op::Rmdir(id, ver, len) => match dirs.get(&id) {
                    Some((v, data)) if *v == ver && data.len() as u32 == len => {
                        dirs.remove(&id);
                    }
                    _ => return Ok(false),
                },
                Op::Mkdir(id, ver, data) => {
                    if dirs.contains_key(&id) {
                        return Ok(false);
                    }
                    dirs.insert(id, (ver, data));
                }
            }
        }
        *self.dirs.borrow_mut() = dirs;
        self.commits.set(self.commits.get() + 1);
        Ok(true)
    }

    fn abort(&self, _tx: Tx) -> Result<(), Error> {
        self.pending.borrow_mut().clear();
        self.aborts.set(self.aborts.get() + 1);
        Ok(())
    }

    fn getdir(&self, id: &HashId) -> Result<Option<(HashId, Vec<u8>)>, Error> {
        Ok(self.dirs.borrow().get(id).cloned())
    }

    fn mkdir(&self, _tx: Tx, id: &HashId, ver: &HashId, data: &[u8]) -> Result<(), Error> {
        self.pending.borrow_mut().push(Op::Mkdir(*id, *ver, data.to_vec()));
        Ok(())
    }

    fn rmdir(&self, _tx: Tx, id: &HashId, ver: &HashId, len: u32) -> Result<(), Error> {
        self.pending.borrow_mut().push(Op::Rmdir(*id, *ver, len));
        Ok(())
    }
}

fn init_keys(storage: &MemStorage, passphrase: &[u8], key_name: &str) -> Result<(), Error> {
    do_tx(storage, &InitTx { storage, algorithm: WEAK, passphrase, key_name })
}

fn add_key(storage: &MemStorage, old: &[u8], new: &[u8], name: &str) -> Result<(), Error> {
    let edit =
        AddKey { algorithm: WEAK, old_passphrase: old, new_passphrase: new, new_name: name };
    edit_kdflist(storage, &edit)
}

fn change_key(
    storage: &MemStorage,
    old: &[u8],
    new: &[u8],
    name: Option<&str>,
    allow: bool,
) -> Result<(), Error> {
    let edit = ChangeKey {
        algorithm: WEAK,
        old_passphrase: old,
        new_passphrase: new,
        name,
        allow_change_via_other_passphrase: allow,
    };
    edit_kdflist(storage, &edit)
}

fn derive_key_chain(storage: &MemStorage, passphrase: &[u8]) -> Result<KeyChain, Error> {
    edit_kdflist(storage, &DeriveKeyChain { algorithm: WEAK, passphrase })
}

fn create_group(storage: &MemStorage, passphrase: &[u8], names: &[&str]) -> Result<(), Error> {
    edit_kdflist(storage, &CreateGroup { algorithm: WEAK, passphrase, names })
}

fn assoc_group(
    storage: &MemStorage,
    src: &[u8],
    dst: &[u8],
    names: &[&str],
) -> Result<(), Error> {
    let edit =
        AssocGroup { algorithm: WEAK, src_passphrase: src, dst_passphrase: dst, names };
    edit_kdflist(storage, &edit)
}

fn keys(chain: &KeyChain) -> Vec<(String, Vec<u8>)> {
    let mut v: Vec<(String, Vec<u8>)> = chain
        .names
        .iter()
        .cloned()
        .zip(chain.keys.iter().map(|k| k.hmac_secret().to_vec()))
        .collect();
    v.sort();
    v
}

#[test]
fn empty() {
    let storage = MemStorage::new();
    assert!(matches!(
        ensync::server::keymgmt::add_key(&storage, b"a", b"b", "name"),
        Err(Error::KdfListNotExists)
    ));
    assert!(matches!(
        ensync::server::keymgmt::change_key(&storage, b"a", b"b", None, false),
        Err(Error::KdfListNotExists)
    ));
    assert!(matches!(del_key(&storage, "name"), Err(Error::KdfListNotExists)));
    assert!(list_keys(&storage).unwrap().is_empty());
}

#[test]
fn init_keys_adds_one_key_but_fails_if_already_init() {
    let storage = MemStorage::new();

    init_keys(&storage, b"hunter2", "name").unwrap();
    assert!(matches!(
        ensync::server::keymgmt::init_keys(&storage, b"hunter3", "name"),
        Err(Error::KdfListAlreadyExists)
    ));
    derive_key_chain(&storage, b"hunter2").unwrap();
    assert!(matches!(derive_key_chain(&storage, b"hunter3"), Err(Error::PassphraseNotInKdfList)));
}

#[test]
fn add_key_creates_new_key() {
    let storage = MemStorage::new();

    init_keys(&storage, b"hunter2", "original").unwrap();
    add_key(&storage, b"hunter2", b"hunter3", "new").unwrap();

    let mk = derive_key_chain(&storage, b"hunter2").unwrap();
    let mk2 = derive_key_chain(&storage, b"hunter3").unwrap();
    assert_eq!(keys(&mk), keys(&mk2));
    assert_eq!(2, list_keys(&storage).unwrap().len());
}

#[test]
fn add_key_wont_overwrite_existing_key() {
    let storage = MemStorage::new();

    init_keys(&storage, b"hunter2", "original").unwrap();
    assert!(matches!(
        add_key(&storage, b"hunter2", b"hunter3", "original"),
        Err(Error::KeyNameAlreadyInUse(_))
    ));
}

#[test]
fn add_key_bad_old_pw() {
    let storage = MemStorage::new();

    init_keys(&storage, b"hunter2", "original").unwrap();
    assert!(matches!(
        add_key(&storage, b"plugh", b"xyzzy", "new"),
        Err(Error::PassphraseNotInKdfList)
    ));
}

#[test]
fn change_key_doesnt_need_key_name_if_only_one_key() {
    let storage = MemStorage::new();

    init_keys(&storage, b"hunter2", "original").unwrap();
    let mk = derive_key_chain(&storage, b"hunter2").unwrap();

    change_key(&storage, b"hunter2", b"hunter3", None, false).unwrap();
    let mk2 = derive_key_chain(&storage, b"hunter3").unwrap();
    assert_eq!(keys(&mk), keys(&mk2));

    assert!(matches!(derive_key_chain(&storage, b"hunter2"), Err(Error::PassphraseNotInKdfList)));
}

#[test]
fn change_key_fails_if_no_name_but_multiple_keys() {
    let storage = MemStorage::new();

    init_keys(&storage, b"hunter2", "original").unwrap();
    add_key(&storage, b"hunter2", b"hunter3", "new").unwrap();
    assert!(matches!(
        change_key(&storage, b"hunter3", b"hunter4", None, false),
        Err(Error::AnonChangeKeyButMultipleKdfEntries)
    ));
}

#[test]
fn change_key_by_name() {
    let storage = MemStorage::new();

    init_keys(&storage, b"hunter2", "original").unwrap();
    add_key(&storage, b"hunter2", b"hunter3", "new").unwrap();

    change_key(&storage, b"hunter2", b"hunter22", Some("original"), false).unwrap();
    assert!(matches!(derive_key_chain(&storage, b"hunter2"), Err(Error::PassphraseNotInKdfList)));
    derive_key_chain(&storage, b"hunter22").unwrap();
    derive_key_chain(&storage, b"hunter3").unwrap();

    change_key(&storage, b"hunter3", b"hunter33", Some("new"), false).unwrap();
    assert!(matches!(derive_key_chain(&storage, b"hunter3"), Err(Error::PassphraseNotInKdfList)));
    derive_key_chain(&storage, b"hunter22").unwrap();
    derive_key_chain(&storage, b"hunter33").unwrap();
}

#[test]
fn change_key_by_name_nx() {
    let storage = MemStorage::new();

    init_keys(&storage, b"hunter2", "original").unwrap();
    assert!(matches!(
        change_key(&storage, b"hunter2", b"hunter3", Some("new"), false),
        Err(Error::KeyNotInKdfList(_))
    ));
}

#[test]
fn change_key_by_default_requires_corresponding_pw_and_name() {
    let storage = MemStorage::new();

    init_keys(&storage, b"hunter2", "original").unwrap();
    add_key(&storage, b"hunter2", b"hunter3", "new").unwrap();

    assert!(matches!(
        change_key(&storage, b"hunter2", b"hunter33", Some("new"), false),
        Err(Error::ChangeKeyWithPassphraseMismatch)
    ));
}

#[test]
fn change_key_allows_forcing_pw_name_mismatch() {
    let storage = MemStorage::new();

    init_keys(&storage, b"hunter2", "original").unwrap();
    add_key(&storage, b"hunter2", b"hunter3", "new").unwrap();

    change_key(&storage, b"hunter2", b"hunter33", Some("new"), true).unwrap();

    let mk = derive_key_chain(&storage, b"hunter2").unwrap();
    let mk2 = derive_key_chain(&storage, b"hunter33").unwrap();
    assert_eq!(keys(&mk), keys(&mk2));
    assert!(matches!(derive_key_chain(&storage, b"hunter3"), Err(Error::PassphraseNotInKdfList)));
}

#[test]
fn change_key_bad_old_pw() {
    let storage = MemStorage::new();

    init_keys(&storage, b"hunter2", "original").unwrap();

    assert!(matches!(
        change_key(&storage, b"plugh", b"xyzzy", None, false),
        Err(Error::PassphraseNotInKdfList)
    ));
}

#[test]
fn change_key_other_doesnt_add_groups() {
    let storage = MemStorage::new();

    init_keys(&storage, b"hunter2", "original").unwrap();
    add_key(&storage, b"hunter2", b"hunter3", "new").unwrap();
    create_group(&storage, b"hunter2", &["group"]).unwrap();

    change_key(&storage, b"hunter2", b"hunter33", Some("new"), true).unwrap();

    let mk2 = derive_key_chain(&storage, b"hunter33").unwrap();
    assert_eq!(2, mk2.len());
}

#[test]
fn change_key_other_fails_if_insufficient_groups() {
    let storage = MemStorage::new();

    init_keys(&storage, b"hunter2", "original").unwrap();
    add_key(&storage, b"hunter2", b"hunter3", "new").unwrap();
    create_group(&storage, b"hunter3", &["group"]).unwrap();

    assert!(matches!(
        change_key(&storage, b"hunter2", b"hunter33", Some("new"), true),
        Err(Error::KeyNotInGroup(..))
    ));
}

#[test]
fn del_key_wont_delete_last_key() {
    let storage = MemStorage::new();

    init_keys(&storage, b"hunter2", "original").unwrap();
    assert!(matches!(del_key(&storage, "original"), Err(Error::WouldRemoveLastKdfEntry)));
}

#[test]
fn del_key_wont_delete_last_key_in_group() {
    let storage = MemStorage::new();

    init_keys(&storage, b"hunter2", "original").unwrap();
    add_key(&storage, b"hunter2", b"hunter3", "new").unwrap();
    create_group(&storage, b"hunter3", &["group"]).unwrap();
    assert!(matches!(del_key(&storage, "new"), Err(Error::WouldDisassocLastKeyFromGroup(..))));
}

#[test]
fn del_key_name_nx() {
    let storage = MemStorage::new();

    init_keys(&storage, b"hunter2", "original").unwrap();
    assert!(matches!(del_key(&storage, "plugh"), Err(Error::KeyNotInKdfList(_))));
}

#[test]
fn del_key_removes_named_key() {
    let storage = MemStorage::new();

    init_keys(&storage, b"hunter2", "original").unwrap();
    add_key(&storage, b"hunter2", b"hunter3", "new").unwrap();

    let mk = derive_key_chain(&storage, b"hunter2").unwrap();

    del_key(&storage, "original").unwrap();

    let mk2 = derive_key_chain(&storage, b"hunter3").unwrap();
    assert_eq!(keys(&mk), keys(&mk2));

    assert!(matches!(derive_key_chain(&storage, b"hunter2"), Err(Error::PassphraseNotInKdfList)));
}

#[test]
fn kdf_timestamps_updated() {
    let storage = MemStorage::new();

    init_keys(&storage, b"hunter2", "original").unwrap();
    let list = list_keys(&storage).unwrap();
    assert_eq!(1, list.len());
    assert!(list[0].updated.is_none());
    assert!(list[0].used.is_none());

    change_key(&storage, b"hunter2", b"hunter3", None, false).unwrap();
    let list = list_keys(&storage).unwrap();
    assert_eq!(1, list.len());
    assert!(list[0].updated.is_some());
    assert!(list[0].used.is_none());

    derive_key_chain(&storage, b"hunter3").unwrap();
    let list = list_keys(&storage).unwrap();
    assert_eq!(1, list.len());
    assert!(list[0].updated.is_some());
    assert!(list[0].used.is_some());
}

#[test]
fn create_group_already_exists() {
    let storage = MemStorage::new();

    init_keys(&storage, b"hunter2", "original").unwrap();
    assert!(matches!(
        create_group(&storage, b"hunter2", &["root"]),
        Err(Error::GroupNameAlreadyInUse(_))
    ));
}

#[test]
fn create_group_success() {
    let storage = MemStorage::new();

    init_keys(&storage, b"hunter2", "original").unwrap();
    create_group(&storage, b"hunter2", &["users", "private"]).unwrap();

    let mk = derive_key_chain(&storage, b"hunter2").unwrap();
    assert_eq!(4, mk.len());
    assert!(mk.contains_key("root"));
    assert!(mk.contains_key("everyone"));
    assert!(mk.contains_key("users"));
    assert!(mk.contains_key("private"));
}

#[test]
fn assoc_group_nx_group() {
    let storage = MemStorage::new();

    init_keys(&storage, b"hunter2", "original").unwrap();
    add_key(&storage, b"hunter2", b"hunter3", "second").unwrap();
    assert!(matches!(
        assoc_group(&storage, b"hunter2", b"hunter3", &["group"]),
        Err(Error::KeyNotInGroup(..))
    ));
}

#[test]
fn assoc_group_success() {
    let storage = MemStorage::new();

    init_keys(&storage, b"hunter2", "original").unwrap();
    add_key(&storage, b"hunter2", b"hunter3", "second").unwrap();
    create_group(&storage, b"hunter2", &["users", "shared", "private"]).unwrap();
    assoc_group(&storage, b"hunter2", b"hunter3", &["users", "shared"]).unwrap();

    let mk = derive_key_chain(&storage, b"hunter2").unwrap();
    let mk2 = derive_key_chain(&storage, b"hunter3").unwrap();
    assert_eq!(5, mk.len());
    assert_eq!(4, mk2.len());
    assert!(mk.key("root").unwrap() == mk2.key("root").unwrap());
    assert!(mk.key("everyone").unwrap() == mk2.key("everyone").unwrap());
    assert!(mk.key("users").unwrap() == mk2.key("users").unwrap());
    assert!(mk.key("shared").unwrap() == mk2.key("shared").unwrap());
}

#[test]
fn disassoc_group_refuses_everyone() {
    let storage = MemStorage::new();

    init_keys(&storage, b"hunter2", "original").unwrap();
    assert!(matches!(
        disassoc_group(&storage, "original", &["everyone"]),
        Err(Error::CannotDisassocGroup(_))
    ));
}

#[test]
fn disassoc_group_refuses_last_key() {
    let storage = MemStorage::new();

    init_keys(&storage, b"hunter2", "original").unwrap();
    add_key(&storage, b"hunter2", b"hunter3", "second").unwrap();
    create_group(&storage, b"hunter2", &["group"]).unwrap();
    assert!(matches!(
        disassoc_group(&storage, "original", &["group"]),
        Err(Error::WouldDisassocLastKeyFromGroup(..))
    ));
}

#[test]
fn disassoc_group_nx_group() {
    let storage = MemStorage::new();

    init_keys(&storage, b"hunter2", "original").unwrap();
    assert!(matches!(
        disassoc_group(&storage, "original", &["group"]),
        Err(Error::KeyNotInGroup(..))
    ));
}

#[test]
fn disassoc_group_nx_key() {
    let storage = MemStorage::new();

    init_keys(&storage, b"hunter2", "original").unwrap();
    assert!(matches!(
        disassoc_group(&storage, "plugh", &["root"]),
        Err(Error::KeyNotInKdfList(..))
    ));
}

#[test]
fn disassoc_group_success() {
    let storage = MemStorage::new();

    init_keys(&storage, b"hunter2", "original").unwrap();
    add_key(&storage, b"hunter2", b"hunter3", "second").unwrap();
    create_group(&storage, b"hunter2", &["group"]).unwrap();
    assoc_group(&storage, b"hunter2", b"hunter3", &["group"]).unwrap();
    disassoc_group(&storage, "original", &["group", "root"]).unwrap();

    let mk = derive_key_chain(&storage, b"hunter2").unwrap();
    let mk2 = derive_key_chain(&storage, b"hunter3").unwrap();
    assert_eq!(1, mk.len());
    assert!(mk2.key("everyone").unwrap() == mk.key("everyone").unwrap());
}

#[test]
fn destroy_group_refuses_builtins() {
    let storage = MemStorage::new();

    init_keys(&storage, b"hunter2", "original").unwrap();
    assert!(matches!(destroy_group(&storage, &["everyone"]), Err(Error::CannotDestroyGroup(..))));
    assert!(matches!(destroy_group(&storage, &["root"]), Err(Error::CannotDestroyGroup(..))));
}

#[test]
fn destroy_group_nx() {
    let storage = MemStorage::new();

    init_keys(&storage, b"hunter2", "original").unwrap();
    assert!(matches!(destroy_group(&storage, &["plugh"]), Err(Error::GroupNotInKdfList(..))));
}

#[test]
fn destroy_group_success() {
    let storage = MemStorage::new();

    init_keys(&storage, b"hunter2", "original").unwrap();
    create_group(&storage, b"hunter2", &["group"]).unwrap();
    add_key(&storage, b"hunter2", b"hunter3", "second").unwrap();
    destroy_group(&storage, &["group"]).unwrap();

    let mk = derive_key_chain(&storage, b"hunter2").unwrap();
    let mk2 = derive_key_chain(&storage, b"hunter3").unwrap();
    assert_eq!(2, mk.len());
    assert_eq!(2, mk2.len());
    assert!(mk2.key("everyone").unwrap() == mk.key("everyone").unwrap());
    assert!(mk2.key("root").unwrap() == mk.key("root").unwrap());
}

#[test]
fn del_key_on_two_entries_where_only_one_carries_a_group() {
    let storage = MemStorage::new();

    init_keys(&storage, b"hunter2", "original").unwrap();
    add_key(&storage, b"hunter2", b"hunter3", "new").unwrap();
    create_group(&storage, b"hunter2", &["g"]).unwrap();
    match del_key(&storage, "original") {
        Err(Error::WouldDisassocLastKeyFromGroup(key, group)) => {
            assert_eq!("original", key);
            assert_eq!("g", group);
        }
        _ => panic!("expected WouldDisassocLastKeyFromGroup"),
    }
    assert_eq!(2, list_keys(&storage).unwrap().len());
}

#[test]
fn change_key_with_mismatch_fails_unless_overridden() {
    let storage = MemStorage::new();

    init_keys(&storage, b"hunter2", "new").unwrap();
    add_key(&storage, b"hunter2", b"hunter3", "original").unwrap();
    assert!(matches!(
        change_key(&storage, b"hunter2", b"hunter22", Some("original"), false),
        Err(Error::ChangeKeyWithPassphraseMismatch)
    ));
    change_key(&storage, b"hunter2", b"hunter22", Some("original"), true).unwrap();
    derive_key_chain(&storage, b"hunter22").unwrap();
}

#[test]
fn list_keys_shows_names_algorithm_and_groups() {
    let storage = MemStorage::new();

    init_keys(&storage, b"hunter2", "original").unwrap();
    create_group(&storage, b"hunter2", &["users"]).unwrap();
    let list = list_keys(&storage).unwrap();
    assert_eq!(1, list.len());
    assert_eq!("original", list[0].name);
    assert_eq!("scrypt-12-4-1", list[0].algorithm);
    assert_eq!(vec!["everyone", "root", "users"], list[0].groups);
}

#[test]
fn a_failed_edit_leaves_the_registry_as_it_was() {
    let storage = MemStorage::new();

    init_keys(&storage, b"hunter2", "original").unwrap();
    let before = storage.getdir(&dirid_keys()).unwrap().unwrap();
    assert!(del_key(&storage, "original").is_err());
    assert!(disassoc_group(&storage, "original", &["root"]).is_err());
    assert!(destroy_group(&storage, &["nothing"]).is_err());
    assert!(add_key(&storage, b"wrong", b"x", "y").is_err());
    assert_eq!(before, storage.getdir(&dirid_keys()).unwrap().unwrap());
    assert_eq!(4, storage.aborts.get());
}

#[test]
fn every_edit_replaces_the_version() {
    let storage = MemStorage::new();

    init_keys(&storage, b"hunter2", "original").unwrap();
    let (v1, _) = storage.getdir(&dirid_keys()).unwrap().unwrap();
    derive_key_chain(&storage, b"hunter2").unwrap();
    let (v2, _) = storage.getdir(&dirid_keys()).unwrap().unwrap();
    assert_ne!(v1, v2);
    assert_eq!([0u8; 32], dirid_keys());
}

#[test]
fn conflicts_are_tried_again() {
    let storage = MemStorage::new();

    init_keys(&storage, b"hunter2", "original").unwrap();
    storage.conflicts_left.set(3);
    create_group(&storage, b"hunter2", &["users"]).unwrap();
    assert_eq!(0, storage.conflicts_left.get());
    assert_eq!(2, storage.commits.get());
    assert_eq!(3, derive_key_chain(&storage, b"hunter2").unwrap().len());
}

#[test]
fn too_many_conflicts_give_up() {
    let storage = MemStorage::new();

    init_keys(&storage, b"hunter2", "original").unwrap();
    storage.conflicts_left.set(16);
    assert!(matches!(del_key(&storage, "original"), Err(Error::WouldRemoveLastKdfEntry)));
    assert_eq!(16, storage.conflicts_left.get());
    let storage = MemStorage::new();
    storage.conflicts_left.set(16);
    assert!(matches!(
        init_keys(&storage, b"hunter2", "original"),
        Err(Error::TooManyTxRetries)
    ));
    assert_eq!(0, storage.conflicts_left.get());
    assert!(list_keys(&storage).unwrap().is_empty());
    storage.conflicts_left.set(15);
    init_keys(&storage, b"hunter2", "original").unwrap();
}

#[test]
fn disassoc_and_destroy_of_builtins_do_not_touch_the_storage() {
    struct Untouchable;
    impl Storage for Untouchable {
        fn start_tx(&self, _: Tx) -> Result<(), Error> {
            panic!("touched")
        }
        fn commit(&self, _: Tx) -> Result<bool, Error> {
            panic!("touched")
        }
        fn abort(&self, _: Tx) -> Result<(), Error> {
            panic!("touched")
        }
        fn getdir(&self, _: &HashId) -> Result<Option<(HashId, Vec<u8>)>, Error> {
            panic!("touched")
        }
        fn mkdir(&self, _: Tx, _: &HashId, _: &HashId, _: &[u8]) -> Result<(), Error> {
            panic!("touched")
        }
        fn rmdir(&self, _: Tx, _: &HashId, _: &HashId, _: u32) -> Result<(), Error> {
            panic!("touched")
        }
    }
    match disassoc_group(&Untouchable, "k", &["a", "everyone"]) {
        Err(Error::CannotDisassocGroup(name)) => assert_eq!("everyone", name),
        _ => panic!("expected CannotDisassocGroup"),
    }
    match destroy_group(&Untouchable, &["a", "root", "everyone"]) {
        Err(Error::CannotDestroyGroup(name)) => assert_eq!("root", name),
        _ => panic!("expected CannotDestroyGroup"),
    }
}

#[test]
fn storage_errors_are_passed_on() {
    struct Broken;
    impl Storage for Broken {
        fn start_tx(&self, _: Tx) -> Result<(), Error> {
            Ok(())
        }
        fn commit(&self, _: Tx) -> Result<bool, Error> {
            Ok(true)
        }
        fn abort(&self, _: Tx) -> Result<(), Error> {
            Ok(())
        }
        fn getdir(&self, _: &HashId) -> Result<Option<(HashId, Vec<u8>)>, Error> {
            Err(Error::Io("disk on fire".to_owned()))
        }
        fn mkdir(&self, _: Tx, _: &HashId, _: &HashId, _: &[u8]) -> Result<(), Error> {
            Ok(())
        }
        fn rmdir(&self, _: Tx, _: &HashId, _: &HashId, _: u32) -> Result<(), Error> {
            Ok(())
        }
    }
    match list_keys(&Broken) {
        Err(Error::Io(msg)) => assert_eq!("disk on fire", msg),
        _ => panic!("expected Io"),
    }
    assert!(matches!(del_key(&Broken, "x"), Err(Error::Io(_))));
}

#[test]
fn malformed_registry_is_reported() {
    let storage = MemStorage::new();
    storage.dirs.borrow_mut().insert(dirid_keys(), ([1u8; 32], vec![0xC1, 0x81]));
    assert!(matches!(list_keys(&storage), Err(Error::Serialization)));
    assert!(matches!(derive_key_chain(&storage, b"x"), Err(Error::Serialization)));
}

#[test]
fn what_follows_an_attempt() {
    assert!(matches!(after_attempt(0, Attempt::Committed(7)), TxStep::Finish(Ok(7))));
    assert!(matches!(after_attempt(15, Attempt::Committed(7)), TxStep::Finish(Ok(7))));
    assert!(matches!(after_attempt::<u8>(0, Attempt::Conflict), TxStep::TryAgain));
    assert!(matches!(after_attempt::<u8>(14, Attempt::Conflict), TxStep::TryAgain));
    assert!(matches!(
        after_attempt::<u8>(15, Attempt::Conflict),
        TxStep::Finish(Err(Error::TooManyTxRetries))
    ));
    assert!(matches!(
        after_attempt::<u8>(usize::MAX, Attempt::Conflict),
        TxStep::Finish(Err(Error::TooManyTxRetries))
    ));
    assert!(matches!(
        after_attempt::<u8>(0, Attempt::BodyFailed(Error::InvalidHmac)),
        TxStep::AbortWith(Error::InvalidHmac)
    ));
    assert!(matches!(
        after_attempt::<u8>(3, Attempt::NotBegun(Error::Serialization)),
        TxStep::Finish(Err(Error::Serialization))
    ));
    assert!(matches!(
        after_attempt::<u8>(3, Attempt::CommitFailed(Error::Serialization)),
        TxStep::Finish(Err(Error::Serialization))
    ));
    assert_eq!(16, TX_ATTEMPTS);
}

#[test]
fn a_transaction_that_fails_within_is_abandoned_and_one_that_cannot_begin_is_not() {
    struct Locked(Cell<u32>);
    impl Storage for Locked {
        fn start_tx(&self, _: Tx) -> Result<(), Error> {
            Err(Error::Io("locked".to_owned()))
        }
        fn commit(&self, _: Tx) -> Result<bool, Error> {
            panic!("commit")
        }
        fn abort(&self, _: Tx) -> Result<(), Error> {
            self.0.set(self.0.get() + 1);
            Ok(())
        }
        fn getdir(&self, _: &HashId) -> Result<Option<(HashId, Vec<u8>)>, Error> {
            panic!("getdir")
        }
        fn mkdir(&self, _: Tx, _: &HashId, _: &HashId, _: &[u8]) -> Result<(), Error> {
            panic!("mkdir")
        }
        fn rmdir(&self, _: Tx, _: &HashId, _: &HashId, _: u32) -> Result<(), Error> {
            panic!("rmdir")
        }
    }
    let locked = Locked(Cell::new(0));
    assert!(matches!(del_key(&locked, "x"), Err(Error::Io(_))));
    assert_eq!(0, locked.0.get());

    let storage = MemStorage::new();
    assert!(matches!(del_key(&storage, "x"), Err(Error::KdfListNotExists)));
    assert_eq!(1, storage.aborts.get());
    assert_eq!(0, storage.commits.get());
}

#[test]
fn what_initialising_writes() {
    let storage = MemStorage::new();
    init_keys(&storage, b"hunter2", "original").unwrap();
    assert_eq!(1, storage.commits.get());
    let dirs = storage.dirs.borrow();
    assert_eq!(1, dirs.len());
    let (_, data) = dirs.get(&dirid_keys()).unwrap();
    let list = ensync::server::wire::from_slice(data).unwrap();
    assert_eq!(vec!["original"], list.names);
    assert_eq!(1, list.entries.len());
    let entry = &list.entries[0];
    assert_eq!(WEAK.name(), entry.algorithm);
    assert_eq!(None, entry.updated);
    assert_eq!(None, entry.used);
    assert_eq!(vec!["everyone", "root"], entry.group_names);
    let chain =
        ensync::server::kdf::try_derive_key_single_with(WEAK, b"hunter2", entry).unwrap();
    assert_eq!(vec!["everyone", "root"], chain.names);
    assert!(ensync::server::kdf::try_derive_key_single_with(WEAK, b"hunter3", entry).is_none());
}

#[test]
fn without_an_algorithm_of_choice_only_entries_for_real_use_are_opened() {
    let storage = MemStorage::new();
    init_keys(&storage, b"hunter2", "original").unwrap();
    let before = storage.dirs.borrow().clone();
    assert!(matches!(
        ensync::server::keymgmt::derive_key_chain(&storage, b"hunter2"),
        Err(Error::PassphraseNotInKdfList)
    ));
    assert!(matches!(
        ensync::server::keymgmt::add_key(&storage, b"hunter2", b"hunter3", "new"),
        Err(Error::PassphraseNotInKdfList)
    ));
    assert!(matches!(
        ensync::server::keymgmt::change_key(&storage, b"hunter2", b"hunter3", None, false),
        Err(Error::PassphraseNotInKdfList)
    ));
    assert!(matches!(
        ensync::server::keymgmt::create_group(&storage, b"hunter2", &["users"]),
        Err(Error::PassphraseNotInKdfList)
    ));
    assert!(matches!(
        ensync::server::keymgmt::assoc_group(&storage, b"hunter2", b"hunter2", &["root"]),
        Err(Error::PassphraseNotInKdfList)
    ));
    assert!(matches!(
        ensync::server::keymgmt::init_keys(&storage, b"hunter2", "original"),
        Err(Error::KdfListAlreadyExists)
    ));
    assert!(before == *storage.dirs.borrow());
    derive_key_chain(&storage, b"hunter2").unwrap();
}

#[test]
fn without_a_registry_nothing_but_initialising_works() {
    let storage = MemStorage::new();
    assert!(matches!(
        ensync::server::keymgmt::derive_key_chain(&storage, b"hunter2"),
        Err(Error::KdfListNotExists)
    ));
    assert!(matches!(
        ensync::server::keymgmt::add_key(&storage, b"hunter2", b"hunter3", "new"),
        Err(Error::KdfListNotExists)
    ));
    assert!(matches!(
        ensync::server::keymgmt::change_key(&storage, b"hunter2", b"hunter3", None, false),
        Err(Error::KdfListNotExists)
    ));
    assert!(matches!(
        ensync::server::keymgmt::create_group(&storage, b"hunter2", &["users"]),
        Err(Error::KdfListNotExists)
    ));
    assert!(matches!(
        ensync::server::keymgmt::assoc_group(&storage, b"hunter2", b"hunter2", &["root"]),
        Err(Error::KdfListNotExists)
    ));
    assert!(storage.dirs.borrow().is_empty());
}

fn stored(storage: &MemStorage) -> Vec<u8> {
    storage.dirs.borrow().get(&dirid_keys()).unwrap().1.clone()
}

#[test]
fn what_every_operation_writes_is_read_back_as_written() {
    let storage = MemStorage::new();
    let read_back = |storage: &MemStorage| {
        let data = stored(storage);
        let list = ensync::server::wire::from_slice(&data).unwrap();
        assert_eq!(data, ensync::server::wire::to_vec(&list));
        list
    };
    init_keys(&storage, b"hunter2", "original").unwrap();
    assert_eq!(1, read_back(&storage).names.len());
    add_key(&storage, b"hunter2", b"hunter3", "new").unwrap();
    assert_eq!(vec!["original", "new"], read_back(&storage).names);
    change_key(&storage, b"hunter3", b"hunter33", Some("new"), false).unwrap();
    assert!(read_back(&storage).entries[1].updated.is_some());
    derive_key_chain(&storage, b"hunter33").unwrap();
    assert!(read_back(&storage).entries[1].used.is_some());
    create_group(&storage, b"hunter2", &["users", "private"]).unwrap();
    assert_eq!(4, read_back(&storage).entries[0].group_names.len());
    assoc_group(&storage, b"hunter2", b"hunter33", &["users"]).unwrap();
    assert_eq!(3, read_back(&storage).entries[1].group_names.len());
    disassoc_group(&storage, "new", &["users"]).unwrap();
    assert_eq!(2, read_back(&storage).entries[1].group_names.len());
    destroy_group(&storage, &["private"]).unwrap();
    assert_eq!(3, read_back(&storage).entries[0].group_names.len());
    del_key(&storage, "new").unwrap();
    assert_eq!(vec!["original"], read_back(&storage).names);
    for entry in &read_back(&storage).entries {
        assert!(Timestamp::is_point_in_time(entry.created.secs, entry.created.nanos));
    }
}
