use ensync::errors::Error;
use ensync::server::crypt::MasterKey;
use ensync::server::edits::{edit_add_key, new_kdflist};
use ensync::server::kdf::{KdfAlgorithm, KdfList, KeyChain, Timestamp};
use ensync::server::keymgmt::{
    commit_outcome, edit_registry, init_registry, key_infos, key_infos_of_loaded,
    registry_of_dir, Attempt, DelKey, DeriveKeyChain,
};
use ensync::server::wire::to_vec;

const WEAK: KdfAlgorithm = KdfAlgorithm::Scrypt12_4_1;
const T0: Timestamp = Timestamp { secs: 1_000, nanos: 1 };
const T1: Timestamp = Timestamp { secs: 2_000, nanos: 2 };

fn key_chain() -> KeyChain {
    let mut chain = KeyChain::empty();
    chain.insert("everyone", MasterKey::from_bytes([0xE0; 32]));
    chain.insert("root", MasterKey::from_bytes([0x20; 32]));
    chain
}

fn registry() -> KdfList {
    let mut list = new_kdflist(WEAK, &[1u8; 32], &key_chain(), b"hunter2", "first", T0);
    edit_add_key(&mut list, WEAK, &[2u8; 32], b"hunter2", b"hunter3", "second", T1).unwrap();
    list
}

#[test]
fn how_a_commit_ends_an_attempt() {
    assert!(matches!(commit_outcome(7, Ok(true)), Attempt::Committed(7)));
    assert!(matches!(commit_outcome(7, Ok(false)), Attempt::Conflict));
    assert!(matches!(
        commit_outcome(7, Err(Error::Io("gone".to_owned()))),
        Attempt::CommitFailed(Error::Io(_))
    ));
}

#[test]
fn the_registry_that_a_directory_holds() {
    assert!(matches!(registry_of_dir(None), Ok(None)));

    let list = registry();
    let data = to_vec(&list);
    let len = data.len() as u32;
    let (read, ver, read_len) = registry_of_dir(Some(([9u8; 32], data))).unwrap().unwrap();
    assert_eq!(list, read);
    assert_eq!([9u8; 32], ver);
    assert_eq!(len, read_len);

    let mut longer = to_vec(&list);
    longer.extend_from_slice(b"more");
    let (read, _, read_len) = registry_of_dir(Some(([9u8; 32], longer))).unwrap().unwrap();
    assert_eq!(list, read);
    assert_eq!(len + 4, read_len);

    assert!(matches!(registry_of_dir(Some(([9u8; 32], vec![]))), Err(Error::Serialization)));
    assert!(matches!(
        registry_of_dir(Some(([9u8; 32], vec![0xC1, 0x81]))),
        Err(Error::Serialization)
    ));
}

#[test]
fn an_edit_of_what_was_read() {
    let edit = DelKey { name: "first" };
    assert!(matches!(edit_registry(&edit, None), Err(Error::KdfListNotExists)));

    let (made, (), ver, len) =
        edit_registry(&edit, Some((registry(), [5u8; 32], 321))).unwrap();
    assert_eq!(vec!["second"], made.names);
    assert_eq!(registry().entries[1], made.entries[0]);
    assert_eq!([5u8; 32], ver);
    assert_eq!(321, len);

    let edit = DelKey { name: "third" };
    match edit_registry(&edit, Some((registry(), [5u8; 32], 321))) {
        Err(Error::KeyNotInKdfList(name)) => assert_eq!("third", name),
        _ => panic!("expected KeyNotInKdfList"),
    }

    let edit = DeriveKeyChain { algorithm: WEAK, passphrase: b"hunter3" };
    let (made, chain, _, _) = edit_registry(&edit, Some((registry(), [5u8; 32], 321))).unwrap();
    assert!(chain == key_chain());
    assert!(made.entries[1].used.is_some());
    assert_eq!(registry().entries[0], made.entries[0]);
}

#[test]
fn the_registry_to_initialise_with() {
    let chain = key_chain();
    let made = init_registry(WEAK, &[1u8; 32], &chain, b"hunter2", "first", T0, &None).unwrap();
    assert_eq!(new_kdflist(WEAK, &[1u8; 32], &chain, b"hunter2", "first", T0), made);
    assert_eq!(vec!["first"], made.names);

    let there = Some((registry(), [5u8; 32], 321));
    assert!(matches!(
        init_registry(WEAK, &[1u8; 32], &chain, b"hunter2", "first", T0, &there),
        Err(Error::KdfListAlreadyExists)
    ));
    assert!(matches!(
        init_registry(WEAK, &[1u8; 32], &chain, b"x", "y", T0, &Some((KdfList::new(), [0; 32], 1))),
        Err(Error::KdfListAlreadyExists)
    ));
}

#[test]
fn what_is_shown_of_what_was_read() {
    assert!(key_infos_of_loaded(&None).is_empty());
    let shown = key_infos_of_loaded(&Some((registry(), [5u8; 32], 321)));
    let expected = key_infos(&registry());
    assert_eq!(2, shown.len());
    for (a, b) in shown.iter().zip(expected.iter()) {
        assert_eq!(a.name, b.name);
        assert_eq!(a.algorithm, b.algorithm);
        assert_eq!(a.created, b.created);
        assert_eq!(a.updated, b.updated);
        assert_eq!(a.used, b.used);
        assert_eq!(a.groups, b.groups);
    }
    assert_eq!("second", shown[1].name);
}

#[test]
fn descriptions_of_failures() {
    assert_eq!("I/O error", Error::Io("disk on fire".to_owned()).description());
    assert_eq!("HMAC does not match content", Error::InvalidHmac.description());
    assert_eq!("Key store not initialised", Error::KdfListNotExists.description());
    assert_eq!("Key store already initialised", Error::KdfListAlreadyExists.description());
    assert_eq!(
        "Passphrase not found in key store",
        Error::PassphraseNotInKdfList.description()
    );
    assert_eq!("Key not found in key store", Error::KeyNotInKdfList("a".to_owned()).description());
    assert_eq!("Key name already in use", Error::KeyNameAlreadyInUse("a".to_owned()).description());
    assert_eq!(
        "Group not found in key store",
        Error::GroupNotInKdfList("a".to_owned()).description()
    );
    assert_eq!(
        "Group name already in use",
        Error::GroupNameAlreadyInUse("a".to_owned()).description()
    );
    assert_eq!("Key already in group", Error::KeyAlreadyInGroup("a".to_owned()).description());
    assert_eq!("Key not in group", Error::KeyNotInGroup("a".to_owned()).description());
    assert_eq!(
        "Cannot disassociate group",
        Error::CannotDisassocGroup("a".to_owned()).description()
    );
    assert_eq!("Cannot destroy group", Error::CannotDestroyGroup("a".to_owned()).description());
    assert_eq!(
        "Cannot remove last key from key store",
        Error::WouldRemoveLastKdfEntry.description()
    );
    assert_eq!(
        "Cannot disassociate last key from group",
        Error::WouldDisassocLastKeyFromGroup("a".to_owned(), "b".to_owned()).description()
    );
    assert_eq!(
        "Key name required when the key store holds more than one key",
        Error::AnonChangeKeyButMultipleKdfEntries.description()
    );
    assert_eq!(
        "Old passphrase is correct, but belongs to another key",
        Error::ChangeKeyWithPassphraseMismatch.description()
    );
    assert_eq!("Too many failed transaction attempts", Error::TooManyTxRetries.description());
    assert_eq!("Malformed key store", Error::Serialization.description());
}
