use ensync::defs::sha3;
use ensync::server::crypt::{hixor, rand_hashid, MasterKey};
use ensync::server::kdf::{
    create_key_with, reassoc_keys, try_derive_key_single_with, try_derive_key_with, KdfAlgorithm,
    KdfEntry, KdfList, KeyChain, Timestamp, GROUP_EVERYONE, GROUP_ROOT,
};

// Entries are made and opened with the cheap algorithm throughout: the one
// for real use takes far too long to be run dozens of times.

const WEAK: KdfAlgorithm = KdfAlgorithm::Scrypt12_4_1;
const T0: Timestamp = Timestamp { secs: 1_500_000_000, nanos: 0 };

fn derive_single(passphrase: &[u8], entry: &KdfEntry) -> Option<(KeyChain, [u8; 32])> {
    ensync::server::kdf::derive_single(WEAK, passphrase, entry)
}

fn try_derive_key_single(passphrase: &[u8], entry: &KdfEntry) -> Option<KeyChain> {
    try_derive_key_single_with(WEAK, passphrase, entry)
}

fn try_derive_key(passphrase: &[u8], keys: &KdfList) -> Option<KeyChain> {
    try_derive_key_with(WEAK, passphrase, keys)
}

fn pairs(chain: &KeyChain) -> Vec<(String, Vec<u8>)> {
    let mut v: Vec<(String, Vec<u8>)> = chain
        .names
        .iter()
        .cloned()
        .zip(chain.keys.iter().map(|k| k.hmac_secret().to_vec()))
        .collect();
    v.sort();
    v
}

fn ck(passphrase: &[u8], chain: &KeyChain) -> KdfEntry {
    create_key_with(WEAK, &rand_hashid(), passphrase, chain, T0, None, None)
}

#[test]
fn generate_and_derive_keys() {
    let master = MasterKey::generate_new();
    let mut chain = KeyChain::empty();
    chain.insert("everyone", master);
    let keys = KdfList {
        names: vec!["a".to_owned(), "b".to_owned()],
        entries: vec![ck(b"plugh", &chain), ck(b"xyzzy", &chain)],
        unknown: vec![],
    };

    let derived = try_derive_key(b"plugh", &keys).unwrap();
    assert!(master == derived.key("everyone").unwrap());
    let derived = try_derive_key(b"xyzzy", &keys).unwrap();
    assert!(master == derived.key("everyone").unwrap());
    assert!(try_derive_key(b"foo", &keys).is_none());
}

#[test]
fn derived_keys_depend_on_passphrase_and_salt() {
    let a = WEAK.derive(b"pleaseletmein", b"SodiumChloride");
    let b = WEAK.derive(b"pleaseletmein", b"SodiumChloride");
    assert_eq!(a, b);
    assert_ne!(a, WEAK.derive(b"pleaseletmein", b"SodiumChloridf"));
    assert_ne!(a, WEAK.derive(b"pleaseletmeim", b"SodiumChloride"));
    assert_ne!([0u8; 32], a);
    assert_ne!(&b"pleaseletmein"[..], &a[..13]);
}

#[test]
fn derived_key_is_scrypt_with_the_named_parameters() {
    let params = crypto::scrypt::ScryptParams::new(12, 4, 1);
    let mut expected = [0u8; 32];
    crypto::scrypt::scrypt(b"hunter2", &[7u8; 32], &params, &mut expected);
    assert_eq!(expected, WEAK.derive(b"hunter2", &[7u8; 32]));
    let other = crypto::scrypt::ScryptParams::new(12, 8, 1);
    let mut different = [0u8; 32];
    crypto::scrypt::scrypt(b"hunter2", &[7u8; 32], &other, &mut different);
    assert_ne!(different, WEAK.derive(b"hunter2", &[7u8; 32]));
}

#[test]
fn algorithm_names() {
    assert_eq!("scrypt-18-8-1", KdfAlgorithm::Scrypt18_8_1.name());
    assert_eq!("scrypt-12-4-1", KdfAlgorithm::Scrypt12_4_1.name());
}

#[test]
fn created_entry_fields() {
    let chain = KeyChain::generate_new();
    let salt = [9u8; 32];
    let updated = Some(Timestamp { secs: 5, nanos: 6 });
    let entry = create_key_with(WEAK, &salt, b"pw", &chain, T0, updated, None);
    let derived = WEAK.derive(b"pw", &salt);
    assert_eq!("scrypt-12-4-1", entry.algorithm);
    assert_eq!(salt, entry.salt);
    assert_eq!(sha3(&derived), entry.hash);
    assert_eq!(T0, entry.created);
    assert_eq!(updated, entry.updated);
    assert_eq!(None, entry.used);
    assert_eq!(vec![GROUP_EVERYONE.to_owned(), GROUP_ROOT.to_owned()], entry.group_names);
    assert_eq!(2, entry.group_diffs.len());
    assert!(entry.unknown.is_empty());
    for i in 0..2 {
        assert_eq!(hixor(&derived, &chain.keys[i].to_bytes()), entry.group_diffs[i]);
    }
}

#[test]
fn derive_single_gives_chain_and_derived_key() {
    let chain = KeyChain::generate_new();
    let salt = [3u8; 32];
    let entry = create_key_with(WEAK, &salt, b"pw", &chain, T0, None, None);
    let (found, derived) = derive_single(b"pw", &entry).unwrap();
    assert!(found == chain);
    assert_eq!(WEAK.derive(b"pw", &salt), derived);
    assert!(derive_single(b"pW", &entry).is_none());
    assert!(try_derive_key_single(b"pw", &entry).unwrap() == chain);
}

#[test]
fn unknown_algorithm_never_matches() {
    let chain = KeyChain::generate_new();
    let mut entry = create_key_with(WEAK, &[3u8; 32], b"pw", &chain, T0, None, None);
    entry.algorithm = "scrypt-14-8-1".to_owned();
    assert!(try_derive_key_single(b"pw", &entry).is_none());
    assert!(ensync::server::kdf::try_derive_key_single(b"pw", &entry).is_none());
    entry.algorithm = "".to_owned();
    assert!(try_derive_key_single(b"pw", &entry).is_none());
    assert!(ensync::server::kdf::try_derive_key_single(b"pw", &entry).is_none());
}

#[test]
fn only_entries_of_the_algorithm_in_use_are_opened() {
    let chain = KeyChain::generate_new();
    let entry = create_key_with(WEAK, &[3u8; 32], b"pw", &chain, T0, None, None);
    assert_eq!("scrypt-12-4-1", entry.algorithm);
    assert!(try_derive_key_single(b"pw", &entry).unwrap() == chain);
    // Without an algorithm of the caller's choice it is `scrypt-18-8-1`,
    // and an entry that records another name is passed over.
    assert!(ensync::server::kdf::try_derive_key_single(b"pw", &entry).is_none());
    let keys = KdfList {
        names: vec!["a".to_owned()],
        entries: vec![entry.clone()],
        unknown: Vec::new(),
    };
    assert!(try_derive_key(b"pw", &keys).unwrap() == chain);
    assert!(ensync::server::kdf::try_derive_key(b"pw", &keys).is_none());
    // An entry that claims the other algorithm is not opened either.
    let mut renamed = entry;
    renamed.algorithm = "scrypt-18-8-1".to_owned();
    assert!(try_derive_key_single(b"pw", &renamed).is_none());
}

#[test]
fn tampered_hash_never_matches() {
    let chain = KeyChain::generate_new();
    let mut entry = create_key_with(WEAK, &[3u8; 32], b"pw", &chain, T0, None, None);
    entry.hash[0] ^= 1;
    assert!(try_derive_key_single(b"pw", &entry).is_none());
}

#[test]
fn first_matching_entry_wins() {
    let first = KeyChain::generate_new();
    let second = KeyChain::generate_new();
    let keys = KdfList {
        names: vec!["a".to_owned(), "b".to_owned(), "c".to_owned()],
        entries: vec![ck(b"other", &first), ck(b"same", &first), ck(b"same", &second)],
        unknown: vec![],
    };
    assert!(pairs(&try_derive_key(b"same", &keys).unwrap()) == pairs(&first));
}

#[test]
fn key_chain_generate_new_has_builtin_groups() {
    let chain = KeyChain::generate_new();
    assert_eq!(2, chain.len());
    assert!(chain.contains_key("everyone"));
    assert!(chain.contains_key("root"));
    assert!(!chain.contains_key("users"));
    assert!(chain.key("everyone").unwrap() != chain.key("root").unwrap());
    assert_eq!(0, KeyChain::empty().len());
}

#[test]
fn key_chain_key_reports_missing_group() {
    let chain = KeyChain::generate_new();
    match chain.key("users") {
        Err(ensync::errors::Error::KeyNotInGroup(name)) => assert_eq!("users", name),
        _ => panic!("expected KeyNotInGroup"),
    }
}

#[test]
fn key_chain_insert_replaces_or_appends() {
    let mut chain = KeyChain::generate_new();
    let k1 = MasterKey::from_bytes([1u8; 32]);
    let k2 = MasterKey::from_bytes([2u8; 32]);
    chain.insert("users", k1);
    assert_eq!(3, chain.len());
    assert!(chain.key("users").unwrap() == k1);
    chain.insert("users", k2);
    assert_eq!(3, chain.len());
    assert!(chain.key("users").unwrap() == k2);
    chain.insert("everyone", k1);
    assert_eq!(3, chain.len());
    assert!(chain.key("everyone").unwrap() == k1);
    assert_eq!(vec!["everyone", "root", "users"], chain.names);
}

#[test]
fn reassoc_keys_rewraps_under_the_derived_key() {
    let chain = KeyChain::generate_new();
    let mut entry = create_key_with(WEAK, &[3u8; 32], b"pw", &chain, T0, None, None);
    let (mut found, derived) = derive_single(b"pw", &entry).unwrap();
    let extra = MasterKey::from_bytes([0x42; 32]);
    found.insert("users", extra);
    reassoc_keys(&mut entry, &found, &derived);
    assert_eq!(3, entry.group_names.len());
    assert_eq!(hixor(&derived, &[0x42; 32]), entry.group_diffs[2]);
    let again = try_derive_key_single(b"pw", &entry).unwrap();
    assert!(again == found);
    assert_eq!(T0, entry.created);
}

#[test]
fn copies_are_equal() {
    let chain = KeyChain::generate_new();
    let list = KdfList {
        names: vec!["a".to_owned()],
        entries: vec![ck(b"pw", &chain)],
        unknown: vec![1, 2, 3],
    };
    assert_eq!(list, list.copy());
    assert_eq!(list.entries[0], list.entries[0].copy());
    assert_eq!(1, list.len());
    assert_eq!(0, KdfList::new().len());
}
