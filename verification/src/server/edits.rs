//! The edits of the registry of passphrases.
//!
//! Each operation on the registry is an edit: a function from the registry as
//! it stands to the registry as it is to be, or to the reason why it must
//! stay as it is. What an edit makes of a registry is said by a function of
//! its own (`..._outcome`), and the edit does just that. An edit that fails
//! leaves the registry untouched.

use crate::defs::{
    find_name, first_index, lemma_first_index_is, lemma_position, names_view, position, str_eq,
    strs_view, HashId,
};
use crate::errors::{Error, ErrorView};
use crate::server::crypt::MasterKey;
use crate::server::kdf::{
    any_has_group, chain_insert, create_key_with, created_entry, derive_single, derived_chain,
    distinct, entry_derived, entry_matches, first_match, keys_view, lemma_created_entry_derives,
    lemma_first_match, reassoc_keys, regrouped, try_derive_key_single_with, unwrapped,
    KdfAlgorithm, KdfEntry, KdfEntryView, KdfList, KdfListView, KeyChain, KeyChainView, Timestamp,
    GROUP_EVERYONE, GROUP_ROOT,
};
use vstd::prelude::*;

verus! {


/// Whether an edit ended as `outcome` says: with the registry that it gives,
/// or with the error that it gives and the registry as it was.
pub open spec fn edit_done(
    res: Result<(), Error>,
    before: KdfListView,
    after: KdfListView,
    outcome: Result<KdfListView, ErrorView>,
) -> bool {
    match outcome {
        Ok(list) => res is Ok && after == list,
        Err(e) => res is Err && res->Err_0@ == e && after == before,
    }
}

/// Whether an entry of `entries` other than the one at `skip` carries
/// `group`.
pub open spec fn others_have_group(entries: Seq<KdfEntryView>, skip: int, group: Seq<char>) -> bool {
    exists|j: int| 0 <= j < entries.len() && j != skip && (#[trigger] entries[j]).has_group(group)
}

/// The test for a group that no entry of `entries` but the one at `skip`
/// carries.
pub open spec fn is_orphan(entries: Seq<KdfEntryView>, skip: int) -> spec_fn(Seq<char>) -> bool {
    |g: Seq<char>| !others_have_group(entries, skip, g)
}

/// Whether `entry` carries `group`.
pub fn entry_has_group(entry: &KdfEntry, group: &str) -> (found: bool)
    ensures
        found == entry@.has_group(group@),
{
    find_name(&entry.group_names, group).is_some()
}

/// Whether an entry of `list` other than the one at `skip` carries `group`.
/// With `skip` beyond the last entry, every entry is looked at.
pub fn others_carry_group(list: &KdfList, skip: usize, group: &str) -> (found: bool)
    ensures
        found == others_have_group(list@.entries, skip as int, group@),
        skip >= list.entries.len() ==> found == list@.has_group(group@),
{
    let ghost all = list@.entries;
    let mut j: usize = 0;
    while j < list.entries.len()
        invariant
            j <= list.entries.len(),
            all == list@.entries,
            forall|k: int| 0 <= k < j && k != skip ==> !(#[trigger] all[k]).has_group(group@),
        decreases list.entries.len() - j,
    {
        if j != skip && entry_has_group(&list.entries[j], group) {
            assert(all[j as int] == list.entries@[j as int]@);
            return true;
        }
        assert(all[j as int] == list.entries@[j as int]@);
        j += 1;
    }
    false
}

/// What deleting the entry `name` makes of `list`.
///
/// The entry must exist, it must not be the only one, and every group that
/// it carries must be carried by another entry: the first of its groups, in
/// the order in which the entry holds them, that no other entry carries is
/// reported.
pub open spec fn del_key_outcome(list: KdfListView, name: Seq<char>) -> Result<
    KdfListView,
    ErrorView,
> {
    match position(list.names, name) {
        None => Err(ErrorView::KeyNotInKdfList(name)),
        Some(i) => if list.names.len() == 1 {
            Err(ErrorView::WouldRemoveLastKdfEntry)
        } else {
            match first_index(list.entries[i].group_names, is_orphan(list.entries, i)) {
                Some(k) => Err(
                    ErrorView::WouldDisassocLastKeyFromGroup(name, list.entries[i].group_names[k]),
                ),
                None => Ok(
                    KdfListView { names: list.names.remove(i), entries: list.entries.remove(i), ..list },
                ),
            }
        },
    }
}

/// A registry without one of its entries is as well formed as it was.
pub proof fn lemma_remove_keeps_wf(list: KdfListView, i: int)
    requires
        list.wf(),
        0 <= i < list.names.len(),
    ensures
        (KdfListView { names: list.names.remove(i), entries: list.entries.remove(i), ..list }).wf(),
{
    let names = list.names.remove(i);
    let entries = list.entries.remove(i);
    assert forall|a: int, b: int| 0 <= a < b < names.len() implies names[a] != names[b] by {
        let a0 = if a < i {
            a
        } else {
            a + 1
        };
        let b0 = if b < i {
            b
        } else {
            b + 1
        };
        assert(names[a] == list.names[a0]);
        assert(names[b] == list.names[b0]);
    }
    assert forall|a: int| 0 <= a < entries.len() implies (#[trigger] entries[a]).wf() by {
        let a0 = if a < i {
            a
        } else {
            a + 1
        };
        assert(entries[a] == list.entries[a0]);
    }
}

/// Deletes the entry `name` from `kdflist`.
///
/// This does not take a passphrase: whoever can write to the registry can
/// delete from it, and asking for one would only pretend otherwise. It fails
/// where `name` is the last entry of the registry, or the last that carries
/// one of its groups, since the keys behind it could then never be derived
/// again.
pub fn edit_del_key(kdflist: &mut KdfList, name: &str) -> (res: Result<(), Error>)
    requires
        old(kdflist).wf(),
    ensures
        edit_done(res, old(kdflist)@, final(kdflist)@, del_key_outcome(old(kdflist)@, name@)),
        final(kdflist).wf(),
{
    let i = match find_name(&kdflist.names, name) {
        Some(i) => i,
        None => {
            return Err(Error::KeyNotInKdfList(name.to_owned()));
        },
    };
    if kdflist.names.len() == 1 {
        return Err(Error::WouldRemoveLastKdfEntry);
    }
    let ghost before = kdflist@;
    let ghost groups = before.entries[i as int].group_names;
    let ghost orphan = is_orphan(before.entries, i as int);
    let mut k: usize = 0;
    while k < kdflist.entries[i].group_names.len()
        invariant
            kdflist@ == before,
            before == old(kdflist)@,
            before.wf(),
            i < kdflist.entries.len(),
            position(before.names, name@) == Some(i as int),
            before.names.len() != 1,
            groups == before.entries[i as int].group_names,
            groups == names_view(kdflist.entries@[i as int].group_names@),
            k <= groups.len(),
            orphan == is_orphan(before.entries, i as int),
            forall|j: int| 0 <= j < k ==> !orphan(groups[j]),
        decreases groups.len() - k,
    {
        let group = kdflist.entries[i].group_names[k].as_str();
        assert(group@ == groups[k as int]);
        if !others_carry_group(kdflist, i, group) {
            proof {
                assert(orphan(groups[k as int]));
                lemma_first_index_is(groups, orphan, k as int);
            }
            return Err(Error::WouldDisassocLastKeyFromGroup(name.to_owned(), group.to_owned()));
        }
        k += 1;
    }
    proof {
        lemma_first_index_is(groups, orphan, k as int);
        lemma_remove_keeps_wf(before, i as int);
    }
    kdflist.names.remove(i);
    kdflist.entries.remove(i);
    proof {
        assert(kdflist@.names =~= before.names.remove(i as int));
        assert(kdflist@.entries =~= before.entries.remove(i as int));
    }
    Ok(())
}

/// Looks for the first entry of `list` that `passphrase` matches under
/// `algorithm`, and returns its position, the key chain that the passphrase
/// unwraps from it, and the derived key. The entry at `skip`, known not to
/// match, is passed over.
pub fn find_match(
    algorithm: KdfAlgorithm,
    passphrase: &[u8],
    list: &KdfList,
    skip: usize,
) -> (res: Option<(usize, KeyChain, HashId)>)
    requires
        list.wf(),
        skip < list.entries.len() ==> !entry_matches(
            algorithm,
            passphrase@,
            list@.entries[skip as int],
        ),
    ensures
        match first_match(algorithm, passphrase@, list@.entries) {
            Some(i) => res is Some && res->Some_0.0 == i && res->Some_0.1@ == unwrapped(
                algorithm,
                passphrase@,
                list@.entries[i],
            ) && res->Some_0.1.wf() && Some(res->Some_0.2@) == entry_derived(
                algorithm,
                passphrase@,
                list@.entries[i],
            ),
            None => res is None,
        },
        res is Some ==> res->Some_0.0 < list.entries.len(),
{
    let ghost all = list@.entries;
    let mut i: usize = 0;
    while i < list.entries.len()
        invariant
            i <= list.entries.len(),
            list.wf(),
            all == list@.entries,
            skip < list.entries.len() ==> !entry_matches(
                algorithm,
                passphrase@,
                all[skip as int],
            ),
            forall|j: int|
                0 <= j < i ==> !entry_matches(algorithm, passphrase@, #[trigger] all[j]),
        decreases list.entries.len() - i,
    {
        assert(all[i as int] == list.entries@[i as int]@);
        assert(all[i as int].wf());
        if i != skip {
            match derive_single(algorithm, passphrase, &list.entries[i]) {
                Some((chain, derived)) => {
                    proof {
                        lemma_first_match(algorithm, passphrase@, all);
                    }
                    return Some((i, chain, derived));
                },
                None => {},
            }
        }
        i += 1;
    }
    proof {
        lemma_first_match(algorithm, passphrase@, all);
    }
    None
}

/// What adding the entry `new_name` for `new_passphrase` makes of `list`.
///
/// `old_passphrase` must derive a key chain, which the new entry then gives
/// access to, and no entry may have the name yet.
pub open spec fn add_key_outcome(
    list: KdfListView,
    algorithm: KdfAlgorithm,
    salt: Seq<u8>,
    old_passphrase: Seq<u8>,
    new_passphrase: Seq<u8>,
    new_name: Seq<char>,
    now: Timestamp,
) -> Result<KdfListView, ErrorView> {
    match derived_chain(algorithm, old_passphrase, list.entries) {
        None => Err(ErrorView::PassphraseNotInKdfList),
        Some(chain) => if position(list.names, new_name) is Some {
            Err(ErrorView::KeyNameAlreadyInUse(new_name))
        } else {
            Ok(
                KdfListView {
                    names: list.names.push(new_name),
                    entries: list.entries.push(
                        created_entry(algorithm, new_passphrase, salt, chain, now, None, None),
                    ),
                    ..list
                },
            )
        },
    }
}

/// A registry with one more entry, well formed and under a name not yet in
/// it, is as well formed as it was.
pub proof fn lemma_push_keeps_wf(list: KdfListView, name: Seq<char>, entry: KdfEntryView)
    requires
        list.wf(),
        entry.wf(),
        position(list.names, name) is None,
    ensures
        (KdfListView { names: list.names.push(name), entries: list.entries.push(entry), ..list }).wf(),
{
    lemma_position(list.names, name);
    let names = list.names.push(name);
    let entries = list.entries.push(entry);
    assert forall|a: int, b: int| 0 <= a < b < names.len() implies names[a] != names[b] by {
        if b < list.names.len() {
            assert(names[a] == list.names[a]);
            assert(names[b] == list.names[b]);
        } else {
            assert(names[a] == list.names[a]);
        }
    }
    assert forall|a: int| 0 <= a < entries.len() implies (#[trigger] entries[a]).wf() by {
        if a < list.entries.len() {
            assert(entries[a] == list.entries[a]);
        }
    }
}

/// Adds to `kdflist` the entry `new_name` for `new_passphrase`, with the
/// algorithm `algorithm`, the salt `salt` and the time of creation `now`. The
/// new entry gives access to the groups of the entry that `old_passphrase`
/// matches.
pub fn edit_add_key(
    kdflist: &mut KdfList,
    algorithm: KdfAlgorithm,
    salt: &HashId,
    old_passphrase: &[u8],
    new_passphrase: &[u8],
    new_name: &str,
    now: Timestamp,
) -> (res: Result<(), Error>)
    requires
        old(kdflist).wf(),
    ensures
        edit_done(
            res,
            old(kdflist)@,
            final(kdflist)@,
            add_key_outcome(
                old(kdflist)@,
                algorithm,
                salt@,
                old_passphrase@,
                new_passphrase@,
                new_name@,
                now,
            ),
        ),
        final(kdflist).wf(),
{
    let key_chain = match find_match(
        algorithm,
        old_passphrase,
        kdflist,
        kdflist.entries.len(),
    ) {
        Some((_, chain, _)) => chain,
        None => {
            return Err(Error::PassphraseNotInKdfList);
        },
    };
    if find_name(&kdflist.names, new_name).is_some() {
        return Err(Error::KeyNameAlreadyInUse(new_name.to_owned()));
    }
    let entry = create_key_with(algorithm, salt, new_passphrase, &key_chain, now, None, None);
    proof {
        lemma_push_keeps_wf(kdflist@, new_name@, entry@);
    }
    kdflist.names.push(new_name.to_owned());
    kdflist.entries.push(entry);
    proof {
        assert(kdflist@.names =~= old(kdflist)@.names.push(new_name@));
        assert(kdflist@.entries =~= old(kdflist)@.entries.push(entry@));
    }
    Ok(())
}

/// The entry that an edit is about: the one named or, where none is named,
/// the only one there is.
pub open spec fn named_or_only(list: KdfListView, name: Option<Seq<char>>) -> Result<
    Seq<char>,
    ErrorView,
> {
    match name {
        Some(n) => Ok(n),
        None => if list.names.len() == 1 {
            Ok(list.names[0])
        } else {
            Err(ErrorView::AnonChangeKeyButMultipleKdfEntries)
        },
    }
}

/// The key chain from which the entry at position `i` is made anew when its
/// passphrase is changed: what `old_passphrase` unwraps from that entry
/// under `algorithm` or, with `allow_other`, from the first entry that it
/// matches.
pub open spec fn change_source(
    list: KdfListView,
    algorithm: KdfAlgorithm,
    i: int,
    old_passphrase: Seq<u8>,
    allow_other: bool,
) -> Result<KeyChainView, ErrorView> {
    if entry_matches(algorithm, old_passphrase, list.entries[i]) {
        Ok(unwrapped(algorithm, old_passphrase, list.entries[i]))
    } else {
        match derived_chain(algorithm, old_passphrase, list.entries) {
            Some(chain) => if allow_other {
                Ok(chain)
            } else {
                Err(ErrorView::ChangeKeyWithPassphraseMismatch)
            },
            None => Err(ErrorView::PassphraseNotInKdfList),
        }
    }
}

/// The test for a group that `source` has no key for.
pub open spec fn is_missing(source: KeyChainView) -> spec_fn(Seq<char>) -> bool {
    |g: Seq<char>| source.key(g) is None
}

/// The keys that `source` holds for `groups`, in their order, or the first of
/// `groups` that it holds none for.
pub open spec fn select_keys(groups: Seq<Seq<char>>, source: KeyChainView) -> Result<
    Seq<Seq<u8>>,
    ErrorView,
> {
    match first_index(groups, is_missing(source)) {
        Some(k) => Err(ErrorView::KeyNotInGroup(groups[k])),
        None => Ok(groups.map_values(|g: Seq<char>| source.key(g)->Some_0)),
    }
}

/// What changing the passphrase of an entry makes of `list`.
///
/// The entry is the one named or, where none is named, the only one. The old
/// passphrase must match it or, with `allow_other`, some other entry. The
/// entry is made anew for the new passphrase, with the groups it had and the
/// keys that the old passphrase gave for them, and it keeps its time of
/// creation and of last use.
pub open spec fn change_key_outcome(
    list: KdfListView,
    algorithm: KdfAlgorithm,
    salt: Seq<u8>,
    old_passphrase: Seq<u8>,
    new_passphrase: Seq<u8>,
    name: Option<Seq<char>>,
    allow_other: bool,
    now: Timestamp,
) -> Result<KdfListView, ErrorView> {
    match named_or_only(list, name) {
        Err(e) => Err(e),
        Ok(real_name) => match position(list.names, real_name) {
            None => Err(ErrorView::KeyNotInKdfList(real_name)),
            Some(i) => match change_source(list, algorithm, i, old_passphrase, allow_other) {
                Err(e) => Err(e),
                Ok(source) => match select_keys(list.entries[i].group_names, source) {
                    Err(e) => Err(e),
                    Ok(keys) => Ok(
                        KdfListView {
                            names: list.names,
                            entries: list.entries.update(
                                i,
                                created_entry(
                                    algorithm,
                                    new_passphrase,
                                    salt,
                                    KeyChainView { names: list.entries[i].group_names, keys },
                                    list.entries[i].created,
                                    Some(now),
                                    list.entries[i].used,
                                ),
                            ),
                            ..list
                        },
                    ),
                },
            },
        },
    }
}

/// A registry with one of its entries replaced by a well-formed one is as
/// well formed as it was.
pub proof fn lemma_update_keeps_wf(list: KdfListView, i: int, entry: KdfEntryView)
    requires
        list.wf(),
        entry.wf(),
        0 <= i < list.entries.len(),
    ensures
        (KdfListView { entries: list.entries.update(i, entry), ..list }).wf(),
{
    let entries = list.entries.update(i, entry);
    assert forall|a: int| 0 <= a < entries.len() implies (#[trigger] entries[a]).wf() by {
        if a != i {
            assert(entries[a] == list.entries[a]);
        }
    }
}

/// The chain that holds, for each of `groups`, the key that `source` holds
/// for it. Fails with `KeyNotInGroup` for the first group that `source` holds
/// no key for.
pub fn select_chain(groups: &Vec<String>, source: &KeyChain) -> (res: Result<KeyChain, Error>)
    requires
        source.wf(),
        distinct(names_view(groups@)),
    ensures
        match select_keys(names_view(groups@), source@) {
            Ok(keys) => res is Ok && res->Ok_0@ == (KeyChainView {
                names: names_view(groups@),
                keys,
            }) && res->Ok_0.wf(),
            Err(e) => res is Err && res->Err_0@ == e,
        },
{
    let ghost all = names_view(groups@);
    let ghost missing = is_missing(source@);
    let mut chain = KeyChain { names: Vec::new(), keys: Vec::new() };
    let mut k: usize = 0;
    while k < groups.len()
        invariant
            k <= groups.len(),
            source.wf(),
            all == names_view(groups@),
            missing == is_missing(source@),
            forall|j: int| 0 <= j < k ==> !missing(all[j]),
            chain@.names == all.take(k as int),
            chain@.keys.len() == k,
            forall|j: int| 0 <= j < k ==> chain@.keys[j] == source@.key(all[j])->Some_0,
            forall|j: int| 0 <= j < k ==> (#[trigger] chain@.keys[j]).len() == 32,
        decreases groups.len() - k,
    {
        let group = groups[k].as_str();
        assert(group@ == all[k as int]);
        let ghost names_before = chain@.names;
        let ghost keys_before = chain@.keys;
        match source.key(group) {
            Ok(key) => {
                proof {
                    key.lemma_len();
                    lemma_position(source@.names, group@);
                }
                chain.names.push(group.to_owned());
                chain.keys.push(key);
                proof {
                    assert(chain@.names =~= names_before.push(group@));
                    assert(chain@.keys =~= keys_before.push(key@));
                    assert(all.take(k + 1) =~= all.take(k as int).push(all[k as int]));
                    assert(!missing(all[k as int]));
                }
            },
            Err(e) => {
                proof {
                    assert(missing(all[k as int]));
                    lemma_first_index_is(all, missing, k as int);
                }
                return Err(e);
            },
        }
        k += 1;
    }
    proof {
        lemma_first_index_is(all, missing, k as int);
        assert(all.take(k as int) =~= all);
        assert(chain@.keys =~= all.map_values(|g: Seq<char>| source@.key(g)->Some_0));
    }
    Ok(chain)
}

/// Changes the passphrase of one entry of `kdflist`.
///
/// `name` names the entry; without it there must be exactly one entry, which
/// is then the one. Unless `allow_change_via_other_passphrase`, the edit fails
/// where `old_passphrase` is the passphrase of another entry than that one.
/// In that case the other entry must give access to every group of the entry
/// that is changed.
pub fn edit_change_key(
    kdflist: &mut KdfList,
    algorithm: KdfAlgorithm,
    salt: &HashId,
    old_passphrase: &[u8],
    new_passphrase: &[u8],
    name: Option<&str>,
    allow_change_via_other_passphrase: bool,
    now: Timestamp,
) -> (res: Result<(), Error>)
    requires
        old(kdflist).wf(),
    ensures
        edit_done(
            res,
            old(kdflist)@,
            final(kdflist)@,
            change_key_outcome(
                old(kdflist)@,
                algorithm,
                salt@,
                old_passphrase@,
                new_passphrase@,
                match name {
                    Some(n) => Some(n@),
                    None => None,
                },
                allow_change_via_other_passphrase,
                now,
            ),
        ),
        final(kdflist).wf(),
{
    let ghost before = kdflist@;
    let real_name: String = match name {
        Some(name) => name.to_owned(),
        None => if kdflist.names.len() == 1 {
            assert(before.names[0] == kdflist.names@[0]@);
            kdflist.names[0].clone()
        } else {
            return Err(Error::AnonChangeKeyButMultipleKdfEntries);
        },
    };
    let i = match find_name(&kdflist.names, real_name.as_str()) {
        Some(i) => i,
        None => {
            return Err(Error::KeyNotInKdfList(real_name));
        },
    };
    assert(before.entries[i as int] == kdflist.entries@[i as int]@);
    assert(before.entries[i as int].wf());
    let key_chain = match try_derive_key_single_with(
        algorithm,
        old_passphrase,
        &kdflist.entries[i],
    ) {
        Some(chain) => chain,
        None => match find_match(algorithm, old_passphrase, kdflist, i) {
            Some((_, chain, _)) => {
                if allow_change_via_other_passphrase {
                    chain
                } else {
                    return Err(Error::ChangeKeyWithPassphraseMismatch);
                }
            },
            None => {
                return Err(Error::PassphraseNotInKdfList);
            },
        },
    };
    let new_chain = match select_chain(&kdflist.entries[i].group_names, &key_chain) {
        Ok(chain) => chain,
        Err(e) => {
            return Err(e);
        },
    };
    let created = kdflist.entries[i].created;
    let used = kdflist.entries[i].used;
    let entry = create_key_with(
        algorithm,
        salt,
        new_passphrase,
        &new_chain,
        created,
        Some(now),
        used,
    );
    proof {
        lemma_update_keeps_wf(before, i as int, entry@);
    }
    kdflist.entries[i] = entry;
    proof {
        assert(kdflist@.entries =~= before.entries.update(i as int, entry@));
    }
    Ok(())
}

/// What deriving the key chain of `passphrase` makes of `list`, and the key
/// chain derived: the first entry that the passphrase matches under
/// `algorithm` records `now` as the time of its last use.
pub open spec fn derive_key_chain_outcome(
    list: KdfListView,
    algorithm: KdfAlgorithm,
    passphrase: Seq<u8>,
    now: Timestamp,
) -> Result<(KdfListView, KeyChainView), ErrorView> {
    match first_match(algorithm, passphrase, list.entries) {
        None => Err(ErrorView::PassphraseNotInKdfList),
        Some(i) => Ok(
            (
                KdfListView {
                    names: list.names,
                    entries: list.entries.update(
                        i,
                        KdfEntryView { used: Some(now), ..list.entries[i] },
                    ),
                    ..list
                },
                unwrapped(algorithm, passphrase, list.entries[i]),
            ),
        ),
    }
}

/// Derives the key chain of `passphrase` from `kdflist` under `algorithm`,
/// and records `now` as the time of the last use of the entry that it
/// matched.
pub fn edit_derive_key_chain(
    kdflist: &mut KdfList,
    algorithm: KdfAlgorithm,
    passphrase: &[u8],
    now: Timestamp,
) -> (res: Result<KeyChain, Error>)
    requires
        old(kdflist).wf(),
    ensures
        match derive_key_chain_outcome(old(kdflist)@, algorithm, passphrase@, now) {
            Ok((list, chain)) => res is Ok && res->Ok_0@ == chain && res->Ok_0.wf()
                && final(kdflist)@ == list,
            Err(e) => res is Err && res->Err_0@ == e && final(kdflist)@ == old(kdflist)@,
        },
        final(kdflist).wf(),
{
    let ghost before = kdflist@;
    let (i, chain) = match find_match(
        algorithm,
        passphrase,
        kdflist,
        kdflist.entries.len(),
    ) {
        Some((i, chain, _)) => (i, chain),
        None => {
            return Err(Error::PassphraseNotInKdfList);
        },
    };
    let mut entry = kdflist.entries.remove(i);
    assert(entry@ == before.entries[i as int]);
    entry.used = Some(now);
    proof {
        lemma_update_keeps_wf(before, i as int, entry@);
    }
    kdflist.entries.insert(i, entry);
    proof {
        assert(kdflist@.entries =~= before.entries.update(i as int, entry@));
    }
    Ok(chain)
}

/// `chain` after each of `names` was given the key at its position in
/// `keys`, in order.
pub open spec fn chain_insert_all(
    chain: KeyChainView,
    names: Seq<Seq<char>>,
    keys: Seq<Seq<u8>>,
) -> KeyChainView
    decreases names.len(),
{
    if names.len() == 0 || keys.len() == 0 {
        chain
    } else {
        chain_insert_all(
            chain_insert(chain, names[0], keys[0]),
            names.drop_first(),
            keys.drop_first(),
        )
    }
}

/// The test for a group that some entry of `list` carries.
pub open spec fn is_carried(list: KdfListView) -> spec_fn(Seq<char>) -> bool {
    |g: Seq<char>| list.has_group(g)
}

/// What creating the groups `names` makes of `list`.
///
/// None of the groups may be carried by any entry yet: the first that is
/// carried is reported. `passphrase` must match an entry under `algorithm`:
/// the first that it matches is given the new groups, each with the key at
/// its position in `fresh`, as far as there are keys.
pub open spec fn create_group_outcome(
    list: KdfListView,
    algorithm: KdfAlgorithm,
    passphrase: Seq<u8>,
    names: Seq<Seq<char>>,
    fresh: Seq<Seq<u8>>,
) -> Result<KdfListView, ErrorView> {
    match first_index(names, is_carried(list)) {
        Some(k) => Err(ErrorView::GroupNameAlreadyInUse(names[k])),
        None => match first_match(algorithm, passphrase, list.entries) {
            None => Err(ErrorView::PassphraseNotInKdfList),
            Some(i) => Ok(
                KdfListView {
                    names: list.names,
                    entries: list.entries.update(
                        i,
                        regrouped(
                            list.entries[i],
                            entry_derived(algorithm, passphrase, list.entries[i])->Some_0,
                            chain_insert_all(
                                unwrapped(algorithm, passphrase, list.entries[i]),
                                names,
                                fresh,
                            ),
                        ),
                    ),
                    ..list
                },
            ),
        },
    }
}

/// Gives the entry of `kdflist` at position `i` the groups of `chain`, each
/// wrapped under `derived`.
fn regroup_entry(kdflist: &mut KdfList, i: usize, chain: &KeyChain, derived: &HashId)
    requires
        old(kdflist).wf(),
        chain.wf(),
        i < old(kdflist).entries.len(),
    ensures
        final(kdflist).wf(),
        final(kdflist)@ == (KdfListView {
            entries: old(kdflist)@.entries.update(
                i as int,
                regrouped(old(kdflist)@.entries[i as int], derived@, chain@),
            ),
            ..old(kdflist)@
        }),
{
    let ghost before = kdflist@;
    let mut entry = kdflist.entries.remove(i);
    assert(entry@ == before.entries[i as int]);
    reassoc_keys(&mut entry, chain, derived);
    proof {
        lemma_update_keeps_wf(before, i as int, entry@);
    }
    kdflist.entries.insert(i, entry);
    proof {
        assert(kdflist@.entries =~= before.entries.update(i as int, entry@));
    }
}

/// Creates in `kdflist` a group for each of `names`, with the key at its
/// position in `fresh`, on the first entry that `passphrase` matches under
/// `algorithm`. A name without a key at its position is passed over.
///
/// Fails where any of the groups is carried by any entry already.
pub fn edit_create_group(
    kdflist: &mut KdfList,
    algorithm: KdfAlgorithm,
    passphrase: &[u8],
    names: &[&str],
    fresh: &Vec<MasterKey>,
) -> (res: Result<(), Error>)
    requires
        old(kdflist).wf(),
    ensures
        edit_done(
            res,
            old(kdflist)@,
            final(kdflist)@,
            create_group_outcome(
                old(kdflist)@,
                algorithm,
                passphrase@,
                strs_view(names@),
                keys_view(fresh@),
            ),
        ),
        final(kdflist).wf(),
{
    let ghost before = kdflist@;
    let ghost all = strs_view(names@);
    let ghost keys = keys_view(fresh@);
    let ghost carried = is_carried(before);
    let mut k: usize = 0;
    while k < names.len()
        invariant
            k <= names.len(),
            kdflist@ == before,
            before.wf(),
            all == strs_view(names@),
            carried == is_carried(before),
            forall|j: int| 0 <= j < k ==> !carried(all[j]),
        decreases names.len() - k,
    {
        let name = names[k];
        assert(name@ == all[k as int]);
        if others_carry_group(kdflist, kdflist.entries.len(), name) {
            proof {
                assert(carried(all[k as int]));
                lemma_first_index_is(all, carried, k as int);
            }
            return Err(Error::GroupNameAlreadyInUse(name.to_owned()));
        }
        k += 1;
    }
    proof {
        lemma_first_index_is(all, carried, k as int);
    }
    let (i, mut key_chain, derived) = match find_match(
        algorithm,
        passphrase,
        kdflist,
        kdflist.entries.len(),
    ) {
        Some(found) => found,
        None => {
            return Err(Error::PassphraseNotInKdfList);
        },
    };
    let ghost start = key_chain@;
    let mut k: usize = 0;
    proof {
        assert(all.skip(0) =~= all);
        assert(keys.skip(0) =~= keys);
    }
    while k < names.len() && k < fresh.len()
        invariant
            k <= names.len(),
            k <= fresh.len(),
            all == strs_view(names@),
            keys == keys_view(fresh@),
            key_chain.wf(),
            chain_insert_all(key_chain@, all.skip(k as int), keys.skip(k as int))
                == chain_insert_all(start, all, keys),
        decreases names.len() - k,
    {
        let name = names[k];
        proof {
            assert(all.skip(k as int)[0] == name@);
            assert(keys.skip(k as int)[0] == fresh@[k as int]@);
            assert(all.skip(k as int).drop_first() =~= all.skip(k + 1));
            assert(keys.skip(k as int).drop_first() =~= keys.skip(k + 1));
        }
        key_chain.insert(name, fresh[k]);
        k += 1;
    }
    regroup_entry(kdflist, i, &key_chain, &derived);
    Ok(())
}

/// `chain` after each of `names` was given the key that `source` holds for
/// it, in order. None of the groups may be in the chain already, and `source`
/// must hold a key for each: the first name to fail either way is reported.
pub open spec fn assoc_all(
    chain: KeyChainView,
    source: KeyChainView,
    names: Seq<Seq<char>>,
) -> Result<KeyChainView, ErrorView>
    decreases names.len(),
{
    if names.len() == 0 {
        Ok(chain)
    } else if chain.key(names[0]) is Some {
        Err(ErrorView::KeyAlreadyInGroup(names[0]))
    } else {
        match source.key(names[0]) {
            None => Err(ErrorView::KeyNotInGroup(names[0])),
            Some(key) => assoc_all(chain_insert(chain, names[0], key), source, names.drop_first()),
        }
    }
}

/// What giving the entry of `dst_passphrase` the groups `names` makes of
/// `list`.
///
/// Both passphrases must match an entry under `algorithm`. The keys of the
/// groups are those that `src_passphrase` derives, and the first entry that
/// `dst_passphrase` matches receives them.
pub open spec fn assoc_group_outcome(
    list: KdfListView,
    algorithm: KdfAlgorithm,
    src_passphrase: Seq<u8>,
    dst_passphrase: Seq<u8>,
    names: Seq<Seq<char>>,
) -> Result<KdfListView, ErrorView> {
    match derived_chain(algorithm, src_passphrase, list.entries) {
        None => Err(ErrorView::PassphraseNotInKdfList),
        Some(source) => match first_match(algorithm, dst_passphrase, list.entries) {
            None => Err(ErrorView::PassphraseNotInKdfList),
            Some(i) => match assoc_all(
                unwrapped(algorithm, dst_passphrase, list.entries[i]),
                source,
                names,
            ) {
                Err(e) => Err(e),
                Ok(chain) => Ok(
                    KdfListView {
                        names: list.names,
                        entries: list.entries.update(
                            i,
                            regrouped(
                                list.entries[i],
                                entry_derived(algorithm, dst_passphrase, list.entries[i])->Some_0,
                                chain,
                            ),
                        ),
                        ..list
                    },
                ),
            },
        },
    }
}

/// Adds every group of `names` to the first entry of `kdflist` that
/// `dst_passphrase` matches, with the keys that `src_passphrase` derives for
/// them, both under `algorithm`.
pub fn edit_assoc_group(
    kdflist: &mut KdfList,
    algorithm: KdfAlgorithm,
    src_passphrase: &[u8],
    dst_passphrase: &[u8],
    names: &[&str],
) -> (res: Result<(), Error>)
    requires
        old(kdflist).wf(),
    ensures
        edit_done(
            res,
            old(kdflist)@,
            final(kdflist)@,
            assoc_group_outcome(
                old(kdflist)@,
                algorithm,
                src_passphrase@,
                dst_passphrase@,
                strs_view(names@),
            ),
        ),
        final(kdflist).wf(),
{
    let ghost before = kdflist@;
    let ghost all = strs_view(names@);
    let src_chain = match find_match(
        algorithm,
        src_passphrase,
        kdflist,
        kdflist.entries.len(),
    ) {
        Some((_, chain, _)) => chain,
        None => {
            return Err(Error::PassphraseNotInKdfList);
        },
    };
    let (i, mut key_chain, derived) = match find_match(
        algorithm,
        dst_passphrase,
        kdflist,
        kdflist.entries.len(),
    ) {
        Some(found) => found,
        None => {
            return Err(Error::PassphraseNotInKdfList);
        },
    };
    let ghost start = key_chain@;
    let mut k: usize = 0;
    proof {
        assert(all.skip(0) =~= all);
    }
    while k < names.len()
        invariant
            k <= names.len(),
            kdflist@ == before,
            before.wf(),
            all == strs_view(names@),
            key_chain.wf(),
            src_chain.wf(),
            derived_chain(algorithm, src_passphrase@, before.entries) == Some(src_chain@),
            first_match(algorithm, dst_passphrase@, before.entries) == Some(i as int),
            start == unwrapped(algorithm, dst_passphrase@, before.entries[i as int]),
            assoc_all(key_chain@, src_chain@, all.skip(k as int)) == assoc_all(
                start,
                src_chain@,
                all,
            ),
        decreases names.len() - k,
    {
        let name = names[k];
        proof {
            assert(all.skip(k as int)[0] == name@);
            assert(all.skip(k as int).drop_first() =~= all.skip(k + 1));
        }
        if key_chain.contains_key(name) {
            return Err(Error::KeyAlreadyInGroup(name.to_owned()));
        }
        let key = match src_chain.key(name) {
            Ok(key) => key,
            Err(e) => {
                return Err(e);
            },
        };
        key_chain.insert(name, key);
        k += 1;
    }
    regroup_entry(kdflist, i, &key_chain, &derived);
    Ok(())
}

/// `entry` without the group `group`.
pub open spec fn without_group(entry: KdfEntryView, group: Seq<char>) -> KdfEntryView {
    match position(entry.group_names, group) {
        Some(k) => KdfEntryView {
            group_names: entry.group_names.remove(k),
            group_diffs: entry.group_diffs.remove(k),
            ..entry
        },
        None => entry,
    }
}

/// An entry without one of its groups is as well formed as it was.
pub proof fn lemma_without_group_wf(entry: KdfEntryView, group: Seq<char>)
    requires
        entry.wf(),
    ensures
        without_group(entry, group).wf(),
        !without_group(entry, group).has_group(group),
        forall|g: Seq<char>|
            g != group ==> (#[trigger] without_group(entry, group).has_group(g)
                <==> entry.has_group(g)),
{
    lemma_position(entry.group_names, group);
    match position(entry.group_names, group) {
        Some(k) => {
            let names = entry.group_names.remove(k);
            assert forall|a: int, b: int| 0 <= a < b < names.len() implies names[a]
                != names[b] by {
                let a0 = if a < k {
                    a
                } else {
                    a + 1
                };
                let b0 = if b < k {
                    b
                } else {
                    b + 1
                };
                assert(names[a] == entry.group_names[a0]);
                assert(names[b] == entry.group_names[b0]);
            }
            lemma_position(names, group);
            if position(names, group) is Some {
                let a = position(names, group)->Some_0;
                let a0 = if a < k {
                    a
                } else {
                    a + 1
                };
                assert(names[a] == entry.group_names[a0]);
            }
            assert forall|g: Seq<char>| g != group implies (#[trigger] without_group(
                entry,
                group,
            ).has_group(g) <==> entry.has_group(g)) by {
                lemma_position(names, g);
                lemma_position(entry.group_names, g);
                if position(names, g) is Some {
                    let a = position(names, g)->Some_0;
                    let a0 = if a < k {
                        a
                    } else {
                        a + 1
                    };
                    assert(names[a] == entry.group_names[a0]);
                }
                if position(entry.group_names, g) is Some {
                    let b = position(entry.group_names, g)->Some_0;
                    let b1 = if b < k {
                        b
                    } else {
                        b - 1
                    };
                    assert(names[b1] == entry.group_names[b]);
                }
            }
        },
        None => {},
    }
}

/// Takes the group `group` from `entry`, and returns whether it carried it.
pub fn remove_group(entry: &mut KdfEntry, group: &str) -> (found: bool)
    requires
        old(entry).wf(),
    ensures
        final(entry)@ == without_group(old(entry)@, group@),
        final(entry).wf(),
        found == old(entry)@.has_group(group@),
{
    proof {
        lemma_without_group_wf(entry@, group@);
    }
    match find_name(&entry.group_names, group) {
        Some(k) => {
            entry.group_names.remove(k);
            entry.group_diffs.remove(k);
            proof {
                assert(entry@.group_names =~= old(entry)@.group_names.remove(k as int));
                assert(entry@.group_diffs =~= old(entry)@.group_diffs.remove(k as int));
            }
            true
        },
        None => false,
    }
}

/// `entry` after each of `names` was taken from it, in order. The entry must
/// carry each group when its turn comes: the first that it does not carry is
/// reported.
pub open spec fn disassoc_all(entry: KdfEntryView, names: Seq<Seq<char>>) -> Result<
    KdfEntryView,
    ErrorView,
>
    decreases names.len(),
{
    if names.len() == 0 {
        Ok(entry)
    } else if !entry.has_group(names[0]) {
        Err(ErrorView::KeyNotInGroup(names[0]))
    } else {
        disassoc_all(without_group(entry, names[0]), names.drop_first())
    }
}

/// The test for the name `name`.
pub open spec fn is_name(name: Seq<char>) -> spec_fn(Seq<char>) -> bool {
    |g: Seq<char>| g == name
}

/// The test for a group that no entry of `entries` carries.
pub open spec fn is_unreferenced(entries: Seq<KdfEntryView>) -> spec_fn(Seq<char>) -> bool {
    |g: Seq<char>| !any_has_group(entries, g)
}

/// What taking the groups `names` from the entry `key` makes of `list`.
///
/// None of the groups may be `everyone`. The entry must exist and carry each
/// of the groups, and each must still be carried by some entry afterwards:
/// the first that is not is reported.
pub open spec fn disassoc_group_outcome(
    list: KdfListView,
    key: Seq<char>,
    names: Seq<Seq<char>>,
) -> Result<KdfListView, ErrorView> {
    if first_index(names, is_name(GROUP_EVERYONE@)) is Some {
        Err(ErrorView::CannotDisassocGroup(GROUP_EVERYONE@))
    } else {
        match position(list.names, key) {
            None => Err(ErrorView::KeyNotInKdfList(key)),
            Some(i) => match disassoc_all(list.entries[i], names) {
                Err(e) => Err(e),
                Ok(entry) => match first_index(
                    names,
                    is_unreferenced(list.entries.update(i, entry)),
                ) {
                    Some(k) => Err(ErrorView::WouldDisassocLastKeyFromGroup(key, names[k])),
                    None => Ok(
                        KdfListView { entries: list.entries.update(i, entry), ..list },
                    ),
                },
            },
        }
    }
}

/// The position of the first of `names` that is `name`.
pub fn find_str(names: &[&str], name: &str) -> (found: Option<usize>)
    ensures
        found is Some <==> first_index(strs_view(names@), is_name(name@)) is Some,
        found is Some ==> first_index(strs_view(names@), is_name(name@)) == Some(
            found->Some_0 as int,
        ) && found->Some_0 < names.len(),
{
    let ghost all = strs_view(names@);
    let ghost same = is_name(name@);
    let mut k: usize = 0;
    while k < names.len()
        invariant
            k <= names.len(),
            all == strs_view(names@),
            same == is_name(name@),
            forall|j: int| 0 <= j < k ==> !same(all[j]),
        decreases names.len() - k,
    {
        assert(all[k as int] == names@[k as int]@);
        if str_eq(names[k], name) {
            proof {
                assert(same(all[k as int]));
                lemma_first_index_is(all, same, k as int);
            }
            return Some(k);
        }
        k += 1;
    }
    proof {
        lemma_first_index_is(all, same, k as int);
    }
    None
}

/// Takes every group of `names` from the entry `key` of `kdflist`.
///
/// It is an error to take away a group that the entry does not carry, the
/// group `everyone`, or a group that no other entry carries.
pub fn edit_disassoc_group(kdflist: &mut KdfList, key: &str, names: &[&str]) -> (res: Result<
    (),
    Error,
>)
    requires
        old(kdflist).wf(),
    ensures
        edit_done(
            res,
            old(kdflist)@,
            final(kdflist)@,
            disassoc_group_outcome(old(kdflist)@, key@, strs_view(names@)),
        ),
        final(kdflist).wf(),
{
    let ghost before = kdflist@;
    let ghost all = strs_view(names@);
    if find_str(names, GROUP_EVERYONE).is_some() {
        return Err(Error::CannotDisassocGroup(GROUP_EVERYONE.to_owned()));
    }
    let i = match find_name(&kdflist.names, key) {
        Some(i) => i,
        None => {
            return Err(Error::KeyNotInKdfList(key.to_owned()));
        },
    };
    assert(before.entries[i as int] == kdflist.entries@[i as int]@);
    assert(before.entries[i as int].wf());
    let mut entry = kdflist.entries[i].copy();
    let mut k: usize = 0;
    proof {
        assert(all.skip(0) =~= all);
    }
    while k < names.len()
        invariant
            k <= names.len(),
            kdflist@ == before,
            before.wf(),
            all == strs_view(names@),
            0 <= i < before.entries.len(),
            first_index(all, is_name(GROUP_EVERYONE@)) is None,
            position(before.names, key@) == Some(i as int),
            entry.wf(),
            disassoc_all(entry@, all.skip(k as int)) == disassoc_all(
                before.entries[i as int],
                all,
            ),
        decreases names.len() - k,
    {
        let name = names[k];
        proof {
            assert(all.skip(k as int)[0] == name@);
            assert(all.skip(k as int).drop_first() =~= all.skip(k + 1));
        }
        if !remove_group(&mut entry, name) {
            return Err(Error::KeyNotInGroup(name.to_owned()));
        }
        k += 1;
    }
    let ghost after = before.entries.update(i as int, entry@);
    let ghost gone = is_unreferenced(after);
    let mut k: usize = 0;
    while k < names.len()
        invariant
            k <= names.len(),
            kdflist@ == before,
            before.wf(),
            all == strs_view(names@),
            0 <= i < before.entries.len(),
            after == before.entries.update(i as int, entry@),
            gone == is_unreferenced(after),
            first_index(all, is_name(GROUP_EVERYONE@)) is None,
            position(before.names, key@) == Some(i as int),
            disassoc_all(before.entries[i as int], all) == Ok::<KdfEntryView, ErrorView>(entry@),
            forall|j: int| 0 <= j < k ==> !gone(all[j]),
        decreases names.len() - k,
    {
        let name = names[k];
        assert(name@ == all[k as int]);
        let elsewhere = others_carry_group(kdflist, i, name);
        let here = entry_has_group(&entry, name);
        proof {
            if elsewhere {
                let j = choose|j: int|
                    0 <= j < before.entries.len() && j != i && (
                    #[trigger] before.entries[j]).has_group(name@);
                assert(after[j] == before.entries[j]);
                assert(any_has_group(after, name@));
            }
            if here {
                assert(after[i as int] == entry@);
                assert(any_has_group(after, name@));
            }
            if any_has_group(after, name@) {
                let j = choose|j: int|
                    0 <= j < after.len() && (#[trigger] after[j]).has_group(name@);
                if j != i {
                    assert(after[j] == before.entries[j]);
                }
            }
            assert(gone(all[k as int]) == !(elsewhere || here));
        }
        if !(elsewhere || here) {
            proof {
                lemma_first_index_is(all, gone, k as int);
            }
            return Err(Error::WouldDisassocLastKeyFromGroup(key.to_owned(), name.to_owned()));
        }
        k += 1;
    }
    proof {
        lemma_first_index_is(all, gone, k as int);
        lemma_update_keeps_wf(before, i as int, entry@);
    }
    kdflist.entries[i] = entry;
    proof {
        assert(kdflist@.entries =~= after);
    }
    Ok(())
}

/// Each of `entries` without the group `group`.
pub open spec fn strip_group(entries: Seq<KdfEntryView>, group: Seq<char>) -> Seq<KdfEntryView> {
    entries.map_values(|e: KdfEntryView| without_group(e, group))
}

/// `entries` after each of `names` was taken from all of them, in order.
/// Some entry must carry each group when its turn comes: the first that none
/// carries is reported.
pub open spec fn destroy_all(entries: Seq<KdfEntryView>, names: Seq<Seq<char>>) -> Result<
    Seq<KdfEntryView>,
    ErrorView,
>
    decreases names.len(),
{
    if names.len() == 0 {
        Ok(entries)
    } else if !any_has_group(entries, names[0]) {
        Err(ErrorView::GroupNotInKdfList(names[0]))
    } else {
        destroy_all(strip_group(entries, names[0]), names.drop_first())
    }
}

/// The test for a group that is built in and can never be destroyed.
pub open spec fn is_builtin() -> spec_fn(Seq<char>) -> bool {
    |g: Seq<char>| g == GROUP_EVERYONE@ || g == GROUP_ROOT@
}

/// What destroying the groups `names` makes of `list`.
///
/// None of the groups may be `everyone` or `root`: the first that is is
/// reported. Each group is taken from every entry.
pub open spec fn destroy_group_outcome(list: KdfListView, names: Seq<Seq<char>>) -> Result<
    KdfListView,
    ErrorView,
> {
    match first_index(names, is_builtin()) {
        Some(k) => Err(ErrorView::CannotDestroyGroup(names[k])),
        None => match destroy_all(list.entries, names) {
            Err(e) => Err(e),
            Ok(entries) => Ok(KdfListView { entries, ..list }),
        },
    }
}

/// Takes the group `group` from every entry of `kdflist`, and returns whether
/// any entry carried it.
pub fn strip_group_from_all(kdflist: &mut KdfList, group: &str) -> (found: bool)
    requires
        old(kdflist).wf(),
    ensures
        final(kdflist).wf(),
        final(kdflist)@.names == old(kdflist)@.names,
        final(kdflist)@.unknown == old(kdflist)@.unknown,
        final(kdflist)@.entries == strip_group(old(kdflist)@.entries, group@),
        found == old(kdflist)@.has_group(group@),
{
    let ghost before = kdflist@;
    let n = kdflist.entries.len();
    let mut found = false;
    let mut j: usize = 0;
    while j < n
        invariant
            j <= n,
            n == before.entries.len(),
            before.wf(),
            kdflist@.names == before.names,
            kdflist@.unknown == before.unknown,
            kdflist@.entries.len() == n,
            forall|a: int| 0 <= a < j ==> kdflist@.entries[a] == without_group(
                #[trigger] before.entries[a],
                group@,
            ),
            forall|a: int| j <= a < n ==> kdflist@.entries[a] == #[trigger] before.entries[a],
            found == (exists|a: int| 0 <= a < j && (#[trigger] before.entries[a]).has_group(group@)),
        decreases n - j,
    {
        let ghost current = kdflist@.entries;
        let mut entry = kdflist.entries.remove(j);
        assert(entry@ == before.entries[j as int]);
        assert(before.entries[j as int].wf());
        let had = remove_group(&mut entry, group);
        kdflist.entries.insert(j, entry);
        proof {
            assert(kdflist@.entries =~= current.update(j as int, entry@));
            if had {
                assert(before.entries[j as int].has_group(group@));
            }
        }
        found = found || had;
        j += 1;
    }
    proof {
        assert(kdflist@.entries =~= strip_group(before.entries, group@));
        assert forall|a: int| 0 <= a < kdflist@.entries.len() implies (
        #[trigger] kdflist@.entries[a]).wf() by {
            lemma_without_group_wf(before.entries[a], group@);
        }
    }
    found
}

/// Takes every group of `names` from every entry of `kdflist`.
///
/// It is an error to destroy the groups `everyone` and `root`, and to
/// destroy a group that no entry carries.
pub fn edit_destroy_group(kdflist: &mut KdfList, names: &[&str]) -> (res: Result<(), Error>)
    requires
        old(kdflist).wf(),
    ensures
        edit_done(
            res,
            old(kdflist)@,
            final(kdflist)@,
            destroy_group_outcome(old(kdflist)@, strs_view(names@)),
        ),
        final(kdflist).wf(),
{
    let ghost before = kdflist@;
    let ghost all = strs_view(names@);
    let ghost builtin = is_builtin();
    let mut k: usize = 0;
    while k < names.len()
        invariant
            k <= names.len(),
            kdflist@ == before,
            before.wf(),
            all == strs_view(names@),
            builtin == is_builtin(),
            forall|j: int| 0 <= j < k ==> !builtin(all[j]),
        decreases names.len() - k,
    {
        let name = names[k];
        assert(name@ == all[k as int]);
        if str_eq(name, GROUP_EVERYONE) || str_eq(name, GROUP_ROOT) {
            proof {
                assert(builtin(all[k as int]));
                lemma_first_index_is(all, builtin, k as int);
            }
            return Err(Error::CannotDestroyGroup(name.to_owned()));
        }
        k += 1;
    }
    proof {
        lemma_first_index_is(all, builtin, k as int);
        assert(all.skip(0) =~= all);
    }
    let mut work = kdflist.copy();
    let mut k: usize = 0;
    while k < names.len()
        invariant
            k <= names.len(),
            kdflist@ == before,
            before.wf(),
            all == strs_view(names@),
            first_index(all, is_builtin()) is None,
            work.wf(),
            work@.names == before.names,
            work@.unknown == before.unknown,
            destroy_all(work@.entries, all.skip(k as int)) == destroy_all(before.entries, all),
        decreases names.len() - k,
    {
        let name = names[k];
        proof {
            assert(all.skip(k as int)[0] == name@);
            assert(all.skip(k as int).drop_first() =~= all.skip(k + 1));
        }
        if !strip_group_from_all(&mut work, name) {
            return Err(Error::GroupNotInKdfList(name.to_owned()));
        }
        k += 1;
    }
    *kdflist = work;
    Ok(())
}

/// The registry that holds one entry, `key_name`, which gives `passphrase`
/// access to `chain`.
pub open spec fn initial_list(
    algorithm: KdfAlgorithm,
    salt: Seq<u8>,
    chain: KeyChainView,
    passphrase: Seq<u8>,
    key_name: Seq<char>,
    now: Timestamp,
) -> KdfListView {
    KdfListView {
        names: seq![key_name],
        entries: seq![created_entry(algorithm, passphrase, salt, chain, now, None, None)],
        unknown: Seq::empty(),
    }
}

/// What a registry is initialised with: one entry, under the name given and
/// of the algorithm given, made at `now` and neither changed nor used since,
/// which carries the groups of `chain`, and from which `passphrase` derives
/// `chain`.
pub proof fn lemma_initial_list(
    algorithm: KdfAlgorithm,
    salt: Seq<u8>,
    chain: KeyChainView,
    passphrase: Seq<u8>,
    key_name: Seq<char>,
    now: Timestamp,
)
    requires
        chain.wf(),
    ensures
        ({
            let list = initial_list(algorithm, salt, chain, passphrase, key_name, now);
            &&& list.wf()
            &&& list.names == seq![key_name]
            &&& list.entries.len() == 1
            &&& list.entries[0].algorithm == algorithm.token()
            &&& list.entries[0].created == now
            &&& list.entries[0].updated is None
            &&& list.entries[0].used is None
            &&& list.entries[0].group_names == chain.names
            &&& derived_chain(algorithm, passphrase, list.entries) == Some(chain)
        }),
{
    let list = initial_list(algorithm, salt, chain, passphrase, key_name, now);
    lemma_created_entry_derives(algorithm, passphrase, salt, chain, now, None, None);
    assert(first_match(algorithm, passphrase, list.entries) == Some(0int));
}

/// Makes the registry that holds one entry, `key_name`, which gives
/// `passphrase` access to `chain`.
pub fn new_kdflist(
    algorithm: KdfAlgorithm,
    salt: &HashId,
    chain: &KeyChain,
    passphrase: &[u8],
    key_name: &str,
    now: Timestamp,
) -> (kdflist: KdfList)
    requires
        chain.wf(),
    ensures
        kdflist@ == initial_list(algorithm, salt@, chain@, passphrase@, key_name@, now),
        kdflist.wf(),
        derived_chain(algorithm, passphrase@, kdflist@.entries) == Some(chain@),
{
    let entry = create_key_with(algorithm, salt, passphrase, chain, now, None, None);
    let mut kdflist = KdfList::new();
    kdflist.names.push(key_name.to_owned());
    kdflist.entries.push(entry);
    proof {
        assert(kdflist@.names =~= seq![key_name@]);
        assert(kdflist@.entries =~= seq![entry@]);
        assert(kdflist@.unknown =~= Seq::<u8>::empty());
        assert(first_match(algorithm, passphrase@, kdflist@.entries) == Some(0int));
    }
    kdflist
}

} // verus!
