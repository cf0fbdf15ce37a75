//! What every edit of the registry preserves.
//!
//! Two things must never be lost by editing the registry: the way in, and the
//! agreement between the entries. The way in is lost when the registry is
//! left without entries, or a group without an entry that carries it: the
//! keys behind it could then never be derived again. The agreement is lost
//! when two entries that carry the same group unwrap different keys for it.
//!
//! A third thing is kept as well: what is written can be read again. An edit
//! of a registry that is read back as it is written leaves one that is,
//! where the names it is given are short enough and there is room for what
//! it adds.

use crate::defs::{lemma_first_index, lemma_position, position};
use crate::server::kdf::{
    any_has_group, chain_insert, created_entry, derived_chain, entry_derived, entry_matches,
    first_match, lemma_created_entry_derives, lemma_first_match, unwrapped, KdfAlgorithm,
    KdfEntryView, KdfListView, KeyChainView, Timestamp,
};
use crate::server::edits::{
    add_key_outcome, assoc_all, assoc_group_outcome, chain_insert_all, change_key_outcome,
    change_source, create_group_outcome, del_key_outcome, derive_key_chain_outcome,
    destroy_all, destroy_group_outcome, disassoc_all, disassoc_group_outcome, initial_list,
    is_missing, is_orphan, is_unreferenced, lemma_without_group_wf, named_or_only, select_keys,
    strip_group, without_group,
};
use crate::server::kdf::point_in_time;
use crate::server::wire::{
    lemma_empty_tail_storable, lemma_own_names_storable, storable_but_for_types, storable_fields,
    storable_name, storable_names, MAX_COLLECT, STRUCT,
};
use vstd::prelude::*;

verus! {

/// Whether every group that some entry of `before` carries is carried by
/// some entry of `after`, but for the groups in `given_up`.
pub open spec fn keeps_groups(
    before: KdfListView,
    after: KdfListView,
    given_up: Seq<Seq<char>>,
) -> bool {
    forall|g: Seq<char>|
        #![trigger after.has_group(g)]
        before.has_group(g) && !given_up.contains(g) ==> after.has_group(g)
}

/// Whether `after` still has an entry and still carries every group that
/// `before` carried.
pub open spec fn no_lockout(before: KdfListView, after: KdfListView) -> bool {
    after.names.len() > 0 && keeps_groups(before, after, Seq::empty())
}

/// Replacing an entry by one that carries at least the same groups loses no
/// group.
pub proof fn lemma_update_keeps_groups(list: KdfListView, i: int, entry: KdfEntryView)
    requires
        0 <= i < list.entries.len(),
        forall|g: Seq<char>| list.entries[i].has_group(g) ==> #[trigger] entry.has_group(g),
    ensures
        keeps_groups(
            list,
            KdfListView { entries: list.entries.update(i, entry), ..list },
            Seq::empty(),
        ),
{
    let after = list.entries.update(i, entry);
    assert forall|g: Seq<char>| any_has_group(list.entries, g) implies #[trigger] any_has_group(
        after,
        g,
    ) by {
        let j = choose|j: int|
            0 <= j < list.entries.len() && (#[trigger] list.entries[j]).has_group(g);
        if j == i {
            assert(after[i].has_group(g));
        } else {
            assert(after[j] == list.entries[j]);
        }
    }
}

/// A registry that was just initialised has an entry.
pub proof fn lemma_init_no_lockout(
    algorithm: KdfAlgorithm,
    salt: Seq<u8>,
    chain: KeyChainView,
    passphrase: Seq<u8>,
    key_name: Seq<char>,
    now: Timestamp,
)
    ensures
        initial_list(algorithm, salt, chain, passphrase, key_name, now).names.len() == 1,
{
}

/// Adding an entry locks nobody out.
pub proof fn lemma_add_key_no_lockout(
    list: KdfListView,
    algorithm: KdfAlgorithm,
    salt: Seq<u8>,
    old_passphrase: Seq<u8>,
    new_passphrase: Seq<u8>,
    new_name: Seq<char>,
    now: Timestamp,
)
    requires
        add_key_outcome(list, algorithm, salt, old_passphrase, new_passphrase, new_name, now)
            is Ok,
    ensures
        no_lockout(
            list,
            add_key_outcome(
                list,
                algorithm,
                salt,
                old_passphrase,
                new_passphrase,
                new_name,
                now,
            )->Ok_0,
        ),
{
    let after = add_key_outcome(
        list,
        algorithm,
        salt,
        old_passphrase,
        new_passphrase,
        new_name,
        now,
    )->Ok_0;
    assert forall|g: Seq<char>| list.has_group(g) implies #[trigger] after.has_group(g) by {
        let j = choose|j: int|
            0 <= j < list.entries.len() && (#[trigger] list.entries[j]).has_group(g);
        assert(after.entries[j] == list.entries[j]);
    }
}

/// Deleting an entry locks nobody out: an entry is left, and every group
/// that the deleted entry carried is carried by another.
pub proof fn lemma_del_key_no_lockout(list: KdfListView, name: Seq<char>)
    requires
        list.wf(),
        del_key_outcome(list, name) is Ok,
    ensures
        no_lockout(list, del_key_outcome(list, name)->Ok_0),
{
    let after = del_key_outcome(list, name)->Ok_0;
    lemma_position(list.names, name);
    let i = position(list.names, name)->Some_0;
    let groups = list.entries[i].group_names;
    lemma_first_index(groups, is_orphan(list.entries, i));
    assert forall|g: Seq<char>| list.has_group(g) implies #[trigger] after.has_group(g) by {
        let j = choose|j: int|
            0 <= j < list.entries.len() && (#[trigger] list.entries[j]).has_group(g);
        let other = if j == i {
            lemma_position(groups, g);
            let k = position(groups, g)->Some_0;
            assert(!is_orphan(list.entries, i)(groups[k]));
            choose|o: int|
                0 <= o < list.entries.len() && o != i && (#[trigger] list.entries[o]).has_group(g)
        } else {
            j
        };
        let moved = if other < i {
            other
        } else {
            other - 1
        };
        assert(after.entries[moved] == list.entries[other]);
    }
}

/// Changing a passphrase locks nobody out: the entry keeps its groups.
pub proof fn lemma_change_key_no_lockout(
    list: KdfListView,
    algorithm: KdfAlgorithm,
    salt: Seq<u8>,
    old_passphrase: Seq<u8>,
    new_passphrase: Seq<u8>,
    name: Option<Seq<char>>,
    allow_other: bool,
    now: Timestamp,
)
    requires
        list.wf(),
        change_key_outcome(
            list,
            algorithm,
            salt,
            old_passphrase,
            new_passphrase,
            name,
            allow_other,
            now,
        ) is Ok,
    ensures
        no_lockout(
            list,
            change_key_outcome(
                list,
                algorithm,
                salt,
                old_passphrase,
                new_passphrase,
                name,
                allow_other,
                now,
            )->Ok_0,
        ),
{
    let after = change_key_outcome(
        list,
        algorithm,
        salt,
        old_passphrase,
        new_passphrase,
        name,
        allow_other,
        now,
    )->Ok_0;
    let real_name = named_or_only(list, name)->Ok_0;
    lemma_position(list.names, real_name);
    let i = position(list.names, real_name)->Some_0;
    lemma_update_keeps_groups(list, i, after.entries[i]);
}

/// Deriving a key chain locks nobody out: nothing changes but a time.
pub proof fn lemma_derive_key_chain_no_lockout(
    list: KdfListView,
    algorithm: KdfAlgorithm,
    passphrase: Seq<u8>,
    now: Timestamp,
)
    requires
        list.wf(),
        derive_key_chain_outcome(list, algorithm, passphrase, now) is Ok,
    ensures
        no_lockout(list, derive_key_chain_outcome(list, algorithm, passphrase, now)->Ok_0.0),
{
    let after = derive_key_chain_outcome(list, algorithm, passphrase, now)->Ok_0.0;
    lemma_first_match(algorithm, passphrase, list.entries);
    let i = first_match(algorithm, passphrase, list.entries)->Some_0;
    lemma_update_keeps_groups(list, i, after.entries[i]);
}

/// A chain that was given a key still holds a key for every group that it
/// held one for.
pub proof fn lemma_chain_insert_keeps(chain: KeyChainView, name: Seq<char>, key: Seq<u8>)
    requires
        chain.names.len() == chain.keys.len(),
    ensures
        chain_insert(chain, name, key).names.len() == chain_insert(chain, name, key).keys.len(),
        forall|g: Seq<char>|
            position(chain.names, g) is Some ==> position(
                #[trigger] chain_insert(chain, name, key).names,
                g,
            ) is Some,
{
    let after = chain_insert(chain, name, key);
    lemma_position(chain.names, name);
    assert forall|g: Seq<char>| position(chain.names, g) is Some implies position(
        after.names,
        g,
    ) is Some by {
        lemma_position(chain.names, g);
        lemma_position(after.names, g);
        let i = position(chain.names, g)->Some_0;
        assert(after.names[i] == chain.names[i]);
    }
}

/// A chain that was given keys still holds a key for every group that it
/// held one for.
pub proof fn lemma_chain_insert_all_keeps(
    chain: KeyChainView,
    names: Seq<Seq<char>>,
    keys: Seq<Seq<u8>>,
)
    requires
        chain.names.len() == chain.keys.len(),
    ensures
        forall|g: Seq<char>|
            position(chain.names, g) is Some ==> position(
                #[trigger] chain_insert_all(chain, names, keys).names,
                g,
            ) is Some,
    decreases names.len(),
{
    if names.len() > 0 && keys.len() > 0 {
        let next = chain_insert(chain, names[0], keys[0]);
        lemma_chain_insert_keeps(chain, names[0], keys[0]);
        lemma_chain_insert_all_keeps(next, names.drop_first(), keys.drop_first());
        assert forall|g: Seq<char>| position(chain.names, g) is Some implies position(
            chain_insert_all(chain, names, keys).names,
            g,
        ) is Some by {
            assert(position(next.names, g) is Some);
        }
    }
}

/// Creating groups locks nobody out: the entry keeps the groups it had.
pub proof fn lemma_create_group_no_lockout(
    list: KdfListView,
    algorithm: KdfAlgorithm,
    passphrase: Seq<u8>,
    names: Seq<Seq<char>>,
    fresh: Seq<Seq<u8>>,
)
    requires
        list.wf(),
        create_group_outcome(list, algorithm, passphrase, names, fresh) is Ok,
    ensures
        no_lockout(list, create_group_outcome(list, algorithm, passphrase, names, fresh)->Ok_0),
{
    let after = create_group_outcome(list, algorithm, passphrase, names, fresh)->Ok_0;
    lemma_first_match(algorithm, passphrase, list.entries);
    let i = first_match(algorithm, passphrase, list.entries)->Some_0;
    let chain = unwrapped(algorithm, passphrase, list.entries[i]);
    assert(list.entries[i].wf());
    lemma_chain_insert_all_keeps(chain, names, fresh);
    lemma_update_keeps_groups(list, i, after.entries[i]);
}

/// A chain that was given the keys of another still holds a key for every
/// group that it held one for.
pub proof fn lemma_assoc_all_keeps(
    chain: KeyChainView,
    source: KeyChainView,
    names: Seq<Seq<char>>,
)
    requires
        chain.names.len() == chain.keys.len(),
        assoc_all(chain, source, names) is Ok,
    ensures
        forall|g: Seq<char>|
            position(chain.names, g) is Some ==> position(
                #[trigger] assoc_all(chain, source, names)->Ok_0.names,
                g,
            ) is Some,
    decreases names.len(),
{
    if names.len() > 0 {
        let key = source.key(names[0])->Some_0;
        let next = chain_insert(chain, names[0], key);
        lemma_chain_insert_keeps(chain, names[0], key);
        lemma_assoc_all_keeps(next, source, names.drop_first());
        assert forall|g: Seq<char>| position(chain.names, g) is Some implies position(
            assoc_all(chain, source, names)->Ok_0.names,
            g,
        ) is Some by {
            assert(position(next.names, g) is Some);
        }
    }
}

/// Giving an entry the groups of another locks nobody out.
pub proof fn lemma_assoc_group_no_lockout(
    list: KdfListView,
    algorithm: KdfAlgorithm,
    src_passphrase: Seq<u8>,
    dst_passphrase: Seq<u8>,
    names: Seq<Seq<char>>,
)
    requires
        list.wf(),
        assoc_group_outcome(list, algorithm, src_passphrase, dst_passphrase, names) is Ok,
    ensures
        no_lockout(
            list,
            assoc_group_outcome(list, algorithm, src_passphrase, dst_passphrase, names)->Ok_0,
        ),
{
    let after = assoc_group_outcome(list, algorithm, src_passphrase, dst_passphrase, names)->Ok_0;
    let source = derived_chain(algorithm, src_passphrase, list.entries)->Some_0;
    lemma_first_match(algorithm, dst_passphrase, list.entries);
    let i = first_match(algorithm, dst_passphrase, list.entries)->Some_0;
    let chain = unwrapped(algorithm, dst_passphrase, list.entries[i]);
    assert(list.entries[i].wf());
    lemma_assoc_all_keeps(chain, source, names);
    lemma_update_keeps_groups(list, i, after.entries[i]);
}

/// An entry from which groups were taken carries every other group that it
/// carried.
pub proof fn lemma_disassoc_all_keeps(entry: KdfEntryView, names: Seq<Seq<char>>)
    requires
        entry.wf(),
        disassoc_all(entry, names) is Ok,
    ensures
        forall|g: Seq<char>|
            entry.has_group(g) && !names.contains(g) ==> (#[trigger] disassoc_all(
                entry,
                names,
            )->Ok_0.has_group(g)),
    decreases names.len(),
{
    if names.len() > 0 {
        let next = without_group(entry, names[0]);
        lemma_without_group_wf(entry, names[0]);
        lemma_disassoc_all_keeps(next, names.drop_first());
        assert forall|g: Seq<char>| entry.has_group(g) && !names.contains(g) implies (
        #[trigger] disassoc_all(entry, names)->Ok_0.has_group(g)) by {
            assert(names[0] != g);
            assert(next.has_group(g));
            if names.drop_first().contains(g) {
                let k = choose|k: int|
                    0 <= k < names.drop_first().len() && names.drop_first()[k] == g;
                assert(names[k + 1] == g);
            }
        }
    }
}

/// Taking groups from an entry locks nobody out: every group that was taken
/// is still carried by some entry, and no other group is touched.
pub proof fn lemma_disassoc_group_no_lockout(
    list: KdfListView,
    key: Seq<char>,
    names: Seq<Seq<char>>,
)
    requires
        list.wf(),
        disassoc_group_outcome(list, key, names) is Ok,
    ensures
        no_lockout(list, disassoc_group_outcome(list, key, names)->Ok_0),
{
    let after = disassoc_group_outcome(list, key, names)->Ok_0;
    lemma_position(list.names, key);
    let i = position(list.names, key)->Some_0;
    let entry = disassoc_all(list.entries[i], names)->Ok_0;
    assert(list.entries[i].wf());
    lemma_disassoc_all_keeps(list.entries[i], names);
    lemma_first_index(names, is_unreferenced(after.entries));
    assert forall|g: Seq<char>| list.has_group(g) implies #[trigger] after.has_group(g) by {
        if names.contains(g) {
            let k = choose|k: int| 0 <= k < names.len() && names[k] == g;
            assert(!is_unreferenced(after.entries)(names[k]));
        } else {
            let j = choose|j: int|
                0 <= j < list.entries.len() && (#[trigger] list.entries[j]).has_group(g);
            if j == i {
                assert(after.entries[i] == entry);
                assert(after.entries[i].has_group(g));
            } else {
                assert(after.entries[j] == list.entries[j]);
            }
        }
    }
}

/// Entries from which groups were taken carry every other group that they
/// carried.
pub proof fn lemma_destroy_all_keeps(entries: Seq<KdfEntryView>, names: Seq<Seq<char>>)
    requires
        forall|i: int| 0 <= i < entries.len() ==> (#[trigger] entries[i]).wf(),
        destroy_all(entries, names) is Ok,
    ensures
        destroy_all(entries, names)->Ok_0.len() == entries.len(),
        forall|g: Seq<char>|
            any_has_group(entries, g) && !names.contains(g) ==> #[trigger] any_has_group(
                destroy_all(entries, names)->Ok_0,
                g,
            ),
    decreases names.len(),
{
    if names.len() > 0 {
        let next = strip_group(entries, names[0]);
        assert forall|i: int| 0 <= i < next.len() implies (#[trigger] next[i]).wf() by {
            lemma_without_group_wf(entries[i], names[0]);
        }
        lemma_destroy_all_keeps(next, names.drop_first());
        assert forall|g: Seq<char>|
            any_has_group(entries, g) && !names.contains(g) implies #[trigger] any_has_group(
            destroy_all(entries, names)->Ok_0,
            g,
        ) by {
            assert(names[0] != g);
            let j = choose|j: int| 0 <= j < entries.len() && (#[trigger] entries[j]).has_group(g);
            lemma_without_group_wf(entries[j], names[0]);
            assert(next[j].has_group(g));
            if names.drop_first().contains(g) {
                let k = choose|k: int|
                    0 <= k < names.drop_first().len() && names.drop_first()[k] == g;
                assert(names[k + 1] == g);
            }
        }
    }
}

/// Destroying groups leaves every entry in place, and every group but those
/// destroyed with an entry that carries it.
pub proof fn lemma_destroy_group_no_lockout(list: KdfListView, names: Seq<Seq<char>>)
    requires
        list.wf(),
        destroy_group_outcome(list, names) is Ok,
    ensures
        destroy_group_outcome(list, names)->Ok_0.names == list.names,
        destroy_group_outcome(list, names)->Ok_0.entries.len() == list.entries.len(),
        keeps_groups(list, destroy_group_outcome(list, names)->Ok_0, names),
{
    lemma_destroy_all_keeps(list.entries, names);
}

/// The key that `passphrase` unwraps from `entry` for `group` under
/// `algorithm`.
pub open spec fn group_key(
    algorithm: KdfAlgorithm,
    passphrase: Seq<u8>,
    entry: KdfEntryView,
    group: Seq<char>,
) -> Option<Seq<u8>> {
    unwrapped(algorithm, passphrase, entry).key(group)
}

/// Whether the entries of `list` agree, `book` holding at the position of
/// each entry the passphrase that it was made for: each passphrase matches
/// its entry, and any two entries that carry the same group unwrap the same
/// key for it.
pub open spec fn consistent(
    algorithm: KdfAlgorithm,
    list: KdfListView,
    book: Seq<Seq<u8>>,
) -> bool {
    &&& book.len() == list.entries.len()
    &&& forall|i: int|
        0 <= i < list.entries.len() ==> entry_matches(
            algorithm,
            #[trigger] book[i],
            list.entries[i],
        )
    &&& forall|i: int, j: int, g: Seq<char>|
        #![trigger list.entries[i].has_group(g), list.entries[j].has_group(g)]
        0 <= i < list.entries.len() && 0 <= j < list.entries.len() && list.entries[i].has_group(g)
            && list.entries[j].has_group(g) ==> group_key(algorithm, book[i], list.entries[i], g)
            == group_key(algorithm, book[j], list.entries[j], g)
}

/// A registry that was just initialised is consistent.
pub proof fn lemma_init_consistent(
    algorithm: KdfAlgorithm,
    salt: Seq<u8>,
    chain: KeyChainView,
    passphrase: Seq<u8>,
    key_name: Seq<char>,
    now: Timestamp,
)
    requires
        chain.wf(),
    ensures
        consistent(
            algorithm,
            initial_list(algorithm, salt, chain, passphrase, key_name, now),
            seq![passphrase],
        ),
{
    lemma_created_entry_derives(algorithm, passphrase, salt, chain, now, None, None);
}

/// Whether `passphrase` derives, from the entry of `list` that it matches
/// first, the key that the passphrase of that entry derives.
pub open spec fn derives_as_owner(
    algorithm: KdfAlgorithm,
    list: KdfListView,
    book: Seq<Seq<u8>>,
    passphrase: Seq<u8>,
) -> bool {
    first_match(algorithm, passphrase, list.entries) matches Some(m) ==> entry_derived(
        algorithm,
        passphrase,
        list.entries[m],
    ) == entry_derived(algorithm, book[m], list.entries[m])
}

/// The entry made for a chain that some entry of a consistent registry
/// unwraps agrees with every entry of that registry.
proof fn lemma_entry_from_member_agrees(
    list: KdfListView,
    book: Seq<Seq<u8>>,
    m: int,
    algorithm: KdfAlgorithm,
    salt: Seq<u8>,
    new_passphrase: Seq<u8>,
    created: Timestamp,
    updated: Option<Timestamp>,
    used: Option<Timestamp>,
    j: int,
    g: Seq<char>,
)
    requires
        list.wf(),
        consistent(algorithm, list, book),
        0 <= m < list.entries.len(),
        0 <= j < list.entries.len(),
        list.entries[j].has_group(g),
        list.entries[m].has_group(g),
    ensures
        group_key(
            algorithm,
            new_passphrase,
            created_entry(
                algorithm,
                new_passphrase,
                salt,
                unwrapped(algorithm, book[m], list.entries[m]),
                created,
                updated,
                used,
            ),
            g,
        ) == group_key(algorithm, book[j], list.entries[j], g),
{
    let chain = unwrapped(algorithm, book[m], list.entries[m]);
    assert(list.entries[m].wf());
    lemma_created_entry_derives(algorithm, new_passphrase, salt, chain, created, updated, used);
}

/// Adding an entry keeps a consistent registry consistent, as long as the
/// old passphrase derives, from the entry that it matches, the key that the
/// passphrase of that entry derives.
pub proof fn lemma_add_key_consistent(
    list: KdfListView,
    book: Seq<Seq<u8>>,
    algorithm: KdfAlgorithm,
    salt: Seq<u8>,
    old_passphrase: Seq<u8>,
    new_passphrase: Seq<u8>,
    new_name: Seq<char>,
    now: Timestamp,
)
    requires
        list.wf(),
        consistent(algorithm, list, book),
        derives_as_owner(algorithm, list, book, old_passphrase),
        add_key_outcome(list, algorithm, salt, old_passphrase, new_passphrase, new_name, now)
            is Ok,
    ensures
        consistent(
            algorithm,
            add_key_outcome(
                list,
                algorithm,
                salt,
                old_passphrase,
                new_passphrase,
                new_name,
                now,
            )->Ok_0,
            book.push(new_passphrase),
        ),
{
    let after = add_key_outcome(
        list,
        algorithm,
        salt,
        old_passphrase,
        new_passphrase,
        new_name,
        now,
    )->Ok_0;
    let book2 = book.push(new_passphrase);
    lemma_first_match(algorithm, old_passphrase, list.entries);
    let m = first_match(algorithm, old_passphrase, list.entries)->Some_0;
    let n = list.entries.len() as int;
    let chain = unwrapped(algorithm, old_passphrase, list.entries[m]);
    assert(chain == unwrapped(algorithm, book[m], list.entries[m]));
    assert(list.entries[m].wf());
    lemma_created_entry_derives(algorithm, new_passphrase, salt, chain, now, None, None);
    let added = after.entries[n];
    assert(added.group_names == list.entries[m].group_names);
    assert forall|i: int| 0 <= i < after.entries.len() implies entry_matches(
        algorithm,
        #[trigger] book2[i],
        after.entries[i],
    ) by {
        if i < n {
            assert(after.entries[i] == list.entries[i]);
            assert(book2[i] == book[i]);
        }
    }
    assert forall|i: int, j: int, g: Seq<char>|
        0 <= i < after.entries.len() && 0 <= j < after.entries.len() && (
        #[trigger] after.entries[i].has_group(g)) && (#[trigger] after.entries[j].has_group(
            g,
        )) implies group_key(algorithm, book2[i], after.entries[i], g) == group_key(
        algorithm,
        book2[j],
        after.entries[j],
        g,
    ) by {
        if i < n {
            assert(after.entries[i] == list.entries[i]);
            assert(book2[i] == book[i]);
            assert(list.entries[i].has_group(g));
        }
        if j < n {
            assert(after.entries[j] == list.entries[j]);
            assert(book2[j] == book[j]);
            assert(list.entries[j].has_group(g));
        }
        if i == n || j == n {
            assert(list.entries[m].has_group(g));
        }
        if i == n && j < n {
            lemma_entry_from_member_agrees(
                list,
                book,
                m,
                algorithm,
                salt,
                new_passphrase,
                now,
                None,
                None,
                j,
                g,
            );
        }
        if j == n && i < n {
            lemma_entry_from_member_agrees(
                list,
                book,
                m,
                algorithm,
                salt,
                new_passphrase,
                now,
                None,
                None,
                i,
                g,
            );
        }
    }
}

/// Whether `old_passphrase`, where it is used to change the passphrase of
/// the entry at position `i`, derives the key that the passphrase of the
/// entry derives from which the keys are taken: the entry at `i` if it
/// matches that, and else the first entry that it matches.
pub open spec fn changes_as_owner(
    algorithm: KdfAlgorithm,
    list: KdfListView,
    book: Seq<Seq<u8>>,
    i: int,
    old_passphrase: Seq<u8>,
) -> bool {
    if entry_matches(algorithm, old_passphrase, list.entries[i]) {
        entry_derived(algorithm, old_passphrase, list.entries[i]) == entry_derived(
            algorithm,
            book[i],
            list.entries[i],
        )
    } else {
        derives_as_owner(algorithm, list, book, old_passphrase)
    }
}

/// Changing a passphrase keeps a consistent registry consistent, as long as
/// the old passphrase derives, from the entry that the keys are taken from,
/// the key that the passphrase of that entry derives.
pub proof fn lemma_change_key_consistent(
    list: KdfListView,
    book: Seq<Seq<u8>>,
    algorithm: KdfAlgorithm,
    salt: Seq<u8>,
    old_passphrase: Seq<u8>,
    new_passphrase: Seq<u8>,
    name: Option<Seq<char>>,
    allow_other: bool,
    now: Timestamp,
)
    requires
        list.wf(),
        consistent(algorithm, list, book),
        change_key_outcome(
            list,
            algorithm,
            salt,
            old_passphrase,
            new_passphrase,
            name,
            allow_other,
            now,
        ) is Ok,
        changes_as_owner(
            algorithm,
            list,
            book,
            position(list.names, named_or_only(list, name)->Ok_0)->Some_0,
            old_passphrase,
        ),
    ensures
        consistent(
            algorithm,
            change_key_outcome(
                list,
                algorithm,
                salt,
                old_passphrase,
                new_passphrase,
                name,
                allow_other,
                now,
            )->Ok_0,
            book.update(
                position(list.names, named_or_only(list, name)->Ok_0)->Some_0,
                new_passphrase,
            ),
        ),
{
    let after = change_key_outcome(
        list,
        algorithm,
        salt,
        old_passphrase,
        new_passphrase,
        name,
        allow_other,
        now,
    )->Ok_0;
    let real_name = named_or_only(list, name)->Ok_0;
    lemma_position(list.names, real_name);
    let i = position(list.names, real_name)->Some_0;
    let book2 = book.update(i, new_passphrase);
    let old_entry = list.entries[i];
    let groups = old_entry.group_names;
    let source = change_source(list, algorithm, i, old_passphrase, allow_other)->Ok_0;
    lemma_first_match(algorithm, old_passphrase, list.entries);
    let s = if entry_matches(algorithm, old_passphrase, old_entry) {
        i
    } else {
        first_match(algorithm, old_passphrase, list.entries)->Some_0
    };
    assert(source == unwrapped(algorithm, book[s], list.entries[s]));
    assert(list.entries[s].wf());
    assert(old_entry.wf());
    let keys = select_keys(groups, source)->Ok_0;
    let chain = KeyChainView { names: groups, keys };
    lemma_first_index(groups, is_missing(source));
    assert forall|k: int| 0 <= k < groups.len() implies source.key(#[trigger] groups[k]) is Some
        && keys[k] == source.key(groups[k])->Some_0 && keys[k].len() == 32 by {
        assert(!is_missing(source)(groups[k]));
        lemma_position(source.names, groups[k]);
    }
    assert(chain.wf());
    lemma_created_entry_derives(
        algorithm,
        new_passphrase,
        salt,
        chain,
        old_entry.created,
        Some(now),
        old_entry.used,
    );
    let changed = after.entries[i];
    assert(unwrapped(algorithm, new_passphrase, changed) == chain);
    // The key that the changed entry unwraps for each of its groups is the
    // key that the source entry unwraps for it.
    assert forall|g: Seq<char>| changed.has_group(g) implies list.entries[s].has_group(g)
        && group_key(algorithm, new_passphrase, changed, g) == group_key(
        algorithm,
        book[s],
        list.entries[s],
        g,
    ) by {
        lemma_position(groups, g);
        let k = position(groups, g)->Some_0;
        assert(source.key(groups[k]) is Some);
    }
    assert forall|a: int| 0 <= a < after.entries.len() implies entry_matches(
        algorithm,
        #[trigger] book2[a],
        after.entries[a],
    ) by {
        if a != i {
            assert(after.entries[a] == list.entries[a]);
            assert(book2[a] == book[a]);
        }
    }
    assert forall|a: int, b: int, g: Seq<char>|
        0 <= a < after.entries.len() && 0 <= b < after.entries.len() && (
        #[trigger] after.entries[a].has_group(g)) && (#[trigger] after.entries[b].has_group(
            g,
        )) implies group_key(algorithm, book2[a], after.entries[a], g) == group_key(
        algorithm,
        book2[b],
        after.entries[b],
        g,
    ) by {
        if a != i {
            assert(after.entries[a] == list.entries[a]);
            assert(book2[a] == book[a]);
            assert(list.entries[a].has_group(g));
        }
        if b != i {
            assert(after.entries[b] == list.entries[b]);
            assert(book2[b] == book[b]);
            assert(list.entries[b].has_group(g));
        }
        if a == i || b == i {
            assert(list.entries[s].has_group(g));
        }
    }
}

/// Whether each entry of `list` has room for `n` more groups.
pub open spec fn room_for_groups(list: KdfListView, n: nat) -> bool {
    forall|i: int|
        0 <= i < list.entries.len() ==> (#[trigger] list.entries[i]).group_names.len() + n
            <= MAX_COLLECT
}

/// Whether each of `names` is short enough to be read back.
pub open spec fn short_names(names: Seq<Seq<char>>) -> bool {
    forall|i: int| 0 <= i < names.len() ==> storable_name(#[trigger] names[i])
}

/// A registry that was just initialised is read back as it is written,
/// where its names are short enough and it was made at a point in time.
pub proof fn lemma_init_readable(
    algorithm: KdfAlgorithm,
    salt: Seq<u8>,
    chain: KeyChainView,
    passphrase: Seq<u8>,
    key_name: Seq<char>,
    now: Timestamp,
)
    requires
        storable_name(key_name),
        storable_names(chain.names),
        point_in_time(now.secs, now.nanos),
    ensures
        storable_but_for_types(initial_list(algorithm, salt, chain, passphrase, key_name, now)),
{
    lemma_own_names_storable();
    lemma_empty_tail_storable((STRUCT + 7) as u8);
    lemma_empty_tail_storable((STRUCT + 1) as u8);
}

/// Adding an entry to a registry that is read back as it is written leaves
/// one that is, where the name of the entry is short enough, the registry
/// has room for it, and it is made at a point in time.
pub proof fn lemma_add_key_readable(
    list: KdfListView,
    algorithm: KdfAlgorithm,
    salt: Seq<u8>,
    old_passphrase: Seq<u8>,
    new_passphrase: Seq<u8>,
    new_name: Seq<char>,
    now: Timestamp,
)
    requires
        list.wf(),
        storable_but_for_types(list),
        storable_name(new_name),
        list.names.len() < MAX_COLLECT,
        point_in_time(now.secs, now.nanos),
        add_key_outcome(list, algorithm, salt, old_passphrase, new_passphrase, new_name, now)
            is Ok,
    ensures
        storable_but_for_types(
            add_key_outcome(
                list,
                algorithm,
                salt,
                old_passphrase,
                new_passphrase,
                new_name,
                now,
            )->Ok_0,
        ),
{
    let after = add_key_outcome(
        list,
        algorithm,
        salt,
        old_passphrase,
        new_passphrase,
        new_name,
        now,
    )->Ok_0;
    let n = list.entries.len() as int;
    lemma_first_match(algorithm, old_passphrase, list.entries);
    let m = first_match(algorithm, old_passphrase, list.entries)->Some_0;
    assert(storable_fields(list.entries[m]));
    lemma_own_names_storable();
    lemma_empty_tail_storable((STRUCT + 7) as u8);
    assert forall|i: int| 0 <= i < after.entries.len() implies storable_fields(
        #[trigger] after.entries[i],
    ) by {
        if i < n {
            assert(after.entries[i] == list.entries[i]);
        }
    }
    assert forall|i: int| 0 <= i < after.names.len() implies storable_name(
        #[trigger] after.names[i],
    ) by {
        if i < n {
            assert(after.names[i] == list.names[i]);
        }
    }
}

/// Changing a passphrase in a registry that is read back as it is written
/// leaves one that is, where the change is made at a point in time.
pub proof fn lemma_change_key_readable(
    list: KdfListView,
    algorithm: KdfAlgorithm,
    salt: Seq<u8>,
    old_passphrase: Seq<u8>,
    new_passphrase: Seq<u8>,
    name: Option<Seq<char>>,
    allow_other: bool,
    now: Timestamp,
)
    requires
        list.wf(),
        storable_but_for_types(list),
        point_in_time(now.secs, now.nanos),
        change_key_outcome(
            list,
            algorithm,
            salt,
            old_passphrase,
            new_passphrase,
            name,
            allow_other,
            now,
        ) is Ok,
    ensures
        storable_but_for_types(
            change_key_outcome(
                list,
                algorithm,
                salt,
                old_passphrase,
                new_passphrase,
                name,
                allow_other,
                now,
            )->Ok_0,
        ),
{
    let after = change_key_outcome(
        list,
        algorithm,
        salt,
        old_passphrase,
        new_passphrase,
        name,
        allow_other,
        now,
    )->Ok_0;
    let real_name = named_or_only(list, name)->Ok_0;
    lemma_position(list.names, real_name);
    let k = position(list.names, real_name)->Some_0;
    lemma_own_names_storable();
    lemma_empty_tail_storable((STRUCT + 7) as u8);
    assert forall|i: int| 0 <= i < after.entries.len() implies storable_fields(
        #[trigger] after.entries[i],
    ) by {
        assert(storable_fields(list.entries[i]));
        if i != k {
            assert(after.entries[i] == list.entries[i]);
        }
    }
}

/// Deriving a key chain from a registry that is read back as it is written
/// leaves one that is, where the use is recorded at a point in time.
pub proof fn lemma_derive_key_chain_readable(
    list: KdfListView,
    algorithm: KdfAlgorithm,
    passphrase: Seq<u8>,
    now: Timestamp,
)
    requires
        list.wf(),
        storable_but_for_types(list),
        point_in_time(now.secs, now.nanos),
        derive_key_chain_outcome(list, algorithm, passphrase, now) is Ok,
    ensures
        storable_but_for_types(derive_key_chain_outcome(list, algorithm, passphrase, now)->Ok_0.0),
{
    let after = derive_key_chain_outcome(list, algorithm, passphrase, now)->Ok_0.0;
    lemma_first_match(algorithm, passphrase, list.entries);
    let k = first_match(algorithm, passphrase, list.entries)->Some_0;
    assert forall|i: int| 0 <= i < after.entries.len() implies storable_fields(
        #[trigger] after.entries[i],
    ) by {
        assert(storable_fields(list.entries[i]));
        if i != k {
            assert(after.entries[i] == list.entries[i]);
        }
    }
}

/// Deleting an entry from a registry that is read back as it is written
/// leaves one that is.
pub proof fn lemma_del_key_readable(list: KdfListView, name: Seq<char>)
    requires
        list.wf(),
        storable_but_for_types(list),
        del_key_outcome(list, name) is Ok,
    ensures
        storable_but_for_types(del_key_outcome(list, name)->Ok_0),
{
    let after = del_key_outcome(list, name)->Ok_0;
    lemma_position(list.names, name);
    let i = position(list.names, name)->Some_0;
    assert forall|j: int| 0 <= j < after.entries.len() implies storable_fields(
        #[trigger] after.entries[j],
    ) by {
        if j < i {
            assert(after.entries[j] == list.entries[j]);
        } else {
            assert(after.entries[j] == list.entries[j + 1]);
        }
    }
    assert forall|j: int| 0 <= j < after.names.len() implies storable_name(
        #[trigger] after.names[j],
    ) by {
        if j < i {
            assert(after.names[j] == list.names[j]);
        } else {
            assert(after.names[j] == list.names[j + 1]);
        }
    }
}

/// An entry that is read back as it is written is still one without one of
/// its groups.
pub proof fn lemma_without_group_readable(entry: KdfEntryView, group: Seq<char>)
    requires
        storable_fields(entry),
    ensures
        storable_fields(without_group(entry, group)),
{
    let after = without_group(entry, group);
    lemma_position(entry.group_names, group);
    match position(entry.group_names, group) {
        Some(k) => {
            assert forall|j: int| 0 <= j < after.group_names.len() implies storable_name(
                #[trigger] after.group_names[j],
            ) by {
                if j < k {
                    assert(after.group_names[j] == entry.group_names[j]);
                } else {
                    assert(after.group_names[j] == entry.group_names[j + 1]);
                }
            }
        },
        None => {},
    }
}

/// An entry that is read back as it is written is still one without some of
/// its groups.
pub proof fn lemma_disassoc_all_readable(entry: KdfEntryView, names: Seq<Seq<char>>)
    requires
        storable_fields(entry),
        disassoc_all(entry, names) is Ok,
    ensures
        storable_fields(disassoc_all(entry, names)->Ok_0),
    decreases names.len(),
{
    if names.len() > 0 {
        lemma_without_group_readable(entry, names[0]);
        lemma_disassoc_all_readable(without_group(entry, names[0]), names.drop_first());
    }
}

/// Taking groups from an entry of a registry that is read back as it is
/// written leaves one that is.
pub proof fn lemma_disassoc_group_readable(
    list: KdfListView,
    key: Seq<char>,
    names: Seq<Seq<char>>,
)
    requires
        list.wf(),
        storable_but_for_types(list),
        disassoc_group_outcome(list, key, names) is Ok,
    ensures
        storable_but_for_types(disassoc_group_outcome(list, key, names)->Ok_0),
{
    let after = disassoc_group_outcome(list, key, names)->Ok_0;
    lemma_position(list.names, key);
    let i = position(list.names, key)->Some_0;
    lemma_disassoc_all_readable(list.entries[i], names);
    assert forall|j: int| 0 <= j < after.entries.len() implies storable_fields(
        #[trigger] after.entries[j],
    ) by {
        if j != i {
            assert(after.entries[j] == list.entries[j]);
        }
    }
}

/// Entries that are read back as they are written are still such when
/// groups are taken from all of them.
pub proof fn lemma_destroy_all_readable(entries: Seq<KdfEntryView>, names: Seq<Seq<char>>)
    requires
        forall|i: int| 0 <= i < entries.len() ==> storable_fields(#[trigger] entries[i]),
        destroy_all(entries, names) is Ok,
    ensures
        destroy_all(entries, names)->Ok_0.len() == entries.len(),
        forall|i: int|
            0 <= i < entries.len() ==> storable_fields(
                #[trigger] destroy_all(entries, names)->Ok_0[i],
            ),
    decreases names.len(),
{
    if names.len() > 0 {
        let stripped = strip_group(entries, names[0]);
        assert forall|i: int| 0 <= i < stripped.len() implies storable_fields(
            #[trigger] stripped[i],
        ) by {
            lemma_without_group_readable(entries[i], names[0]);
        }
        lemma_destroy_all_readable(stripped, names.drop_first());
    }
}

/// Destroying groups of a registry that is read back as it is written
/// leaves one that is.
pub proof fn lemma_destroy_group_readable(list: KdfListView, names: Seq<Seq<char>>)
    requires
        list.wf(),
        storable_but_for_types(list),
        destroy_group_outcome(list, names) is Ok,
    ensures
        storable_but_for_types(destroy_group_outcome(list, names)->Ok_0),
{
    lemma_destroy_all_readable(list.entries, names);
}

/// Putting a key under a name into a key chain adds no name but that one.
pub proof fn lemma_chain_insert_names(chain: KeyChainView, name: Seq<char>, key: Seq<u8>)
    requires
        short_names(chain.names),
        storable_name(name),
    ensures
        short_names(chain_insert(chain, name, key).names),
        chain_insert(chain, name, key).names.len() <= chain.names.len() + 1,
{
    let after = chain_insert(chain, name, key);
    lemma_position(chain.names, name);
    assert forall|j: int| 0 <= j < after.names.len() implies storable_name(
        #[trigger] after.names[j],
    ) by {
        if j < chain.names.len() {
            assert(after.names[j] == chain.names[j]);
        }
    }
}

/// Putting keys under names into a key chain adds no names but those.
pub proof fn lemma_chain_insert_all_names(
    chain: KeyChainView,
    names: Seq<Seq<char>>,
    keys: Seq<Seq<u8>>,
)
    requires
        short_names(chain.names),
        short_names(names),
    ensures
        short_names(chain_insert_all(chain, names, keys).names),
        chain_insert_all(chain, names, keys).names.len() <= chain.names.len() + names.len(),
    decreases names.len(),
{
    if names.len() > 0 && keys.len() > 0 {
        lemma_chain_insert_names(chain, names[0], keys[0]);
        let rest = names.drop_first();
        assert forall|j: int| 0 <= j < rest.len() implies storable_name(#[trigger] rest[j]) by {
            assert(rest[j] == names[j + 1]);
        }
        lemma_chain_insert_all_names(
            chain_insert(chain, names[0], keys[0]),
            rest,
            keys.drop_first(),
        );
    }
}

/// Creating groups on an entry of a registry that is read back as it is
/// written leaves one that is, where the names of the groups are short
/// enough and the entries have room for them.
pub proof fn lemma_create_group_readable(
    list: KdfListView,
    algorithm: KdfAlgorithm,
    passphrase: Seq<u8>,
    names: Seq<Seq<char>>,
    fresh: Seq<Seq<u8>>,
)
    requires
        list.wf(),
        storable_but_for_types(list),
        short_names(names),
        room_for_groups(list, names.len()),
        create_group_outcome(list, algorithm, passphrase, names, fresh) is Ok,
    ensures
        storable_but_for_types(
            create_group_outcome(list, algorithm, passphrase, names, fresh)->Ok_0,
        ),
{
    let after = create_group_outcome(list, algorithm, passphrase, names, fresh)->Ok_0;
    lemma_first_match(algorithm, passphrase, list.entries);
    let i = first_match(algorithm, passphrase, list.entries)->Some_0;
    assert(storable_fields(list.entries[i]));
    lemma_chain_insert_all_names(unwrapped(algorithm, passphrase, list.entries[i]), names, fresh);
    assert forall|j: int| 0 <= j < after.entries.len() implies storable_fields(
        #[trigger] after.entries[j],
    ) by {
        if j != i {
            assert(after.entries[j] == list.entries[j]);
        }
    }
}

/// Giving a key chain the keys that another holds under some names adds no
/// names but names of the other.
pub proof fn lemma_assoc_all_names(
    chain: KeyChainView,
    source: KeyChainView,
    names: Seq<Seq<char>>,
)
    requires
        short_names(chain.names),
        short_names(source.names),
        assoc_all(chain, source, names) is Ok,
    ensures
        short_names(assoc_all(chain, source, names)->Ok_0.names),
        assoc_all(chain, source, names)->Ok_0.names.len() <= chain.names.len() + names.len(),
    decreases names.len(),
{
    if names.len() > 0 {
        lemma_position(source.names, names[0]);
        let key = source.key(names[0])->Some_0;
        lemma_chain_insert_names(chain, names[0], key);
        lemma_assoc_all_names(chain_insert(chain, names[0], key), source, names.drop_first());
    }
}

/// Giving an entry the groups of another in a registry that is read back as
/// it is written leaves one that is, where the entries have room for the
/// groups.
pub proof fn lemma_assoc_group_readable(
    list: KdfListView,
    algorithm: KdfAlgorithm,
    src_passphrase: Seq<u8>,
    dst_passphrase: Seq<u8>,
    names: Seq<Seq<char>>,
)
    requires
        list.wf(),
        storable_but_for_types(list),
        room_for_groups(list, names.len()),
        assoc_group_outcome(list, algorithm, src_passphrase, dst_passphrase, names) is Ok,
    ensures
        storable_but_for_types(
            assoc_group_outcome(list, algorithm, src_passphrase, dst_passphrase, names)->Ok_0,
        ),
{
    let after = assoc_group_outcome(list, algorithm, src_passphrase, dst_passphrase, names)->Ok_0;
    lemma_first_match(algorithm, src_passphrase, list.entries);
    lemma_first_match(algorithm, dst_passphrase, list.entries);
    let s = first_match(algorithm, src_passphrase, list.entries)->Some_0;
    let i = first_match(algorithm, dst_passphrase, list.entries)->Some_0;
    assert(storable_fields(list.entries[s]));
    assert(storable_fields(list.entries[i]));
    lemma_assoc_all_names(
        unwrapped(algorithm, dst_passphrase, list.entries[i]),
        unwrapped(algorithm, src_passphrase, list.entries[s]),
        names,
    );
    assert forall|j: int| 0 <= j < after.entries.len() implies storable_fields(
        #[trigger] after.entries[j],
    ) by {
        if j != i {
            assert(after.entries[j] == list.entries[j]);
        }
    }
}

} // verus!
