//! Key management: the operations on the registry of passphrases that is
//! kept on the server.
//!
//! The registry is read from the server, edited, and written back within a
//! transaction, which is tried again when another writer got in the way.
//!
//! Every operation works with the algorithm `scrypt-18-8-1`: it makes no
//! entry of another, and from an entry of another it derives nothing. The
//! edits that the operations are made of carry the algorithm as a field, so
//! that one can be built by hand and run with `edit_kdflist`.
//!
//! What an operation writes can be read again. The registry that it read is
//! one that is read back as it is written, and so is the one that it writes,
//! where the names it was given are short enough to be read back and the
//! registry has room for what is added.

use crate::defs::{first_index, lemma_first_index_is, names_view, str_eq, strs_view, HashId};
use crate::errors::{Error, ErrorView};
use crate::server::crypt::{rand_hashid, MasterKey};
use crate::server::edits::{
    add_key_outcome, assoc_group_outcome, change_key_outcome, create_group_outcome,
    del_key_outcome, derive_key_chain_outcome, destroy_group_outcome, disassoc_group_outcome,
    edit_add_key, edit_assoc_group, edit_change_key, edit_create_group, edit_del_key,
    edit_derive_key_chain, edit_destroy_group, edit_disassoc_group, edit_done, find_str,
    initial_list, is_builtin, is_name, new_kdflist,
};
use crate::server::invariants::{
    lemma_add_key_readable, lemma_assoc_group_readable, lemma_change_key_readable,
    lemma_create_group_readable, lemma_del_key_readable, lemma_derive_key_chain_readable,
    lemma_destroy_group_readable, lemma_disassoc_group_readable, lemma_init_readable,
    room_for_groups, short_names,
};
use crate::server::kdf::{
    clone_names, derived_chain, keys_view, point_in_time, KdfAlgorithm, KdfEntryView, KdfList,
    KdfListView, KeyChain, KeyChainView, Timestamp, GROUP_EVERYONE, GROUP_ROOT,
};
use crate::server::wire::{
    from_slice, lemma_held_storable, lemma_list_round_trip, lemma_own_names_storable,
    lemma_storable_parts, list_bytes, parse_list, storable, storable_name, storable_names, to_vec,
    MAX_COLLECT,
};
use vstd::prelude::*;

verus! {

/// The number of a transaction.
pub type Tx = u64;

/// How often a transaction is tried before it is given up.
pub const TX_ATTEMPTS: usize = 16;

/// The identifier of the directory that holds the registry of passphrases:
/// all zero. No other directory or object may have it.
pub fn dirid_keys() -> (id: HashId)
    ensures
        id@ == Seq::new(32, |i: int| 0u8),
{
    let id: HashId = [0u8;32];
    assert(id@ =~= Seq::new(32, |i: int| 0u8));
    id
}

/// What the key management needs of the place where directories are kept.
///
/// Nothing is assumed of an implementation: whatever it returns, the
/// operations below deal with it.
pub trait Storage {
    /// Begins the transaction `tx`.
    fn start_tx(&self, tx: Tx) -> Result<(), Error>;

    /// Commits the transaction `tx`. Returns whether it went through: it does
    /// not where another writer has replaced a directory that it removes.
    fn commit(&self, tx: Tx) -> Result<bool, Error>;

    /// Abandons the transaction `tx`.
    fn abort(&self, tx: Tx) -> Result<(), Error>;

    /// The version and the content of the directory `id`, if it exists.
    fn getdir(&self, id: &HashId) -> Result<Option<(HashId, Vec<u8>)>, Error>;

    /// Within `tx`, creates the directory `id` with the version `ver` and the
    /// content `data`.
    fn mkdir(&self, tx: Tx, id: &HashId, ver: &HashId, data: &[u8]) -> Result<(), Error>;

    /// Within `tx`, removes the directory `id`, which is expected to have the
    /// version `ver` and a content of `len` bytes.
    fn rmdir(&self, tx: Tx, id: &HashId, ver: &HashId, len: u32) -> Result<(), Error>;
}

/// What is done within one transaction.
pub trait TxBody {
    /// What the transaction yields.
    type Output;

    /// Whether `out` is something that the transaction may yield.
    spec fn yields(&self, out: Self::Output) -> bool;

    /// Does within the transaction `tx` what is to be done.
    fn run(&self, tx: Tx) -> (res: Result<Self::Output, Error>)
        ensures
            res is Ok ==> self.yields(res->Ok_0),
    ;
}

/// How one attempt at a transaction ended: the transaction could not be
/// begun; what was to be done within it failed; the commit failed; the commit
/// did not go through, because another writer got in the way; or the commit
/// went through.
pub enum Attempt<R> {
    NotBegun(Error),
    BodyFailed(Error),
    CommitFailed(Error),
    Conflict,
    Committed(R),
}

/// What follows an attempt at a transaction: the call ends with a result; the
/// transaction is abandoned and the call ends with an error; or the
/// transaction is tried again.
pub enum TxStep<R> {
    Finish(Result<R, Error>),
    AbortWith(Error),
    TryAgain,
}

/// What follows the attempt that ended as `outcome`, where `made` attempts
/// were made before it.
///
/// Only a conflict is tried again, and only as long as fewer than
/// `TX_ATTEMPTS` attempts were made in all: after that the call fails with
/// `TooManyTxRetries`. What went wrong within the transaction has it
/// abandoned. Every other error ends the call as it is.
pub open spec fn next_tx_step<R>(made: usize, outcome: Attempt<R>) -> TxStep<R> {
    match outcome {
        Attempt::NotBegun(e) => TxStep::Finish(Err(e)),
        Attempt::BodyFailed(e) => TxStep::AbortWith(e),
        Attempt::CommitFailed(e) => TxStep::Finish(Err(e)),
        Attempt::Conflict => if made + 1 < TX_ATTEMPTS {
            TxStep::TryAgain
        } else {
            TxStep::Finish(Err(Error::TooManyTxRetries))
        },
        Attempt::Committed(r) => TxStep::Finish(Ok(r)),
    }
}

/// Decides what follows the attempt that ended as `outcome`, where `made`
/// attempts were made before it.
pub fn after_attempt<R>(made: usize, outcome: Attempt<R>) -> (step: TxStep<R>)
    ensures
        step == next_tx_step(made, outcome),
{
    match outcome {
        Attempt::NotBegun(e) => TxStep::Finish(Err(e)),
        Attempt::BodyFailed(e) => TxStep::AbortWith(e),
        Attempt::CommitFailed(e) => TxStep::Finish(Err(e)),
        Attempt::Conflict => {
            if made < TX_ATTEMPTS - 1 {
                TxStep::TryAgain
            } else {
                TxStep::Finish(Err(Error::TooManyTxRetries))
            }
        },
        Attempt::Committed(r) => TxStep::Finish(Ok(r)),
    }
}

/// How an attempt ended in which what was to be done yielded `r` and the
/// storage answered the commit with `committed`: it tells whether the commit
/// went through, or why it could not be made.
pub open spec fn commit_outcome_of<R>(r: R, committed: Result<bool, Error>) -> Attempt<R> {
    match committed {
        Ok(went_through) => if went_through {
            Attempt::Committed(r)
        } else {
            Attempt::Conflict
        },
        Err(e) => Attempt::CommitFailed(e),
    }
}

/// Says how an attempt ended in which what was to be done yielded `r` and
/// the storage answered the commit with `committed`.
pub fn commit_outcome<R>(r: R, committed: Result<bool, Error>) -> (outcome: Attempt<R>)
    ensures
        outcome == commit_outcome_of(r, committed),
{
    match committed {
        Ok(true) => Attempt::Committed(r),
        Ok(false) => Attempt::Conflict,
        Err(e) => Attempt::CommitFailed(e),
    }
}

/// Makes one attempt at the transaction `tx` on `storage`: begins it, runs
/// `body` within it, and commits it.
pub fn attempt_tx<S: Storage, B: TxBody>(storage: &S, body: &B, tx: Tx) -> (outcome: Attempt<
    B::Output,
>)
    ensures
        outcome matches Attempt::Committed(r) ==> body.yields(r),
{
    match storage.start_tx(tx) {
        Ok(()) => {},
        Err(e) => {
            return Attempt::NotBegun(e);
        },
    }
    let r = match body.run(tx) {
        Ok(r) => r,
        Err(e) => {
            return Attempt::BodyFailed(e);
        },
    };
    commit_outcome(r, storage.commit(tx))
}

/// Runs `body` within a transaction on `storage`.
///
/// The transaction is tried again where the commit does not go through, at
/// most `TX_ATTEMPTS` times, after which the call fails with
/// `TooManyTxRetries`. An error of `body` ends the call at once: the
/// transaction is abandoned and the error returned.
pub fn do_tx<S: Storage, B: TxBody>(storage: &S, body: &B) -> (res: Result<B::Output, Error>)
    ensures
        res is Ok ==> body.yields(res->Ok_0),
{
    // A constant will do, since nothing runs concurrently.
    let tx: Tx = 0;
    let mut made: usize = 0;
    loop
        invariant
            made < TX_ATTEMPTS,
        decreases TX_ATTEMPTS - made,
    {
        let outcome = attempt_tx(storage, body, tx);
        match after_attempt(made, outcome) {
            TxStep::Finish(res) => {
                return res;
            },
            TxStep::AbortWith(e) => {
                let _ = storage.abort(tx);
                return Err(e);
            },
            TxStep::TryAgain => {
                made += 1;
            },
        }
    }
}

/// The registry whose stored form is `data`, if `data` is the stored form of
/// one and short enough for its length to be recorded in 32 bits.
pub open spec fn registry_in(data: Seq<u8>) -> Option<KdfListView> {
    if data.len() <= u32::MAX {
        parse_list(data)
    } else {
        None
    }
}

/// Makes of the directory that the storage returned for the registry the
/// registry that it holds, with the version of the directory and the length
/// of its content. Where the storage has no such directory there is no
/// registry, and where the content is not the stored form of a registry the
/// call fails with `Serialization`.
pub fn registry_of_dir(found: Option<(HashId, Vec<u8>)>) -> (res: Result<
    Option<(KdfList, HashId, u32)>,
    Error,
>)
    ensures
        match found {
            None => res matches Ok(None),
            Some((ver, data)) => match registry_in(data@) {
                Some(list) => res matches Ok(Some(got)) && got.0@ == list && got.0.wf()
                    && storable(list) && got.1 == ver && got.2 == data@.len(),
                None => res is Err && res->Err_0 is Serialization,
            },
        },
{
    match found {
        None => Ok(None),
        Some((ver, data)) => {
            if data.len() > u32::MAX as usize {
                return Err(Error::Serialization);
            }
            match from_slice(data.as_slice()) {
                Ok(kdflist) => Ok(Some((kdflist, ver, data.len() as u32))),
                Err(e) => Err(e),
            }
        },
    }
}

/// Reads the registry from `storage`, with its version and the length of its
/// stored form, if there is one.
pub fn get_kdflist<S: Storage>(storage: &S) -> (res: Result<Option<(KdfList, HashId, u32)>, Error>)
    ensures
        res matches Ok(Some(found)) ==> found.0.wf() && storable(found.0@) && exists|
            data: Seq<u8>,
        | #[trigger] registry_in(data) == Some(found.0@) && found.2 == data.len(),
{
    let id = dirid_keys();
    match storage.getdir(&id) {
        Err(e) => Err(e),
        Ok(found) => {
            let ghost data = found->Some_0.1@;
            let res = registry_of_dir(found);
            proof {
                if res is Ok && res->Ok_0 is Some {
                    let got = res->Ok_0->Some_0;
                    assert(registry_in(data) == Some(got.0@) && got.2 == data.len());
                }
            }
            res
        },
    }
}

/// Writes `kdf` to `storage` within `tx`, under a fresh random version, in
/// place of the registry with the version and length `old`, if there is one.
/// Returns the new version and length.
pub fn put_kdflist<S: Storage>(
    storage: &S,
    kdf: &KdfList,
    tx: Tx,
    old: Option<(HashId, u32)>,
) -> (res: Result<(HashId, u32), Error>)
    requires
        kdf.wf(),
    ensures
        res is Ok ==> res->Ok_0.1 == list_bytes(kdf@).len(),
        list_bytes(kdf@).len() > u32::MAX ==> res is Err && res->Err_0 is Serialization,
{
    let id = dirid_keys();
    let new_ver = rand_hashid();
    let new_data = to_vec(kdf);
    if new_data.len() > u32::MAX as usize {
        return Err(Error::Serialization);
    }
    match old {
        Some((old_ver, old_len)) => {
            match storage.rmdir(tx, &id, &old_ver, old_len) {
                Ok(()) => {},
                Err(e) => {
                    return Err(e);
                },
            }
        },
        None => {},
    }
    match storage.mkdir(tx, &id, &new_ver, new_data.as_slice()) {
        Ok(()) => Ok((new_ver, new_data.len() as u32)),
        Err(e) => Err(e),
    }
}

/// An edit of the registry.
pub trait KdfEdit {
    /// What the edit yields besides the registry.
    type Output;

    /// Whether the edit may make `after` of `before` and yield `res`.
    spec fn permits(
        &self,
        before: KdfListView,
        after: KdfListView,
        res: Result<Self::Output, Error>,
    ) -> bool;

    /// Makes the edit on `kdflist`.
    fn apply(&self, kdflist: &mut KdfList) -> (res: Result<Self::Output, Error>)
        requires
            old(kdflist).wf(),
        ensures
            final(kdflist).wf(),
            self.permits(old(kdflist)@, final(kdflist)@, res),
    ;
}

/// Makes the edit `edit` on the registry that was read from the storage, and
/// returns the registry as it is to be written, what the edit yielded, and
/// the version and length of what was read. Where no registry was read the
/// call fails with `KdfListNotExists`, and where the edit fails, with the
/// error of the edit.
pub fn edit_registry<F: KdfEdit>(edit: &F, loaded: Option<(KdfList, HashId, u32)>) -> (res: Result<
    (KdfList, F::Output, HashId, u32),
    Error,
>)
    requires
        loaded matches Some(read) ==> read.0.wf(),
    ensures
        match loaded {
            None => res is Err && res->Err_0@ == ErrorView::KdfListNotExists,
            Some(read) => match res {
                Ok(made) => edit.permits(read.0@, made.0@, Ok(made.1)) && made.0.wf() && made.2
                    == read.1 && made.3 == read.2,
                Err(e) => exists|after: KdfListView|
                    #[trigger] edit.permits(read.0@, after, Err(e)),
            },
        },
{
    let (mut kdflist, old_ver, old_len) = match loaded {
        Some(read) => read,
        None => {
            return Err(Error::KdfListNotExists);
        },
    };
    let ghost before = kdflist@;
    match edit.apply(&mut kdflist) {
        Ok(r) => Ok((kdflist, r, old_ver, old_len)),
        Err(e) => {
            assert(edit.permits(before, kdflist@, Err(e)));
            Err(e)
        },
    }
}

/// The transaction that makes an edit on the registry kept in a storage.
pub struct EditTx<'a, S: Storage, F: KdfEdit> {
    pub storage: &'a S,
    pub edit: &'a F,
}

impl<'a, S: Storage, F: KdfEdit> TxBody for EditTx<'a, S, F> {
    type Output = F::Output;

    open spec fn yields(&self, out: F::Output) -> bool {
        exists|before: KdfListView, after: KdfListView|
            storable(before) && #[trigger] self.edit.permits(before, after, Ok(out))
    }

    fn run(&self, tx: Tx) -> (res: Result<F::Output, Error>) {
        let loaded = match get_kdflist(self.storage) {
            Ok(loaded) => loaded,
            Err(e) => {
                return Err(e);
            },
        };
        let ghost before = loaded->Some_0.0@;
        let (kdflist, r, old_ver, old_len) = match edit_registry(self.edit, loaded) {
            Ok(made) => made,
            Err(e) => {
                return Err(e);
            },
        };
        match put_kdflist(self.storage, &kdflist, tx, Some((old_ver, old_len))) {
            Ok(_) => {
                assert(self.edit.permits(before, kdflist@, Ok(r)));
                Ok(r)
            },
            Err(e) => Err(e),
        }
    }
}

/// Makes the edit `f` on the registry kept in `storage`, within a
/// transaction.
///
/// Fails with `KdfListNotExists` where `storage` holds no registry. Where the
/// call succeeds, the registry written is what `f` made of the registry read,
/// and the result is what `f` yielded.
pub fn edit_kdflist<S: Storage, F: KdfEdit>(storage: &S, f: &F) -> (res: Result<F::Output, Error>)
    ensures
        res is Ok ==> exists|before: KdfListView, after: KdfListView|
            storable(before) && #[trigger] f.permits(before, after, Ok(res->Ok_0)),
{
    let body = EditTx { storage, edit: f };
    do_tx(storage, &body)
}

/// Makes the registry with which the storage is initialised: the one that
/// holds the entry `key_name`, which gives `passphrase` access to `chain`.
/// Where a registry was read from the storage, there is nothing to
/// initialise, and the call fails with `KdfListAlreadyExists`.
///
/// The registry made is read back as it is written, where its names are
/// short enough for that and `now` is a point in time.
pub fn init_registry(
    algorithm: KdfAlgorithm,
    salt: &HashId,
    chain: &KeyChain,
    passphrase: &[u8],
    key_name: &str,
    now: Timestamp,
    loaded: &Option<(KdfList, HashId, u32)>,
) -> (res: Result<KdfList, Error>)
    requires
        chain.wf(),
    ensures
        match loaded {
            Some(_) => res is Err && res->Err_0@ == ErrorView::KdfListAlreadyExists,
            None => res is Ok && res->Ok_0.wf() && res->Ok_0@ == initial_list(
                algorithm,
                salt@,
                chain@,
                passphrase@,
                key_name@,
                now,
            ),
        },
        loaded is None && storable_name(key_name@) && storable_names(chain@.names)
            && point_in_time(now.secs, now.nanos) ==> storable(res->Ok_0@),
{
    match loaded {
        Some(_) => Err(Error::KdfListAlreadyExists),
        None => {
            let kdflist = new_kdflist(algorithm, salt, chain, passphrase, key_name, now);
            proof {
                if storable_name(key_name@) && storable_names(chain@.names) && point_in_time(
                    now.secs,
                    now.nanos,
                ) {
                    lemma_init_readable(
                        algorithm,
                        salt@,
                        chain@,
                        passphrase@,
                        key_name@,
                        now,
                    );
                    lemma_held_storable(kdflist);
                }
            }
            Ok(kdflist)
        },
    }
}

/// Whether a storage can have been initialised for `passphrase` under the
/// name `key_name`: there is a registry of the one entry `key_name`, which
/// gives `passphrase` access to keys for the groups `everyone` and `root` and
/// stretches it with `algorithm` under a salt of 32 bytes, which was made at
/// a point in time, and which is short enough to be written. Where
/// `key_name` is short enough to be read back, the registry is read back as
/// it was written.
pub open spec fn initialises(
    algorithm: KdfAlgorithm,
    passphrase: Seq<u8>,
    key_name: Seq<char>,
) -> bool {
    exists|salt: Seq<u8>, chain: KeyChainView, now: Timestamp|
        chain.wf() && chain.names == seq![GROUP_EVERYONE@, GROUP_ROOT@] && salt.len() == 32
            && point_in_time(now.secs, now.nanos) && #[trigger] list_bytes(
            initial_list(algorithm, salt, chain, passphrase, key_name, now),
        ).len() <= u32::MAX && (storable_name(key_name) ==> registry_in(
            list_bytes(initial_list(algorithm, salt, chain, passphrase, key_name, now)),
        ) == Some(initial_list(algorithm, salt, chain, passphrase, key_name, now)))
}

/// The transaction that initialises the registry kept in a storage.
pub struct InitTx<'a, S: Storage> {
    pub storage: &'a S,
    pub algorithm: KdfAlgorithm,
    pub passphrase: &'a [u8],
    pub key_name: &'a str,
}

impl<'a, S: Storage> TxBody for InitTx<'a, S> {
    type Output = ();

    open spec fn yields(&self, out: ()) -> bool {
        initialises(self.algorithm, self.passphrase@, self.key_name@)
    }

    fn run(&self, tx: Tx) -> (res: Result<(), Error>) {
        let loaded = match get_kdflist(self.storage) {
            Ok(loaded) => loaded,
            Err(e) => {
                return Err(e);
            },
        };
        let key_chain = KeyChain::generate_new();
        let salt = rand_hashid();
        let now = Timestamp::now();
        let kdflist = match init_registry(
            self.algorithm,
            &salt,
            &key_chain,
            self.passphrase,
            self.key_name,
            now,
            &loaded,
        ) {
            Ok(kdflist) => kdflist,
            Err(e) => {
                return Err(e);
            },
        };
        match put_kdflist(self.storage, &kdflist, tx, None) {
            Ok(_) => {
                proof {
                    let list = initial_list(
                        self.algorithm,
                        salt@,
                        key_chain@,
                        self.passphrase@,
                        self.key_name@,
                        now,
                    );
                    assert(list_bytes(list).len() <= u32::MAX);
                    lemma_own_names_storable();
                    if storable_name(self.key_name@) {
                        lemma_list_round_trip(list, Seq::empty());
                        assert(list_bytes(list) + Seq::<u8>::empty() =~= list_bytes(list));
                    }
                }
                Ok(())
            },
            Err(e) => Err(e),
        }
    }
}

/// Initialises the registry in `storage` with fresh internal keys for the
/// groups `everyone` and `root`, and with one entry, `key_name`, which gives
/// `passphrase` access to them.
///
/// Fails with `KdfListAlreadyExists` where `storage` holds a registry. Where
/// the call succeeds, the registry written is one of that one entry.
pub fn init_keys<S: Storage>(storage: &S, passphrase: &[u8], key_name: &str) -> (res: Result<
    (),
    Error,
>)
    ensures
        res is Ok ==> initialises(KdfAlgorithm::Scrypt18_8_1, passphrase@, key_name@),
{
    let body = InitTx { storage, algorithm: KdfAlgorithm::Scrypt18_8_1, passphrase, key_name };
    do_tx(storage, &body)
}

/// The edit that adds an entry for a new passphrase.
pub struct AddKey<'a> {
    pub algorithm: KdfAlgorithm,
    pub old_passphrase: &'a [u8],
    pub new_passphrase: &'a [u8],
    pub new_name: &'a str,
}

impl<'a> KdfEdit for AddKey<'a> {
    type Output = ();

    open spec fn permits(
        &self,
        before: KdfListView,
        after: KdfListView,
        res: Result<(), Error>,
    ) -> bool {
        exists|salt: Seq<u8>, now: Timestamp|
            salt.len() == 32 && point_in_time(now.secs, now.nanos) && edit_done(
                res,
                before,
                after,
                #[trigger] add_key_outcome(
                    before,
                    self.algorithm,
                    salt,
                    self.old_passphrase@,
                    self.new_passphrase@,
                    self.new_name@,
                    now,
                ),
            ) && (storable(before) && storable_name(self.new_name@) && before.names.len()
                < MAX_COLLECT ==> storable(after))
    }

    fn apply(&self, kdflist: &mut KdfList) -> (res: Result<(), Error>) {
        let salt = rand_hashid();
        let now = Timestamp::now();
        let res = edit_add_key(
            kdflist,
            self.algorithm,
            &salt,
            self.old_passphrase,
            self.new_passphrase,
            self.new_name,
            now,
        );
        proof {
            let outcome = add_key_outcome(
                old(kdflist)@,
                self.algorithm,
                salt@,
                self.old_passphrase@,
                self.new_passphrase@,
                self.new_name@,
                now,
            );
            assert(edit_done(res, old(kdflist)@, kdflist@, outcome));
            let before = old(kdflist)@;
            if res is Ok && storable(before) && storable_name(self.new_name@) && before.names.len()
                < MAX_COLLECT {
                lemma_storable_parts(before);
                lemma_add_key_readable(
                    before,
                    self.algorithm,
                    salt@,
                    self.old_passphrase@,
                    self.new_passphrase@,
                    self.new_name@,
                    now,
                );
                lemma_held_storable(*kdflist);
            }
        }
        res
    }
}

/// Adds to the registry in `storage` the entry `new_name`, which gives
/// `new_passphrase` access to the groups of the entry that `old_passphrase`
/// matches.
pub fn add_key<S: Storage>(
    storage: &S,
    old_passphrase: &[u8],
    new_passphrase: &[u8],
    new_name: &str,
) -> (res: Result<(), Error>)
    ensures
        res is Ok ==> exists|before: KdfListView, after: KdfListView|
            storable(before) && #[trigger] (AddKey {
                algorithm: KdfAlgorithm::Scrypt18_8_1,
                old_passphrase,
                new_passphrase,
                new_name,
            }).permits(before, after, Ok(())),
{
    let edit = AddKey {
        algorithm: KdfAlgorithm::Scrypt18_8_1,
        old_passphrase,
        new_passphrase,
        new_name,
    };
    edit_kdflist(storage, &edit)
}

/// The edit that deletes an entry.
pub struct DelKey<'a> {
    pub name: &'a str,
}

impl<'a> KdfEdit for DelKey<'a> {
    type Output = ();

    open spec fn permits(
        &self,
        before: KdfListView,
        after: KdfListView,
        res: Result<(), Error>,
    ) -> bool {
        edit_done(res, before, after, del_key_outcome(before, self.name@)) && (storable(before)
            ==> storable(after))
    }

    fn apply(&self, kdflist: &mut KdfList) -> (res: Result<(), Error>) {
        let res = edit_del_key(kdflist, self.name);
        proof {
            let before = old(kdflist)@;
            if res is Ok && storable(before) {
                lemma_storable_parts(before);
                lemma_del_key_readable(before, self.name@);
                lemma_held_storable(*kdflist);
            }
        }
        res
    }
}

/// Deletes the entry `name` from the registry in `storage`.
pub fn del_key<S: Storage>(storage: &S, name: &str) -> (res: Result<(), Error>)
    ensures
        res is Ok ==> exists|before: KdfListView|
            storable(before) && #[trigger] del_key_outcome(before, name@) is Ok && storable(
                del_key_outcome(before, name@)->Ok_0,
            ),
{
    let edit = DelKey { name };
    let res = edit_kdflist(storage, &edit);
    proof {
        if res is Ok {
            let (before, after) = choose|before: KdfListView, after: KdfListView|
                storable(before) && #[trigger] edit.permits(before, after, Ok(res->Ok_0));
            assert(del_key_outcome(before, name@) is Ok);
            assert(storable(del_key_outcome(before, name@)->Ok_0));
        }
    }
    res
}

/// The edit that changes the passphrase of an entry.
pub struct ChangeKey<'a> {
    pub algorithm: KdfAlgorithm,
    pub old_passphrase: &'a [u8],
    pub new_passphrase: &'a [u8],
    pub name: Option<&'a str>,
    pub allow_change_via_other_passphrase: bool,
}

impl<'a> ChangeKey<'a> {
    /// The name of the entry to change, if it is given.
    pub open spec fn name_view(&self) -> Option<Seq<char>> {
        match self.name {
            Some(n) => Some(n@),
            None => None,
        }
    }
}

impl<'a> KdfEdit for ChangeKey<'a> {
    type Output = ();

    open spec fn permits(
        &self,
        before: KdfListView,
        after: KdfListView,
        res: Result<(), Error>,
    ) -> bool {
        exists|salt: Seq<u8>, now: Timestamp|
            salt.len() == 32 && point_in_time(now.secs, now.nanos) && edit_done(
                res,
                before,
                after,
                #[trigger] change_key_outcome(
                    before,
                    self.algorithm,
                    salt,
                    self.old_passphrase@,
                    self.new_passphrase@,
                    self.name_view(),
                    self.allow_change_via_other_passphrase,
                    now,
                ),
            ) && (storable(before) ==> storable(after))
    }

    fn apply(&self, kdflist: &mut KdfList) -> (res: Result<(), Error>) {
        let salt = rand_hashid();
        let now = Timestamp::now();
        let res = edit_change_key(
            kdflist,
            self.algorithm,
            &salt,
            self.old_passphrase,
            self.new_passphrase,
            self.name,
            self.allow_change_via_other_passphrase,
            now,
        );
        proof {
            let outcome = change_key_outcome(
                old(kdflist)@,
                self.algorithm,
                salt@,
                self.old_passphrase@,
                self.new_passphrase@,
                self.name_view(),
                self.allow_change_via_other_passphrase,
                now,
            );
            assert(edit_done(res, old(kdflist)@, kdflist@, outcome));
            let before = old(kdflist)@;
            if res is Ok && storable(before) {
                lemma_storable_parts(before);
                lemma_change_key_readable(
                    before,
                    self.algorithm,
                    salt@,
                    self.old_passphrase@,
                    self.new_passphrase@,
                    self.name_view(),
                    self.allow_change_via_other_passphrase,
                    now,
                );
                lemma_held_storable(*kdflist);
            }
        }
        res
    }
}

/// Changes the passphrase of one entry of the registry in `storage` to
/// `new_passphrase`.
///
/// `name` names the entry; without it there must be exactly one entry, which
/// is then the one. Unless `allow_change_via_other_passphrase`, the call fails
/// where `old_passphrase` is the passphrase of another entry than that one.
pub fn change_key<S: Storage>(
    storage: &S,
    old_passphrase: &[u8],
    new_passphrase: &[u8],
    name: Option<&str>,
    allow_change_via_other_passphrase: bool,
) -> (res: Result<(), Error>)
    ensures
        res is Ok ==> exists|before: KdfListView, after: KdfListView|
            storable(before) && #[trigger] (ChangeKey {
                algorithm: KdfAlgorithm::Scrypt18_8_1,
                old_passphrase,
                new_passphrase,
                name,
                allow_change_via_other_passphrase,
            }).permits(before, after, Ok(())),
{
    let edit = ChangeKey {
        algorithm: KdfAlgorithm::Scrypt18_8_1,
        old_passphrase,
        new_passphrase,
        name,
        allow_change_via_other_passphrase,
    };
    edit_kdflist(storage, &edit)
}

/// The edit that derives a key chain and records the use.
pub struct DeriveKeyChain<'a> {
    pub algorithm: KdfAlgorithm,
    pub passphrase: &'a [u8],
}

impl<'a> KdfEdit for DeriveKeyChain<'a> {
    type Output = KeyChain;

    open spec fn permits(
        &self,
        before: KdfListView,
        after: KdfListView,
        res: Result<KeyChain, Error>,
    ) -> bool {
        exists|now: Timestamp|
            point_in_time(now.secs, now.nanos) && match #[trigger] derive_key_chain_outcome(
                before,
                self.algorithm,
                self.passphrase@,
                now,
            ) {
                Ok((list, chain)) => res is Ok && res->Ok_0@ == chain && res->Ok_0.wf() && after
                    == list,
                Err(e) => res is Err && res->Err_0@ == e && after == before,
            } && (storable(before) ==> storable(after))
    }

    fn apply(&self, kdflist: &mut KdfList) -> (res: Result<KeyChain, Error>) {
        let now = Timestamp::now();
        let res = edit_derive_key_chain(kdflist, self.algorithm, self.passphrase, now);
        proof {
            let outcome = derive_key_chain_outcome(
                old(kdflist)@,
                self.algorithm,
                self.passphrase@,
                now,
            );
            assert(match outcome {
                Ok((list, chain)) => res is Ok && res->Ok_0@ == chain && res->Ok_0.wf()
                    && kdflist@ == list,
                Err(e) => res is Err && res->Err_0@ == e && kdflist@ == old(kdflist)@,
            });
            let before = old(kdflist)@;
            if res is Ok && storable(before) {
                lemma_storable_parts(before);
                lemma_derive_key_chain_readable(
                    before,
                    self.algorithm,
                    self.passphrase@,
                    now,
                );
                lemma_held_storable(*kdflist);
            }
        }
        res
    }
}

/// Derives the key chain of `passphrase` from the registry in `storage`, and
/// records the use in the entry that the passphrase matched.
pub fn derive_key_chain<S: Storage>(storage: &S, passphrase: &[u8]) -> (res: Result<
    KeyChain,
    Error,
>)
    ensures
        res is Ok ==> res->Ok_0.wf() && exists|before: KdfListView|
            storable(before) && #[trigger] derived_chain(
                KdfAlgorithm::Scrypt18_8_1,
                passphrase@,
                before.entries,
            ) == Some(res->Ok_0@),
{
    let edit = DeriveKeyChain { algorithm: KdfAlgorithm::Scrypt18_8_1, passphrase };
    let res = edit_kdflist(storage, &edit);
    proof {
        if res is Ok {
            let (before, after) = choose|before: KdfListView, after: KdfListView|
                storable(before) && #[trigger] edit.permits(before, after, Ok(res->Ok_0));
            let now = choose|now: Timestamp|
                match #[trigger] derive_key_chain_outcome(
                    before,
                    KdfAlgorithm::Scrypt18_8_1,
                    passphrase@,
                    now,
                ) {
                    Ok((list, chain)) => res->Ok_0@ == chain && res->Ok_0.wf() && after == list,
                    Err(e) => false,
                };
            assert(derived_chain(KdfAlgorithm::Scrypt18_8_1, passphrase@, before.entries) == Some(
                res->Ok_0@,
            ));
        }
    }
    res
}

/// As many random keys as there are names in `names`.
pub fn fresh_keys(names: &[&str]) -> (keys: Vec<MasterKey>)
    ensures
        keys.len() == names.len(),
{
    let mut keys: Vec<MasterKey> = Vec::new();
    let mut k: usize = 0;
    while k < names.len()
        invariant
            k <= names.len(),
            keys.len() == k,
        decreases names.len() - k,
    {
        keys.push(MasterKey::generate_new());
        k += 1;
    }
    keys
}

/// The edit that creates groups.
pub struct CreateGroup<'a> {
    pub algorithm: KdfAlgorithm,
    pub passphrase: &'a [u8],
    pub names: &'a [&'a str],
}

impl<'a> KdfEdit for CreateGroup<'a> {
    type Output = ();

    open spec fn permits(
        &self,
        before: KdfListView,
        after: KdfListView,
        res: Result<(), Error>,
    ) -> bool {
        exists|fresh: Seq<Seq<u8>>|
            fresh.len() == self.names@.len() && edit_done(
                res,
                before,
                after,
                #[trigger] create_group_outcome(
                    before,
                    self.algorithm,
                    self.passphrase@,
                    strs_view(self.names@),
                    fresh,
                ),
            ) && (storable(before) && short_names(strs_view(self.names@)) && room_for_groups(
            before,
            self.names@.len(),
        ) ==> storable(after))
    }

    fn apply(&self, kdflist: &mut KdfList) -> (res: Result<(), Error>) {
        let fresh = fresh_keys(self.names);
        let res = edit_create_group(kdflist, self.algorithm, self.passphrase, self.names, &fresh);
        proof {
            let outcome = create_group_outcome(
                old(kdflist)@,
                self.algorithm,
                self.passphrase@,
                strs_view(self.names@),
                keys_view(fresh@),
            );
            assert(keys_view(fresh@).len() == self.names@.len());
            assert(edit_done(res, old(kdflist)@, kdflist@, outcome));
            let before = old(kdflist)@;
            if res is Ok && storable(before) && short_names(strs_view(self.names@))
                && room_for_groups(before, self.names@.len()) {
                lemma_storable_parts(before);
                lemma_create_group_readable(
                    before,
                    self.algorithm,
                    self.passphrase@,
                    strs_view(self.names@),
                    keys_view(fresh@),
                );
                lemma_held_storable(*kdflist);
            }
        }
        res
    }
}

/// Creates in the registry in `storage` a group for each of `names`, with a
/// fresh internal key, on the entry that `passphrase` matches.
///
/// Fails where any of the groups is carried by any entry already.
pub fn create_group<S: Storage>(storage: &S, passphrase: &[u8], names: &[&str]) -> (res: Result<
    (),
    Error,
>)
    ensures
        res is Ok ==> exists|before: KdfListView, after: KdfListView|
            storable(before) && #[trigger] (CreateGroup {
                algorithm: KdfAlgorithm::Scrypt18_8_1,
                passphrase,
                names,
            }).permits(before, after, Ok(())),
{
    let edit = CreateGroup { algorithm: KdfAlgorithm::Scrypt18_8_1, passphrase, names };
    edit_kdflist(storage, &edit)
}

/// The edit that gives an entry the groups of another.
pub struct AssocGroup<'a> {
    pub algorithm: KdfAlgorithm,
    pub src_passphrase: &'a [u8],
    pub dst_passphrase: &'a [u8],
    pub names: &'a [&'a str],
}

impl<'a> KdfEdit for AssocGroup<'a> {
    type Output = ();

    open spec fn permits(
        &self,
        before: KdfListView,
        after: KdfListView,
        res: Result<(), Error>,
    ) -> bool {
        edit_done(
            res,
            before,
            after,
            assoc_group_outcome(
                before,
                self.algorithm,
                self.src_passphrase@,
                self.dst_passphrase@,
                strs_view(self.names@),
            ),
        ) && (storable(before) && room_for_groups(before, self.names@.len()) ==> storable(after))
    }

    fn apply(&self, kdflist: &mut KdfList) -> (res: Result<(), Error>) {
        let res = edit_assoc_group(
            kdflist,
            self.algorithm,
            self.src_passphrase,
            self.dst_passphrase,
            self.names,
        );
        proof {
            let before = old(kdflist)@;
            if res is Ok && storable(before) && room_for_groups(before, self.names@.len()) {
                lemma_storable_parts(before);
                lemma_assoc_group_readable(
                    before,
                    self.algorithm,
                    self.src_passphrase@,
                    self.dst_passphrase@,
                    strs_view(self.names@),
                );
                lemma_held_storable(*kdflist);
            }
        }
        res
    }
}

/// Adds every group of `names` to the entry of the registry in `storage`
/// that `dst_passphrase` matches, with the internal keys that
/// `src_passphrase` derives for them.
pub fn assoc_group<S: Storage>(
    storage: &S,
    src_passphrase: &[u8],
    dst_passphrase: &[u8],
    names: &[&str],
) -> (res: Result<(), Error>)
    ensures
        res is Ok ==> exists|before: KdfListView|
            storable(before) && #[trigger] assoc_group_outcome(
                before,
                KdfAlgorithm::Scrypt18_8_1,
                src_passphrase@,
                dst_passphrase@,
                strs_view(names@),
            ) is Ok && (room_for_groups(before, names@.len()) ==> storable(
                assoc_group_outcome(
                    before,
                    KdfAlgorithm::Scrypt18_8_1,
                    src_passphrase@,
                    dst_passphrase@,
                    strs_view(names@),
                )->Ok_0,
            )),
{
    let edit = AssocGroup {
        algorithm: KdfAlgorithm::Scrypt18_8_1,
        src_passphrase,
        dst_passphrase,
        names,
    };
    let res = edit_kdflist(storage, &edit);
    proof {
        if res is Ok {
            let (before, after) = choose|before: KdfListView, after: KdfListView|
                storable(before) && #[trigger] edit.permits(before, after, Ok(res->Ok_0));
            assert(assoc_group_outcome(
                before,
                KdfAlgorithm::Scrypt18_8_1,
                src_passphrase@,
                dst_passphrase@,
                strs_view(names@),
            ) is Ok);
        }
    }
    res
}

/// The edit that takes groups from an entry.
pub struct DisassocGroup<'a> {
    pub key: &'a str,
    pub names: &'a [&'a str],
}

impl<'a> KdfEdit for DisassocGroup<'a> {
    type Output = ();

    open spec fn permits(
        &self,
        before: KdfListView,
        after: KdfListView,
        res: Result<(), Error>,
    ) -> bool {
        edit_done(
            res,
            before,
            after,
            disassoc_group_outcome(before, self.key@, strs_view(self.names@)),
        ) && (storable(before) ==> storable(after))
    }

    fn apply(&self, kdflist: &mut KdfList) -> (res: Result<(), Error>) {
        let res = edit_disassoc_group(kdflist, self.key, self.names);
        proof {
            let before = old(kdflist)@;
            if res is Ok && storable(before) {
                lemma_storable_parts(before);
                lemma_disassoc_group_readable(before, self.key@, strs_view(self.names@));
                lemma_held_storable(*kdflist);
            }
        }
        res
    }
}

/// Takes every group of `names` from the entry `key` of the registry in
/// `storage`.
///
/// It is an error to take away a group that the entry does not carry, the
/// group `everyone`, or a group that no other entry carries. A call that
/// names `everyone` fails before `storage` is touched.
pub fn disassoc_group<S: Storage>(storage: &S, key: &str, names: &[&str]) -> (res: Result<
    (),
    Error,
>)
    ensures
        first_index(strs_view(names@), is_name(GROUP_EVERYONE@)) is Some ==> res is Err
            && res->Err_0@ == ErrorView::CannotDisassocGroup(GROUP_EVERYONE@),
        res is Ok ==> exists|before: KdfListView|
            storable(before) && #[trigger] disassoc_group_outcome(before, key@, strs_view(names@))
                is Ok && storable(disassoc_group_outcome(before, key@, strs_view(names@))->Ok_0),
{
    if find_str(names, GROUP_EVERYONE).is_some() {
        return Err(Error::CannotDisassocGroup(GROUP_EVERYONE.to_owned()));
    }
    let edit = DisassocGroup { key, names };
    let res = edit_kdflist(storage, &edit);
    proof {
        if res is Ok {
            let (before, after) = choose|before: KdfListView, after: KdfListView|
                storable(before) && #[trigger] edit.permits(before, after, Ok(res->Ok_0));
            assert(disassoc_group_outcome(before, key@, strs_view(names@)) is Ok);
            assert(storable(disassoc_group_outcome(before, key@, strs_view(names@))->Ok_0));
        }
    }
    res
}

/// The edit that destroys groups.
pub struct DestroyGroup<'a> {
    pub names: &'a [&'a str],
}

impl<'a> KdfEdit for DestroyGroup<'a> {
    type Output = ();

    open spec fn permits(
        &self,
        before: KdfListView,
        after: KdfListView,
        res: Result<(), Error>,
    ) -> bool {
        edit_done(res, before, after, destroy_group_outcome(before, strs_view(self.names@)))
            && (storable(before) ==> storable(after))
    }

    fn apply(&self, kdflist: &mut KdfList) -> (res: Result<(), Error>) {
        let res = edit_destroy_group(kdflist, self.names);
        proof {
            let before = old(kdflist)@;
            if res is Ok && storable(before) {
                lemma_storable_parts(before);
                lemma_destroy_group_readable(before, strs_view(self.names@));
                lemma_held_storable(*kdflist);
            }
        }
        res
    }
}

/// The first of `names` that is a group built in.
pub fn find_builtin(names: &[&str]) -> (found: Option<usize>)
    ensures
        found is Some <==> first_index(strs_view(names@), is_builtin()) is Some,
        found is Some ==> first_index(strs_view(names@), is_builtin()) == Some(
            found->Some_0 as int,
        ) && found->Some_0 < names.len(),
{
    let ghost all = strs_view(names@);
    let ghost builtin = is_builtin();
    let mut k: usize = 0;
    while k < names.len()
        invariant
            k <= names.len(),
            all == strs_view(names@),
            builtin == is_builtin(),
            forall|j: int| 0 <= j < k ==> !builtin(all[j]),
        decreases names.len() - k,
    {
        assert(all[k as int] == names@[k as int]@);
        if str_eq(names[k], GROUP_EVERYONE) || str_eq(names[k], GROUP_ROOT) {
            proof {
                assert(builtin(all[k as int]));
                lemma_first_index_is(all, builtin, k as int);
            }
            return Some(k);
        }
        k += 1;
    }
    proof {
        lemma_first_index_is(all, builtin, k as int);
    }
    None
}

/// Takes every group of `names` from every entry of the registry in
/// `storage`.
///
/// It is an error to destroy the groups `everyone` and `root`, and to
/// destroy a group that no entry carries. A call that names `everyone` or
/// `root` fails before `storage` is touched.
pub fn destroy_group<S: Storage>(storage: &S, names: &[&str]) -> (res: Result<(), Error>)
    ensures
        first_index(strs_view(names@), is_builtin()) matches Some(k) ==> res is Err
            && res->Err_0@ == ErrorView::CannotDestroyGroup(strs_view(names@)[k]),
        res is Ok ==> exists|before: KdfListView|
            storable(before) && #[trigger] destroy_group_outcome(before, strs_view(names@)) is Ok
                && storable(destroy_group_outcome(before, strs_view(names@))->Ok_0),
{
    match find_builtin(names) {
        Some(k) => {
            assert(strs_view(names@)[k as int] == names@[k as int]@);
            return Err(Error::CannotDestroyGroup(names[k].to_owned()));
        },
        None => {},
    }
    let edit = DestroyGroup { names };
    let res = edit_kdflist(storage, &edit);
    proof {
        if res is Ok {
            let (before, after) = choose|before: KdfListView, after: KdfListView|
                storable(before) && #[trigger] edit.permits(before, after, Ok(res->Ok_0));
            assert(destroy_group_outcome(before, strs_view(names@)) is Ok);
            assert(storable(destroy_group_outcome(before, strs_view(names@))->Ok_0));
        }
    }
    res
}

/// What may be shown of an entry of the registry: its name and everything
/// but the binary fields.
#[derive(Debug, Clone)]
pub struct KeyInfo {
    pub name: String,
    pub algorithm: String,
    pub created: Timestamp,
    pub updated: Option<Timestamp>,
    pub used: Option<Timestamp>,
    pub groups: Vec<String>,
}

/// The mathematical value of a `KeyInfo`.
pub struct KeyInfoView {
    pub name: Seq<char>,
    pub algorithm: Seq<char>,
    pub created: Timestamp,
    pub updated: Option<Timestamp>,
    pub used: Option<Timestamp>,
    pub groups: Seq<Seq<char>>,
}

impl View for KeyInfo {
    type V = KeyInfoView;

    open spec fn view(&self) -> KeyInfoView {
        KeyInfoView {
            name: self.name@,
            algorithm: self.algorithm@,
            created: self.created,
            updated: self.updated,
            used: self.used,
            groups: names_view(self.groups@),
        }
    }
}

/// What may be shown of the entry `entry` with the name `name`.
pub open spec fn key_info_of(name: Seq<char>, entry: KdfEntryView) -> KeyInfoView {
    KeyInfoView {
        name,
        algorithm: entry.algorithm,
        created: entry.created,
        updated: entry.updated,
        used: entry.used,
        groups: entry.group_names,
    }
}

/// What may be shown of each entry of `list`, in order.
pub open spec fn key_infos_of(list: KdfListView) -> Seq<KeyInfoView> {
    Seq::new(list.names.len(), |i: int| key_info_of(list.names[i], list.entries[i]))
}

/// The values held by a sequence of `KeyInfo`s.
pub open spec fn infos_view(infos: Seq<KeyInfo>) -> Seq<KeyInfoView> {
    infos.map_values(|info: KeyInfo| info@)
}

/// What may be shown of each entry of `kdflist`, in order.
pub fn key_infos(kdflist: &KdfList) -> (infos: Vec<KeyInfo>)
    requires
        kdflist.wf(),
    ensures
        infos_view(infos@) == key_infos_of(kdflist@),
{
    let ghost list = kdflist@;
    let mut infos: Vec<KeyInfo> = Vec::new();
    let mut i: usize = 0;
    while i < kdflist.names.len()
        invariant
            i <= kdflist.names.len(),
            kdflist.wf(),
            list == kdflist@,
            infos@.len() == i,
            forall|j: int|
                0 <= j < i ==> (#[trigger] infos@[j])@ == key_info_of(
                    list.names[j],
                    list.entries[j],
                ),
        decreases kdflist.names.len() - i,
    {
        let entry = &kdflist.entries[i];
        assert(list.entries[i as int] == entry@);
        assert(list.names[i as int] == kdflist.names@[i as int]@);
        infos.push(
            KeyInfo {
                name: kdflist.names[i].clone(),
                algorithm: entry.algorithm.clone(),
                created: entry.created,
                updated: entry.updated,
                used: entry.used,
                groups: clone_names(&entry.group_names),
            },
        );
        i += 1;
    }
    assert(infos_view(infos@) =~= key_infos_of(list));
    infos
}

/// What may be shown of each entry of the registry that was read from the
/// storage. Where none was read, there is nothing to show.
pub fn key_infos_of_loaded(loaded: &Option<(KdfList, HashId, u32)>) -> (infos: Vec<KeyInfo>)
    requires
        loaded matches Some(read) ==> read.0.wf(),
    ensures
        match loaded {
            Some(read) => infos_view(infos@) == key_infos_of(read.0@),
            None => infos@.len() == 0,
        },
{
    match loaded {
        Some(read) => key_infos(&read.0),
        None => Vec::new(),
    }
}

/// What may be shown of each entry of the registry in `storage`, in the
/// order in which the entries stand in the registry, which is that in which
/// they were added and not that of their names. Where `storage` holds no
/// registry, there is nothing to show.
pub fn list_keys<S: Storage>(storage: &S) -> (res: Result<Vec<KeyInfo>, Error>)
    ensures
        res is Ok ==> res->Ok_0@.len() == 0 || exists|list: KdfListView|
            list.wf() && infos_view(res->Ok_0@) == #[trigger] key_infos_of(list),
{
    match get_kdflist(storage) {
        Ok(loaded) => Ok(key_infos_of_loaded(&loaded)),
        Err(e) => Err(e),
    }
}

} // verus!
