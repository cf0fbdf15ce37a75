//! Deriving key chains from passphrases.
//!
//! A passphrase is stretched with scrypt under a random salt. The registry
//! keeps, for each passphrase, the salt, the SHA-3 digest of the derived key
//! (by which a passphrase is recognised without the key being kept), and for
//! each group that the passphrase gives access to the exclusive or of the
//! derived key with the group's internal key: the derived key is a one-time
//! pad over each internal key. Many passphrases can so give access to the same
//! internal keys, and a passphrase can be changed without any data being
//! encrypted anew.

use crate::defs::{
    find_name, hash_eq, lemma_position, names_view, position, sha3, sha3_256, str_eq, HashId,
};
use crate::errors::{Error, ErrorView};
use crate::server::crypt::{hixor, lemma_xor_twice, rand_hashid, xor_seq, MasterKey};
use vstd::prelude::*;
use vstd::slice::slice_to_vec;

verus! {

/// The group that every entry of the registry belongs to.
pub const GROUP_EVERYONE: &'static str = "everyone";

/// The group of those who may do everything.
pub const GROUP_ROOT: &'static str = "root";

/// The 32 bytes that scrypt with the parameters N = 2^`log_n`, r = `r` and
/// p = `p` derives from `passphrase` and `salt`.
pub uninterp spec fn scrypt_derived(
    passphrase: Seq<u8>,
    salt: Seq<u8>,
    log_n: u8,
    r: u32,
    p: u32,
) -> Seq<u8>;

/// Calls `crypto::scrypt::scrypt`, with parameters made by
/// `crypto::scrypt::ScryptParams::new`, for 32 bytes of output. The contract
/// names the result. The parameters are held to a range in which that
/// constructor accepts them on machines of 32 bits and more: it wants N
/// below 2^(16 r), and N r 128 and p r 128 to be numbers that the machine
/// can hold.
#[verifier::external_body]
fn scrypt(passphrase: &[u8], salt: &[u8], log_n: u8, r: u32, p: u32) -> (derived: HashId)
    requires
        1 <= log_n <= 20,
        1 <= r <= 16,
        1 <= p <= 16,
        log_n < 16 * r,
    ensures
        derived@ == scrypt_derived(passphrase@, salt@, log_n, r, p),
{
    let sparms = crypto::scrypt::ScryptParams::new(log_n, r, p);
    let mut derived: HashId = [0u8; 32];
    crypto::scrypt::scrypt(passphrase, salt, &sparms, &mut derived);
    derived
}

/// A way of stretching a passphrase into 32 bytes. The combinations of
/// parameters are hardwired, each under a name of its own.
///
/// An entry of the registry records the name of the algorithm it was made
/// with, and a passphrase is tried against it only with that algorithm:
/// whoever works with `scrypt-18-8-1` derives nothing from an entry that
/// records any other name.
#[derive(Clone, Copy, Debug, PartialEq, Eq, Structural)]
pub enum KdfAlgorithm {
    /// scrypt with N = 2^18, r = 8 and p = 1, which takes 256 MB of memory.
    /// This is the algorithm for everything that is to be protected. Every
    /// operation on a storage works with it and with no other, and so does
    /// every function that is not handed an algorithm.
    Scrypt18_8_1,
    /// scrypt with N = 2^12, r = 4 and p = 1. It is cheap enough to be run
    /// over and over, and for that very reason protects nothing: it is for
    /// trying the library out. It has to be asked for by name: the functions
    /// on a registry in memory take it as an argument, and an edit can be
    /// built with it by hand. Nothing made with it is opened by, and nothing
    /// in the library makes it for, those who did not ask.
    Scrypt12_4_1,
}

impl KdfAlgorithm {
    /// The scrypt parameter log2(N).
    pub open spec fn log_n(self) -> u8 {
        match self {
            KdfAlgorithm::Scrypt18_8_1 => 18,
            KdfAlgorithm::Scrypt12_4_1 => 12,
        }
    }

    /// The scrypt parameter r.
    pub open spec fn r(self) -> u32 {
        match self {
            KdfAlgorithm::Scrypt18_8_1 => 8,
            KdfAlgorithm::Scrypt12_4_1 => 4,
        }
    }

    /// The name under which the algorithm is recorded.
    pub open spec fn token(self) -> Seq<char> {
        match self {
            KdfAlgorithm::Scrypt18_8_1 => "scrypt-18-8-1"@,
            KdfAlgorithm::Scrypt12_4_1 => "scrypt-12-4-1"@,
        }
    }

    /// The key that the algorithm derives from `passphrase` and `salt`.
    pub open spec fn derived(self, passphrase: Seq<u8>, salt: Seq<u8>) -> Seq<u8> {
        scrypt_derived(passphrase, salt, self.log_n(), self.r(), 1)
    }

    /// The name under which the algorithm is recorded.
    pub fn name(self) -> (name: &'static str)
        ensures
            name@ == self.token(),
    {
        match self {
            KdfAlgorithm::Scrypt18_8_1 => "scrypt-18-8-1",
            KdfAlgorithm::Scrypt12_4_1 => "scrypt-12-4-1",
        }
    }

    /// Derives a key from `passphrase` and `salt`.
    pub fn derive(self, passphrase: &[u8], salt: &[u8]) -> (derived: HashId)
        ensures
            derived@ == self.derived(passphrase@, salt@),
    {
        match self {
            KdfAlgorithm::Scrypt18_8_1 => scrypt_18_8_1(passphrase, salt),
            KdfAlgorithm::Scrypt12_4_1 => scrypt(passphrase, salt, 12, 4, 1),
        }
    }
}

/// The key that scrypt with N = 2^18, r = 8 and p = 1 derives from
/// `passphrase` and `salt`.
pub fn scrypt_18_8_1(passphrase: &[u8], salt: &[u8]) -> (derived: HashId)
    ensures
        derived@ == KdfAlgorithm::Scrypt18_8_1.derived(passphrase@, salt@),
{
    // The scrypt paper recommends N = 2^14, r = 8, p = 1, and 2^20 is
    // suggested for file encryption, which takes 1 GB of memory. 2^18 is a
    // compromise that takes "only" 256 MB.
    scrypt(passphrase, salt, 18, 8, 1)
}

/// A point in time: the seconds since the start of 1970 in UTC, and the
/// nanoseconds since the start of that second.
#[derive(Clone, Copy, Debug, PartialEq, Eq, Structural)]
pub struct Timestamp {
    pub secs: i64,
    pub nanos: u32,
}

/// The first second that `chrono` takes for a point in time: the start of
/// the year -262144, the first of its calendar.
pub const TIME_FIRST: i64 = -8_334_632_851_200;

/// The last second that `chrono` takes for a point in time: the end of the
/// year 262143, the last of its calendar.
pub const TIME_LAST: i64 = 8_210_298_412_799;

/// The nanoseconds that a second holds at most: those of the second itself
/// and, beyond them, those of a leap second that follows it.
pub const NANOS_END: u32 = 2_000_000_000;

/// The first second of the first day whose number `chrono` can count with.
pub const DAYS_START: i64 = -185_604_754_406_400;

/// The first second of a day whose number `chrono` cannot count with.
pub const DAYS_END: i64 = 185_480_419_968_000;

/// Whether `secs` seconds and `nanos` nanoseconds are a point in time: the
/// second lies within the calendar of `chrono`, and the nanoseconds are those
/// of one second, or of a leap second after it.
pub open spec fn point_in_time(secs: i64, nanos: u32) -> bool {
    TIME_FIRST <= secs <= TIME_LAST && nanos < NANOS_END
}

/// Whether `chrono` can count with the number of the day that holds the
/// second `secs`. It numbers the days from the last day of the year before
/// the year 0, which is 719 528 days before the start of 1970, and holds the
/// number in 32 bits.
pub open spec fn day_in_reach(secs: i64) -> bool {
    i32::MIN <= secs as int / 86_400 + 719_528 <= i32::MAX
}

/// Every point in time lies on a day within the reach of `chrono`.
pub proof fn lemma_point_in_time_in_reach(secs: i64, nanos: u32)
    requires
        point_in_time(secs, nanos),
    ensures
        day_in_reach(secs),
{
}

/// Calls `chrono::NaiveDateTime::from_timestamp_opt` and says whether it
/// found a point in time. It finds one where the nanoseconds are below
/// 2 000 000 000 and the day of the seconds is a date of its calendar, which
/// goes from 1 January of the year -262144 to 31 December of the year 262143.
/// The seconds are held to the days within reach: beyond them the call adds
/// to the number of the day what 32 bits do not hold.
#[verifier::external_body]
fn timestamp_accepted(secs: i64, nanos: u32) -> (ok: bool)
    requires
        day_in_reach(secs),
    ensures
        ok == point_in_time(secs, nanos),
{
    chrono::NaiveDateTime::from_timestamp_opt(secs, nanos).is_some()
}

impl Timestamp {
    /// Calls `chrono::UTC::now` and takes from the point in time it returns
    /// the seconds since the start of 1970 (`timestamp`) and the nanoseconds
    /// within the second (`timestamp_subsec_nanos`). Every point in time that
    /// `chrono` holds lies within its calendar, with nanoseconds below
    /// 2 000 000 000.
    #[verifier::external_body]
    pub(crate) fn now() -> (t: Timestamp)
        ensures
            point_in_time(t.secs, t.nanos),
    {
        let t = chrono::UTC::now();
        Timestamp { secs: t.timestamp(), nanos: t.timestamp_subsec_nanos() }
    }

    /// Whether the day that holds the second `secs` is within the reach of
    /// `chrono`.
    pub fn is_day_in_reach(secs: i64) -> (ok: bool)
        ensures
            ok == day_in_reach(secs),
    {
        assert(day_in_reach(secs) <==> DAYS_START <= secs < DAYS_END) by (nonlinear_arith);
        DAYS_START <= secs && secs < DAYS_END
    }

    /// Whether `secs` seconds and `nanos` nanoseconds are a point in time.
    /// Seconds beyond the days within the reach of `chrono` are none, and of
    /// the others `chrono` decides.
    pub fn is_point_in_time(secs: i64, nanos: u32) -> (ok: bool)
        ensures
            ok == point_in_time(secs, nanos),
    {
        Timestamp::is_day_in_reach(secs) && timestamp_accepted(secs, nanos)
    }
}

/// The byte strings held by a sequence of keys.
pub open spec fn keys_view(keys: Seq<MasterKey>) -> Seq<Seq<u8>> {
    keys.map_values(|k: MasterKey| k@)
}

/// The byte strings held by a sequence of identifiers.
pub open spec fn diffs_view(diffs: Seq<HashId>) -> Seq<Seq<u8>> {
    diffs.map_values(|d: HashId| d@)
}

/// Whether no name stands twice in `names`.
pub open spec fn distinct(names: Seq<Seq<char>>) -> bool {
    forall|i: int, j: int| 0 <= i < j < names.len() ==> names[i] != names[j]
}

/// The mathematical value of a `KeyChain`: the names of its groups and, at
/// the same positions, their internal keys.
pub struct KeyChainView {
    pub names: Seq<Seq<char>>,
    pub keys: Seq<Seq<u8>>,
}

impl KeyChainView {
    /// Whether every group has one key of 32 bytes and no group stands twice.
    pub open spec fn wf(self) -> bool {
        &&& self.names.len() == self.keys.len()
        &&& distinct(self.names)
        &&& forall|i: int| 0 <= i < self.keys.len() ==> (#[trigger] self.keys[i]).len() == 32
    }

    /// The internal key of the group `name`, where the chain has it.
    pub open spec fn key(self, name: Seq<char>) -> Option<Seq<u8>> {
        match position(self.names, name) {
            Some(i) => Some(self.keys[i]),
            None => None,
        }
    }
}

/// `chain` with `key` as the key of the group `name`, in place of the one it
/// had or at the end.
pub open spec fn chain_insert(chain: KeyChainView, name: Seq<char>, key: Seq<u8>) -> KeyChainView {
    match position(chain.names, name) {
        Some(i) => KeyChainView { names: chain.names, keys: chain.keys.update(i, key) },
        None => KeyChainView { names: chain.names.push(name), keys: chain.keys.push(key) },
    }
}

/// The internal keys that a passphrase gives access to, each under the name
/// of its group. The groups stand in the order in which they were added, not
/// in that of their names.
#[derive(Clone, PartialEq, Eq)]
pub struct KeyChain {
    /// The names of the groups, none of them twice.
    pub names: Vec<String>,
    /// The internal key of each group, at the position of its name.
    pub keys: Vec<MasterKey>,
}

impl View for KeyChain {
    type V = KeyChainView;

    open spec fn view(&self) -> KeyChainView {
        KeyChainView { names: names_view(self.names@), keys: keys_view(self.keys@) }
    }
}

impl KeyChain {
    /// Whether every group has one key and no group stands twice.
    pub open spec fn wf(&self) -> bool {
        self@.wf()
    }

    /// A chain without any key.
    pub fn empty() -> (chain: KeyChain)
        ensures
            chain.wf(),
            chain@.names.len() == 0,
    {
        KeyChain { names: Vec::new(), keys: Vec::new() }
    }

    /// A chain of fresh random keys for the groups `everyone` and `root`.
    pub fn generate_new() -> (chain: KeyChain)
        ensures
            chain.wf(),
            chain@.names == seq![GROUP_EVERYONE@, GROUP_ROOT@],
    {
        let mut names: Vec<String> = Vec::new();
        names.push(GROUP_EVERYONE.to_owned());
        names.push(GROUP_ROOT.to_owned());
        let mut keys: Vec<MasterKey> = Vec::new();
        let everyone = MasterKey::generate_new();
        let root = MasterKey::generate_new();
        keys.push(everyone);
        keys.push(root);
        let chain = KeyChain { names, keys };
        proof {
            reveal_strlit("everyone");
            reveal_strlit("root");
            assert(GROUP_EVERYONE@.len() != GROUP_ROOT@.len());
            assert(chain@.names =~= seq![GROUP_EVERYONE@, GROUP_ROOT@]);
            everyone.lemma_len();
            root.lemma_len();
        }
        chain
    }

    /// The number of groups.
    pub fn len(&self) -> (n: usize)
        ensures
            n == self@.names.len(),
    {
        self.names.len()
    }

    /// Whether the chain holds a key for the group `name`.
    pub fn contains_key(&self, name: &str) -> (held: bool)
        ensures
            held == self@.key(name@).is_some(),
    {
        find_name(&self.names, name).is_some()
    }

    /// The internal key of the group `name`. Fails with `KeyNotInGroup` where
    /// the chain holds none.
    pub fn key(&self, name: &str) -> (res: Result<MasterKey, Error>)
        requires
            self.wf(),
        ensures
            match self@.key(name@) {
                Some(k) => res is Ok && res->Ok_0@ == k,
                None => res is Err && res->Err_0@ == ErrorView::KeyNotInGroup(name@),
            },
    {
        match find_name(&self.names, name) {
            Some(i) => Ok(self.keys[i]),
            None => Err(Error::KeyNotInGroup(name.to_owned())),
        }
    }

    /// Gives the group `name` the key `key`, in place of the one it had or at
    /// the end of the chain.
    pub fn insert(&mut self, name: &str, key: MasterKey)
        requires
            old(self).wf(),
        ensures
            final(self).wf(),
            final(self)@.key(name@) == Some(key@),
            final(self)@ == chain_insert(old(self)@, name@, key@),
    {
        proof {
            key.lemma_len();
            lemma_position(self@.names, name@);
        }
        match find_name(&self.names, name) {
            Some(i) => {
                self.keys[i] = key;
                proof {
                    assert(self@.keys =~= old(self)@.keys.update(i as int, key@));
                    assert(self@.names == old(self)@.names);
                    assert(self@.keys[i as int] == key@);
                }
            },
            None => {
                self.names.push(name.to_owned());
                self.keys.push(key);
                proof {
                    let n = old(self)@.names.len() as int;
                    assert(self@.names =~= old(self)@.names.push(name@));
                    assert(self@.keys =~= old(self)@.keys.push(key@));
                    lemma_position(self@.names, name@);
                    assert(self@.names[n] == name@);
                    let found = position(self@.names, name@)->Some_0;
                    if found < n {
                        assert(self@.names[found] == old(self)@.names[found]);
                    }
                    assert(found == n);
                    assert(self@.keys[n] == key@);
                }
            },
        }
    }
}

/// The mathematical value of a `KdfEntry`.
pub struct KdfEntryView {
    pub created: Timestamp,
    pub updated: Option<Timestamp>,
    pub used: Option<Timestamp>,
    pub algorithm: Seq<char>,
    pub salt: Seq<u8>,
    pub hash: Seq<u8>,
    pub group_names: Seq<Seq<char>>,
    pub group_diffs: Seq<Seq<u8>>,
    pub unknown: Seq<u8>,
}

impl KdfEntryView {
    /// Whether every group has one wrap and no group stands twice.
    pub open spec fn wf(self) -> bool {
        &&& self.group_names.len() == self.group_diffs.len()
        &&& distinct(self.group_names)
    }

    /// Whether the entry carries the group `name`.
    pub open spec fn has_group(self, name: Seq<char>) -> bool {
        position(self.group_names, name).is_some()
    }
}

/// A single passphrase that gives access to internal keys.
#[derive(Clone, Debug, PartialEq, Eq)]
pub struct KdfEntry {
    /// The time this entry was created.
    pub created: Timestamp,
    /// The time the passphrase of this entry was last changed.
    pub updated: Option<Timestamp>,
    /// The time this entry was last used to derive the internal keys.
    pub used: Option<Timestamp>,
    /// The name of the algorithm that stretches the passphrase.
    pub algorithm: String,
    /// The random salt.
    pub salt: HashId,
    /// The SHA-3 digest of the derived key, by which the right passphrase is
    /// recognised.
    pub hash: HashId,
    /// The names of the groups that the passphrase gives access to, none of
    /// them twice, in the order in which the entry received them.
    pub group_names: Vec<String>,
    /// For each group, at the position of its name, the exclusive or of the
    /// derived key with the internal key of the group.
    pub group_diffs: Vec<HashId>,
    /// The stored form of the fields that were found with the entry and are
    /// not known here. They are kept so that they can be written back.
    pub unknown: Vec<u8>,
}

impl View for KdfEntry {
    type V = KdfEntryView;

    open spec fn view(&self) -> KdfEntryView {
        KdfEntryView {
            created: self.created,
            updated: self.updated,
            used: self.used,
            algorithm: self.algorithm@,
            salt: self.salt@,
            hash: self.hash@,
            group_names: names_view(self.group_names@),
            group_diffs: diffs_view(self.group_diffs@),
            unknown: self.unknown@,
        }
    }
}

impl KdfEntry {
    /// Whether every group has one wrap and no group stands twice.
    pub open spec fn wf(&self) -> bool {
        self@.wf()
    }
}

/// The mathematical value of a `KdfList`: the names of its entries and, at
/// the same positions, the entries.
pub struct KdfListView {
    pub names: Seq<Seq<char>>,
    pub entries: Seq<KdfEntryView>,
    pub unknown: Seq<u8>,
}

impl KdfListView {
    /// Whether every name has one entry, no name stands twice, and every
    /// entry is well formed.
    pub open spec fn wf(self) -> bool {
        &&& self.names.len() == self.entries.len()
        &&& distinct(self.names)
        &&& forall|i: int| 0 <= i < self.entries.len() ==> (#[trigger] self.entries[i]).wf()
    }

    /// Whether some entry carries the group `name`.
    pub open spec fn has_group(self, name: Seq<char>) -> bool {
        any_has_group(self.entries, name)
    }
}

/// Whether one of `entries` carries the group `name`.
pub open spec fn any_has_group(entries: Seq<KdfEntryView>, name: Seq<char>) -> bool {
    exists|i: int| 0 <= i < entries.len() && (#[trigger] entries[i]).has_group(name)
}

/// The entries held by a sequence of entries.
pub open spec fn entries_view(entries: Seq<KdfEntry>) -> Seq<KdfEntryView> {
    entries.map_values(|e: KdfEntry| e@)
}

/// The registry of passphrases, kept on the server as the directory whose
/// identifier is all zero.
///
/// The entries stand in the order in which they were added, and that is the
/// order in which they are stored, listed and tried against a passphrase: no
/// order by name is kept. Where a passphrase matches more than one entry, it
/// opens the one that was added first. A registry that was stored in another
/// order, such as that of the names, is read and kept in the order it has.
#[derive(Clone, Debug, PartialEq, Eq)]
pub struct KdfList {
    /// The names of the entries, none of them twice.
    pub names: Vec<String>,
    /// The entries, each at the position of its name.
    pub entries: Vec<KdfEntry>,
    /// The stored form of the fields that were found with the registry and
    /// are not known here. They are kept so that they can be written back.
    pub unknown: Vec<u8>,
}

impl View for KdfList {
    type V = KdfListView;

    open spec fn view(&self) -> KdfListView {
        KdfListView {
            names: names_view(self.names@),
            entries: entries_view(self.entries@),
            unknown: self.unknown@,
        }
    }
}

impl KdfList {
    /// Whether every name has one entry, no name stands twice, and every
    /// entry is well formed.
    pub open spec fn wf(&self) -> bool {
        self@.wf()
    }
}

/// Each of `keys` under the one-time pad `derived`.
pub open spec fn wrapped(derived: Seq<u8>, keys: Seq<Seq<u8>>) -> Seq<Seq<u8>> {
    keys.map_values(|k: Seq<u8>| xor_seq(derived, k))
}

/// The entry that gives `passphrase` access to `chain`, with the salt `salt`.
pub open spec fn created_entry(
    algorithm: KdfAlgorithm,
    passphrase: Seq<u8>,
    salt: Seq<u8>,
    chain: KeyChainView,
    created: Timestamp,
    updated: Option<Timestamp>,
    used: Option<Timestamp>,
) -> KdfEntryView {
    let derived = algorithm.derived(passphrase, salt);
    KdfEntryView {
        created,
        updated,
        used,
        algorithm: algorithm.token(),
        salt,
        hash: sha3_256(derived),
        group_names: chain.names,
        group_diffs: wrapped(derived, chain.keys),
        unknown: Seq::empty(),
    }
}

/// The key that `algorithm` derives from `passphrase` and the salt of
/// `entry`, where `entry` records that algorithm. From an entry that records
/// any other name nothing is derived.
pub open spec fn entry_derived(
    algorithm: KdfAlgorithm,
    passphrase: Seq<u8>,
    entry: KdfEntryView,
) -> Option<Seq<u8>> {
    if entry.algorithm == algorithm.token() {
        Some(algorithm.derived(passphrase, entry.salt))
    } else {
        None
    }
}

/// Whether `passphrase` is the passphrase of `entry` under `algorithm`, as
/// far as the entry tells: it records that algorithm, and the digest of the
/// derived key is the one recorded.
pub open spec fn entry_matches(
    algorithm: KdfAlgorithm,
    passphrase: Seq<u8>,
    entry: KdfEntryView,
) -> bool {
    match entry_derived(algorithm, passphrase, entry) {
        Some(derived) => sha3_256(derived) == entry.hash,
        None => false,
    }
}

/// The key chain that `passphrase` unwraps from `entry` under `algorithm`.
pub open spec fn unwrapped(
    algorithm: KdfAlgorithm,
    passphrase: Seq<u8>,
    entry: KdfEntryView,
) -> KeyChainView {
    KeyChainView {
        names: entry.group_names,
        keys: wrapped(entry_derived(algorithm, passphrase, entry)->Some_0, entry.group_diffs),
    }
}

/// The position of the first of `entries` that `passphrase` matches under
/// `algorithm`.
pub open spec fn first_match(
    algorithm: KdfAlgorithm,
    passphrase: Seq<u8>,
    entries: Seq<KdfEntryView>,
) -> Option<int>
    decreases entries.len(),
{
    if entries.len() == 0 {
        None
    } else if entry_matches(algorithm, passphrase, entries[0]) {
        Some(0int)
    } else {
        match first_match(algorithm, passphrase, entries.drop_first()) {
            Some(i) => Some(i + 1),
            None => None,
        }
    }
}

/// What `first_match` finds is the first entry that matches, and it finds
/// nothing only where none does.
pub proof fn lemma_first_match(
    algorithm: KdfAlgorithm,
    passphrase: Seq<u8>,
    entries: Seq<KdfEntryView>,
)
    ensures
        match first_match(algorithm, passphrase, entries) {
            Some(i) => 0 <= i < entries.len() && entry_matches(algorithm, passphrase, entries[i])
                && forall|j: int|
                0 <= j < i ==> !entry_matches(algorithm, passphrase, #[trigger] entries[j]),
            None => forall|j: int|
                0 <= j < entries.len() ==> !entry_matches(
                    algorithm,
                    passphrase,
                    #[trigger] entries[j],
                ),
        },
    decreases entries.len(),
{
    if entries.len() > 0 && !entry_matches(algorithm, passphrase, entries[0]) {
        let rest = entries.drop_first();
        lemma_first_match(algorithm, passphrase, rest);
        match first_match(algorithm, passphrase, rest) {
            Some(i) => {
                assert forall|j: int| 0 <= j < i + 1 implies !entry_matches(
                    algorithm,
                    passphrase,
                    #[trigger] entries[j],
                ) by {
                    if j > 0 {
                        assert(entries[j] == rest[j - 1]);
                    }
                }
            },
            None => {
                assert forall|j: int| 0 <= j < entries.len() implies !entry_matches(
                    algorithm,
                    passphrase,
                    #[trigger] entries[j],
                ) by {
                    if j > 0 {
                        assert(entries[j] == rest[j - 1]);
                    }
                }
            },
        }
    }
}

/// The key chain that `passphrase` derives from `entries` under
/// `algorithm`: the one that it unwraps from the first entry it matches.
pub open spec fn derived_chain(
    algorithm: KdfAlgorithm,
    passphrase: Seq<u8>,
    entries: Seq<KdfEntryView>,
) -> Option<KeyChainView> {
    match first_match(algorithm, passphrase, entries) {
        Some(i) => Some(unwrapped(algorithm, passphrase, entries[i])),
        None => None,
    }
}

/// An entry gives its passphrase access to the chain it was created for: the
/// passphrase matches the entry and unwraps that chain from it.
pub proof fn lemma_created_entry_derives(
    algorithm: KdfAlgorithm,
    passphrase: Seq<u8>,
    salt: Seq<u8>,
    chain: KeyChainView,
    created: Timestamp,
    updated: Option<Timestamp>,
    used: Option<Timestamp>,
)
    requires
        chain.wf(),
    ensures
        created_entry(algorithm, passphrase, salt, chain, created, updated, used).wf(),
        entry_matches(
            algorithm,
            passphrase,
            created_entry(algorithm, passphrase, salt, chain, created, updated, used),
        ),
        unwrapped(
            algorithm,
            passphrase,
            created_entry(algorithm, passphrase, salt, chain, created, updated, used),
        ) == chain,
{
    let entry = created_entry(algorithm, passphrase, salt, chain, created, updated, used);
    let derived = algorithm.derived(passphrase, salt);
    lemma_rewrap(derived, chain.keys);
    assert(unwrapped(algorithm, passphrase, entry).keys == chain.keys);
}

/// Unwrapping what was wrapped under the same pad gives the keys back.
pub proof fn lemma_rewrap(derived: Seq<u8>, keys: Seq<Seq<u8>>)
    requires
        forall|i: int| 0 <= i < keys.len() ==> (#[trigger] keys[i]).len() == 32,
    ensures
        wrapped(derived, wrapped(derived, keys)) == keys,
{
    assert forall|i: int| 0 <= i < keys.len() implies wrapped(derived, wrapped(derived, keys))[i]
        == keys[i] by {
        lemma_xor_twice(derived, keys[i]);
    }
    assert(wrapped(derived, wrapped(derived, keys)) =~= keys);
}

/// A passphrase derives from a registry the chain of the entry that was
/// created for it, unless it matches an entry before that one: where the
/// entry at position `i` was created for `passphrase` and `chain`, and
/// `passphrase` matches no earlier entry, it derives `chain`.
pub proof fn lemma_registry_derives_created(
    passphrase: Seq<u8>,
    entries: Seq<KdfEntryView>,
    i: int,
    algorithm: KdfAlgorithm,
    salt: Seq<u8>,
    chain: KeyChainView,
)
    requires
        chain.wf(),
        0 <= i < entries.len(),
        entries[i] == created_entry(
            algorithm,
            passphrase,
            salt,
            chain,
            entries[i].created,
            entries[i].updated,
            entries[i].used,
        ),
        forall|j: int|
            0 <= j < i ==> !entry_matches(algorithm, passphrase, #[trigger] entries[j]),
    ensures
        derived_chain(algorithm, passphrase, entries) == Some(chain),
{
    lemma_created_entry_derives(
        algorithm,
        passphrase,
        salt,
        chain,
        entries[i].created,
        entries[i].updated,
        entries[i].used,
    );
    lemma_first_match(algorithm, passphrase, entries);
}

/// A passphrase derives nothing from a registry none of whose entries
/// records the digest of the key derived from it.
pub proof fn lemma_registry_rejects_unknown(
    algorithm: KdfAlgorithm,
    passphrase: Seq<u8>,
    entries: Seq<KdfEntryView>,
)
    requires
        forall|j: int|
            0 <= j < entries.len() ==> !entry_matches(
                algorithm,
                passphrase,
                #[trigger] entries[j],
            ),
    ensures
        derived_chain(algorithm, passphrase, entries) is None,
{
    lemma_first_match(algorithm, passphrase, entries);
}

/// The names in `names`, copied.
pub fn clone_names(names: &Vec<String>) -> (copy: Vec<String>)
    ensures
        names_view(copy@) == names_view(names@),
{
    let mut copy: Vec<String> = Vec::new();
    let mut i: usize = 0;
    while i < names.len()
        invariant
            i <= names.len(),
            names_view(copy@) == names_view(names@.take(i as int)),
        decreases names.len() - i,
    {
        let ghost before = copy@;
        copy.push(names[i].clone());
        proof {
            assert(names@.take(i + 1) =~= names@.take(i as int).push(names@[i as int]));
            assert(names_view(copy@) =~= names_view(before).push(names@[i as int]@));
            assert(names_view(names@.take(i + 1)) =~= names_view(names@.take(i as int)).push(
                names@[i as int]@,
            ));
        }
        i += 1;
    }
    assert(names@.take(names.len() as int) =~= names@);
    copy
}

/// Each of `keys` under the one-time pad `derived`.
pub fn wrap_keys(derived: &HashId, keys: &Vec<MasterKey>) -> (diffs: Vec<HashId>)
    ensures
        diffs_view(diffs@) == wrapped(derived@, keys_view(keys@)),
{
    let mut diffs: Vec<HashId> = Vec::new();
    let mut i: usize = 0;
    while i < keys.len()
        invariant
            i <= keys.len(),
            diffs@.len() == i,
            forall|j: int|
                0 <= j < i ==> (#[trigger] diffs@[j])@ == xor_seq(derived@, keys@[j]@),
        decreases keys.len() - i,
    {
        let key = keys[i].to_bytes();
        diffs.push(hixor(derived, &key));
        i += 1;
    }
    assert(diffs_view(diffs@) =~= wrapped(derived@, keys_view(keys@)));
    diffs
}

/// Each of `diffs` without the one-time pad `derived`.
pub fn unwrap_keys(derived: &HashId, diffs: &Vec<HashId>) -> (keys: Vec<MasterKey>)
    ensures
        keys_view(keys@) == wrapped(derived@, diffs_view(diffs@)),
        forall|i: int| 0 <= i < keys@.len() ==> (#[trigger] keys_view(keys@)[i]).len() == 32,
{
    let mut keys: Vec<MasterKey> = Vec::new();
    let mut i: usize = 0;
    while i < diffs.len()
        invariant
            i <= diffs.len(),
            keys@.len() == i,
            forall|j: int|
                0 <= j < i ==> (#[trigger] keys@[j])@ == xor_seq(derived@, diffs@[j]@),
        decreases diffs.len() - i,
    {
        keys.push(MasterKey::from_bytes(hixor(derived, &diffs[i])));
        i += 1;
    }
    assert(keys_view(keys@) =~= wrapped(derived@, diffs_view(diffs@)));
    keys
}

/// Creates the entry that gives `passphrase` access to `chain`, with the
/// algorithm `algorithm` and the salt `salt`.
pub fn create_key_with(
    algorithm: KdfAlgorithm,
    salt: &HashId,
    passphrase: &[u8],
    chain: &KeyChain,
    created: Timestamp,
    updated: Option<Timestamp>,
    used: Option<Timestamp>,
) -> (entry: KdfEntry)
    requires
        chain.wf(),
    ensures
        entry@ == created_entry(algorithm, passphrase@, salt@, chain@, created, updated, used),
        entry.wf(),
        entry_matches(algorithm, passphrase@, entry@),
        unwrapped(algorithm, passphrase@, entry@) == chain@,
{
    let derived = algorithm.derive(passphrase, salt);
    proof {
        lemma_created_entry_derives(
            algorithm,
            passphrase@,
            salt@,
            chain@,
            created,
            updated,
            used,
        );
    }
    KdfEntry {
        created,
        updated,
        used,
        algorithm: algorithm.name().to_owned(),
        salt: *salt,
        hash: sha3(&derived),
        group_names: clone_names(&chain.names),
        group_diffs: wrap_keys(&derived, &chain.keys),
        unknown: Vec::new(),
    }
}

/// Creates an entry that gives `passphrase` access to `chain`, with the
/// algorithm `scrypt-18-8-1` and a fresh random salt.
///
/// The caller provides the times to record.
pub fn create_key(
    passphrase: &[u8],
    chain: &KeyChain,
    created: Timestamp,
    updated: Option<Timestamp>,
    used: Option<Timestamp>,
) -> (entry: KdfEntry)
    requires
        chain.wf(),
    ensures
        entry@ == created_entry(
            KdfAlgorithm::Scrypt18_8_1,
            passphrase@,
            entry@.salt,
            chain@,
            created,
            updated,
            used,
        ),
        entry.wf(),
        entry_matches(KdfAlgorithm::Scrypt18_8_1, passphrase@, entry@),
        unwrapped(KdfAlgorithm::Scrypt18_8_1, passphrase@, entry@) == chain@,
{
    let salt = rand_hashid();
    create_key_with(KdfAlgorithm::Scrypt18_8_1, &salt, passphrase, chain, created, updated, used)
}

/// Tries `passphrase` against `entry` with `algorithm`. Where the entry
/// records that algorithm and the passphrase matches, returns the key chain
/// that it unwraps, together with the derived key.
pub fn derive_single(algorithm: KdfAlgorithm, passphrase: &[u8], entry: &KdfEntry) -> (res: Option<
    (KeyChain, HashId),
>)
    requires
        entry.wf(),
    ensures
        res is Some <==> entry_matches(algorithm, passphrase@, entry@),
        res is Some ==> res->Some_0.0@ == unwrapped(algorithm, passphrase@, entry@)
            && res->Some_0.0.wf() && Some(res->Some_0.1@) == entry_derived(
            algorithm,
            passphrase@,
            entry@,
        ),
{
    if !str_eq(entry.algorithm.as_str(), algorithm.name()) {
        return None;
    }
    let derived = algorithm.derive(passphrase, &entry.salt);
    let digest = sha3(&derived);
    if hash_eq(&digest, &entry.hash) {
        let chain = KeyChain {
            names: clone_names(&entry.group_names),
            keys: unwrap_keys(&derived, &entry.group_diffs),
        };
        Some((chain, derived))
    } else {
        None
    }
}

/// Tries `passphrase` against `entry` with `algorithm`. Where the entry
/// records that algorithm and the passphrase matches, returns the key chain
/// that it unwraps.
pub fn try_derive_key_single_with(
    algorithm: KdfAlgorithm,
    passphrase: &[u8],
    entry: &KdfEntry,
) -> (res: Option<KeyChain>)
    requires
        entry.wf(),
    ensures
        res is Some <==> entry_matches(algorithm, passphrase@, entry@),
        res is Some ==> res->Some_0@ == unwrapped(algorithm, passphrase@, entry@)
            && res->Some_0.wf(),
{
    match derive_single(algorithm, passphrase, entry) {
        Some((chain, _)) => Some(chain),
        None => None,
    }
}

/// Tries `passphrase` against `entry`. Where the entry records the
/// algorithm `scrypt-18-8-1` and the digest of the key derived from the
/// passphrase and the entry's salt is the one recorded, returns the key chain
/// that the derived key unwraps. From an entry that records any other
/// algorithm nothing is derived.
pub fn try_derive_key_single(passphrase: &[u8], entry: &KdfEntry) -> (res: Option<KeyChain>)
    requires
        entry.wf(),
    ensures
        res is Some <==> entry@.algorithm == "scrypt-18-8-1"@ && sha3_256(
            KdfAlgorithm::Scrypt18_8_1.derived(passphrase@, entry@.salt),
        ) == entry@.hash,
        res is Some ==> res->Some_0.wf() && res->Some_0@ == (KeyChainView {
            names: entry@.group_names,
            keys: wrapped(
                KdfAlgorithm::Scrypt18_8_1.derived(passphrase@, entry@.salt),
                entry@.group_diffs,
            ),
        }),
        res is Some <==> entry_matches(KdfAlgorithm::Scrypt18_8_1, passphrase@, entry@),
        res is Some ==> res->Some_0@ == unwrapped(KdfAlgorithm::Scrypt18_8_1, passphrase@, entry@),
{
    try_derive_key_single_with(KdfAlgorithm::Scrypt18_8_1, passphrase, entry)
}

/// Tries `passphrase` with `algorithm` against the entries of `keys`, in
/// order, and returns the key chain that it unwraps from the first entry it
/// matches.
pub fn try_derive_key_with(algorithm: KdfAlgorithm, passphrase: &[u8], keys: &KdfList) -> (res:
    Option<KeyChain>)
    requires
        keys.wf(),
    ensures
        match derived_chain(algorithm, passphrase@, keys@.entries) {
            Some(chain) => res is Some && res->Some_0@ == chain && res->Some_0.wf(),
            None => res is None,
        },
{
    let ghost all = keys@.entries;
    proof {
        lemma_first_match(algorithm, passphrase@, all);
    }
    let mut i: usize = 0;
    while i < keys.entries.len()
        invariant
            i <= keys.entries.len(),
            keys.wf(),
            all == keys@.entries,
            forall|j: int|
                0 <= j < i ==> !entry_matches(algorithm, passphrase@, #[trigger] all[j]),
        decreases keys.entries.len() - i,
    {
        assert(all[i as int] == keys.entries@[i as int]@);
        assert(all[i as int].wf());
        match try_derive_key_single_with(algorithm, passphrase, &keys.entries[i]) {
            Some(chain) => {
                proof {
                    lemma_first_match(algorithm, passphrase@, all);
                }
                return Some(chain);
            },
            None => {},
        }
        i += 1;
    }
    proof {
        lemma_first_match(algorithm, passphrase@, all);
    }
    None
}

/// Tries `passphrase` against the entries of `keys`, in order, and returns
/// the key chain that it unwraps from the first entry of the algorithm
/// `scrypt-18-8-1` that it matches.
pub fn try_derive_key(passphrase: &[u8], keys: &KdfList) -> (res: Option<KeyChain>)
    requires
        keys.wf(),
    ensures
        match derived_chain(KdfAlgorithm::Scrypt18_8_1, passphrase@, keys@.entries) {
            Some(chain) => res is Some && res->Some_0@ == chain && res->Some_0.wf(),
            None => res is None,
        },
{
    try_derive_key_with(KdfAlgorithm::Scrypt18_8_1, passphrase, keys)
}

/// `entry` with the groups of `chain`, each wrapped under `derived`.
pub open spec fn regrouped(entry: KdfEntryView, derived: Seq<u8>, chain: KeyChainView) -> KdfEntryView {
    KdfEntryView { group_names: chain.names, group_diffs: wrapped(derived, chain.keys), ..entry }
}

/// Gives `entry` the groups of `chain`, each wrapped under `derived`, the key
/// derived from the passphrase of `entry`.
pub fn reassoc_keys(entry: &mut KdfEntry, chain: &KeyChain, derived: &HashId)
    requires
        chain.wf(),
    ensures
        final(entry)@ == regrouped(old(entry)@, derived@, chain@),
        final(entry).wf(),
        wrapped(derived@, final(entry)@.group_diffs) == chain@.keys,
{
    entry.group_names = clone_names(&chain.names);
    entry.group_diffs = wrap_keys(derived, &chain.keys);
    proof {
        lemma_rewrap(derived@, chain@.keys);
    }
}

/// The identifiers in `diffs`, copied.
pub fn clone_diffs(diffs: &Vec<HashId>) -> (copy: Vec<HashId>)
    ensures
        copy@ == diffs@,
{
    let mut copy: Vec<HashId> = Vec::new();
    let mut i: usize = 0;
    while i < diffs.len()
        invariant
            i <= diffs.len(),
            copy@ == diffs@.take(i as int),
        decreases diffs.len() - i,
    {
        copy.push(diffs[i]);
        assert(diffs@.take(i + 1) =~= diffs@.take(i as int).push(diffs@[i as int]));
        i += 1;
    }
    assert(diffs@.take(diffs.len() as int) =~= diffs@);
    copy
}

impl KdfEntry {
    /// A copy of the entry.
    pub fn copy(&self) -> (copy: KdfEntry)
        ensures
            copy@ == self@,
    {
        KdfEntry {
            created: self.created,
            updated: self.updated,
            used: self.used,
            algorithm: self.algorithm.clone(),
            salt: self.salt,
            hash: self.hash,
            group_names: clone_names(&self.group_names),
            group_diffs: clone_diffs(&self.group_diffs),
            unknown: slice_to_vec(self.unknown.as_slice()),
        }
    }
}

impl KdfList {
    /// A registry without entries.
    pub fn new() -> (list: KdfList)
        ensures
            list.wf(),
            list@.names.len() == 0,
            list@.unknown.len() == 0,
    {
        KdfList { names: Vec::new(), entries: Vec::new(), unknown: Vec::new() }
    }

    /// A copy of the registry.
    pub fn copy(&self) -> (copy: KdfList)
        ensures
            copy@ == self@,
    {
        let mut entries: Vec<KdfEntry> = Vec::new();
        let mut i: usize = 0;
        while i < self.entries.len()
            invariant
                i <= self.entries.len(),
                entries_view(entries@) == entries_view(self.entries@.take(i as int)),
            decreases self.entries.len() - i,
        {
            let ghost before = entries@;
            let entry = self.entries[i].copy();
            entries.push(entry);
            proof {
                assert(self.entries@.take(i + 1) =~= self.entries@.take(i as int).push(
                    self.entries@[i as int],
                ));
                assert(entries_view(entries@) =~= entries_view(before).push(entry@));
                assert(entries_view(self.entries@.take(i + 1)) =~= entries_view(
                    self.entries@.take(i as int),
                ).push(self.entries@[i as int]@));
            }
            i += 1;
        }
        assert(self.entries@.take(self.entries.len() as int) =~= self.entries@);
        KdfList {
            names: clone_names(&self.names),
            entries,
            unknown: slice_to_vec(self.unknown.as_slice()),
        }
    }

    /// The number of entries.
    pub fn len(&self) -> (n: usize)
        ensures
            n == self@.names.len(),
    {
        self.names.len()
    }
}

} // verus!
