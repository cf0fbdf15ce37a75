//! The stored form of the registry of passphrases.
//!
//! The registry is kept as a sequence of tagged fields. A field starts with a
//! descriptor byte, whose upper two bits say what follows and whose lower six
//! bits are the tag, between 1 and 63: an integer (`0x40`) is followed by its
//! value in groups of seven bits, least significant first, each byte but the
//! last with its top bit set; a blob (`0x80`) by its length as such an
//! integer and then its bytes; a struct (`0xC0`) by its own fields and a zero
//! byte. Signed integers are stored "zigzag": 0, -1, 1, -2, 2 and so on.
//!
//! ```text
//! registry := pair* other* 00
//! pair     := C1  81 name  C2 entry 00  00
//! entry    := C1 time 00  [C2 time 00]  [C3 time 00]
//!             84 algorithm  85 salt  86 hash  group* other*
//! group    := C7  81 name  82 wrap  00
//! time     := 41 seconds  42 nanoseconds
//! ```
//!
//! Only this form is read: fields in the order of their tags, integers in
//! their shortest form, no name twice. The fields that follow those known
//! here (`other`), as a later version may write them, are passed over and
//! kept as they stand, and are written back with the registry. Whatever
//! follows the registry is ignored.

use crate::defs::{
    append_bytes, find_name, hash_from_slice, lemma_position, names_view, position, HashId,
};
use crate::errors::Error;
use crate::server::kdf::{
    diffs_view, distinct, entries_view, point_in_time, KdfAlgorithm, KdfEntry, KdfEntryView,
    KdfList, KdfListView, Timestamp, GROUP_EVERYONE, GROUP_ROOT,
};
use vstd::prelude::*;
use vstd::slice::{slice_subrange, slice_to_vec};
use vstd::utf8::{
    decode_utf8, decode_utf8_encode_utf8, encode_utf8, encode_utf8_decode_utf8,
    encode_utf8_valid_utf8, is_ascii_chars, is_ascii_chars_encode_utf8, valid_utf8,
};

verus! {

/// The largest blob that is read.
pub const MAX_BLOB: usize = 16777216;

/// The largest number of items of one collection that is read.
pub const MAX_COLLECT: usize = 65536;

/// The descriptor of an integer field.
pub const INTEGER: u8 = 0x40;

/// The descriptor of a blob field.
pub const BLOB: u8 = 0x80;

/// The descriptor of a struct field.
pub const STRUCT: u8 = 0xC0;

/// The byte that ends a struct.
pub const END: u8 = 0x00;

/// `n` in groups of seven bits, least significant first, each byte but the
/// last with its top bit set.
pub open spec fn varint(n: nat) -> Seq<u8>
    decreases n,
{
    if n < 128 {
        seq![n as u8]
    } else {
        seq![(n % 128 + 128) as u8] + varint(n / 128)
    }
}

/// The integer at the start of `s`, of at most 64 bits and of at most `left`
/// bytes in its shortest form, and what follows it.
pub open spec fn parse_varint(s: Seq<u8>, left: nat) -> Option<(nat, Seq<u8>)>
    decreases left,
{
    if left == 0 || s.len() == 0 {
        None
    } else if s[0] < 128 {
        Some((s[0] as nat, s.skip(1)))
    } else {
        match parse_varint(s.skip(1), (left - 1) as nat) {
            Some((high, rest)) => if high > 0 && s[0] - 128 + 128 * high <= u64::MAX {
                Some(((s[0] - 128 + 128 * high) as nat, rest))
            } else {
                None
            },
            None => None,
        }
    }
}

/// Whether `n` takes at most `left` bytes as an integer.
pub open spec fn fits(n: nat, left: nat) -> bool
    decreases left,
{
    left > 0 && (n < 128 || fits(n / 128, (left - 1) as nat))
}

/// An integer of 64 bits takes at most ten bytes.
pub proof fn lemma_u64_fits(n: nat)
    requires
        n <= u64::MAX,
    ensures
        fits(n, 10),
{
    reveal_with_fuel(fits, 11);
    let n1 = n / 128;
    let n2 = n1 / 128;
    let n3 = n2 / 128;
    let n4 = n3 / 128;
    let n5 = n4 / 128;
    let n6 = n5 / 128;
    let n7 = n6 / 128;
    let n8 = n7 / 128;
    let n9 = n8 / 128;
    assert(n9 < 128);
}

/// Reading what was written gives the integer back, and what followed it.
pub proof fn lemma_varint_round_trip(n: nat, rest: Seq<u8>, left: nat)
    requires
        n <= u64::MAX,
        fits(n, left),
    ensures
        parse_varint(varint(n) + rest, left) == Some((n, rest)),
    decreases left,
{
    let s = varint(n) + rest;
    if n < 128 {
        assert(s.skip(1) =~= rest);
    } else {
        let tail = varint(n / 128) + rest;
        assert(s.skip(1) =~= tail);
        lemma_varint_round_trip(n / 128, rest, (left - 1) as nat);
        assert(s[0] == (n % 128 + 128) as u8);
        assert(s[0] - 128 + 128 * (n / 128) == n);
    }
}

/// Appends `n` to `out` as an integer.
pub fn put_varint(out: &mut Vec<u8>, n: u64)
    ensures
        final(out)@ == old(out)@ + varint(n as nat),
{
    let mut m = n;
    let ghost mut done: Seq<u8> = Seq::empty();
    proof {
        assert(done + varint(m as nat) =~= varint(n as nat));
        assert(out@ =~= old(out)@ + done);
    }
    while m >= 128
        invariant
            out@ == old(out)@ + done,
            done + varint(m as nat) == varint(n as nat),
        decreases m,
    {
        let low: u8 = (m % 128 + 128) as u8;
        out.push(low);
        proof {
            assert(done.push(low) + varint((m / 128) as nat) =~= done + varint(m as nat));
            assert(out@ =~= old(out)@ + done.push(low));
            done = done.push(low);
        }
        m = m / 128;
    }
    out.push(m as u8);
    proof {
        assert(out@ =~= old(out)@ + (done + varint(m as nat)));
    }
}

/// Reads the integer that starts at `pos`, of at most `left` bytes, and
/// returns it with the position behind it.
pub fn get_varint(data: &[u8], pos: usize, left: u8) -> (res: Option<(u64, usize)>)
    ensures
        pos > data.len() ==> res is None,
        pos <= data.len() ==> (
            match parse_varint(data@.skip(pos as int), left as nat) {
                Some((n, rest)) => res is Some && res->Some_0.0 == n && pos < res->Some_0.1
                    <= data.len() && rest == data@.skip(res->Some_0.1 as int),
                None => res is None,
            }
        ),
    decreases left,
{
    if pos > data.len() {
        return None;
    }
    if left == 0 || pos >= data.len() {
        return None;
    }
    let b = data[pos];
    assert(data@.skip(pos as int)[0] == b);
    assert(data@.skip(pos as int).skip(1) =~= data@.skip(pos + 1));
    if b < 128 {
        return Some((b as u64, pos + 1));
    }
    match get_varint(data, pos + 1, left - 1) {
        Some((high, next)) => {
            let low: u64 = (b - 128) as u64;
            if high > 0 && high <= (u64::MAX - low) / 128 {
                Some((low + 128 * high, next))
            } else {
                None
            }
        },
        None => None,
    }
}

/// The stored form of the signed integer `i`: 0, -1, 1, -2, 2 and so on are
/// stored as 0, 1, 2, 3, 4 and so on.
pub open spec fn zigzag(i: i64) -> nat {
    if i >= 0 {
        (2 * i) as nat
    } else {
        (-2 * i - 1) as nat
    }
}

/// The signed integer whose stored form is `n`.
pub open spec fn unzigzag(n: nat) -> i64 {
    if n % 2 == 0 {
        (n / 2) as i64
    } else {
        (-(n / 2) - 1) as i64
    }
}

/// The stored form of the signed integer `i`.
pub fn zigzag_encode(i: i64) -> (n: u64)
    ensures
        n == zigzag(i),
        unzigzag(n as nat) == i,
{
    if i >= 0 {
        (i as u64) * 2
    } else {
        ((-(i + 1)) as u64) * 2 + 1
    }
}

/// The signed integer whose stored form is `n`.
pub fn zigzag_decode(n: u64) -> (i: i64)
    ensures
        i == unzigzag(n as nat),
        zigzag(i) == n,
{
    if n % 2 == 0 {
        (n / 2) as i64
    } else {
        -((n / 2) as i64) - 1
    }
}

/// An integer field with the tag `tag`.
pub open spec fn int_field(tag: u8, n: nat) -> Seq<u8> {
    seq![(INTEGER + tag) as u8] + varint(n)
}

/// The integer field with the tag `tag` at the start of `s`, and what follows
/// it.
pub open spec fn parse_int(s: Seq<u8>, tag: u8) -> Option<(nat, Seq<u8>)> {
    if s.len() > 0 && s[0] == INTEGER + tag {
        parse_varint(s.skip(1), 10)
    } else {
        None
    }
}

/// A blob field with the tag `tag`.
pub open spec fn blob_field(tag: u8, bytes: Seq<u8>) -> Seq<u8> {
    seq![(BLOB + tag) as u8] + varint(bytes.len()) + bytes
}

/// The blob field with the tag `tag` at the start of `s`, of at most
/// `MAX_BLOB` bytes, and what follows it.
pub open spec fn parse_blob(s: Seq<u8>, tag: u8) -> Option<(Seq<u8>, Seq<u8>)> {
    if s.len() > 0 && s[0] == BLOB + tag {
        match parse_varint(s.skip(1), 10) {
            Some((n, rest)) => if n <= MAX_BLOB && n <= rest.len() {
                Some((rest.take(n as int), rest.skip(n as int)))
            } else {
                None
            },
            None => None,
        }
    } else {
        None
    }
}

/// Reading an integer field that was written gives the integer back.
pub proof fn lemma_int_round_trip(tag: u8, n: nat, rest: Seq<u8>)
    requires
        1 <= tag <= 63,
        n <= u64::MAX,
    ensures
        parse_int(int_field(tag, n) + rest, tag) == Some((n, rest)),
{
    let s = int_field(tag, n) + rest;
    assert(s.skip(1) =~= varint(n) + rest);
    lemma_u64_fits(n);
    lemma_varint_round_trip(n, rest, 10);
}

/// Reading a blob field that was written gives the blob back.
pub proof fn lemma_blob_round_trip(tag: u8, bytes: Seq<u8>, rest: Seq<u8>)
    requires
        1 <= tag <= 63,
        bytes.len() <= MAX_BLOB,
    ensures
        parse_blob(blob_field(tag, bytes) + rest, tag) == Some((bytes, rest)),
{
    let s = blob_field(tag, bytes) + rest;
    assert(s.skip(1) =~= varint(bytes.len()) + (bytes + rest));
    lemma_u64_fits(bytes.len());
    lemma_varint_round_trip(bytes.len(), bytes + rest, 10);
    assert((bytes + rest).take(bytes.len() as int) =~= bytes);
    assert((bytes + rest).skip(bytes.len() as int) =~= rest);
}

/// Appends to `out` the integer field with the tag `tag` and the value `n`.
pub fn put_int(out: &mut Vec<u8>, tag: u8, n: u64)
    requires
        1 <= tag <= 63,
    ensures
        final(out)@ == old(out)@ + int_field(tag, n as nat),
{
    out.push(INTEGER + tag);
    put_varint(out, n);
    assert(out@ =~= old(out)@ + int_field(tag, n as nat));
}

/// Appends to `out` the blob field with the tag `tag` and the content
/// `bytes`.
pub fn put_blob(out: &mut Vec<u8>, tag: u8, bytes: &[u8])
    requires
        1 <= tag <= 63,
    ensures
        final(out)@ == old(out)@ + blob_field(tag, bytes@),
{
    out.push(BLOB + tag);
    put_varint(out, bytes.len() as u64);
    append_bytes(out, bytes);
    assert(out@ =~= old(out)@ + blob_field(tag, bytes@));
}

/// Reads the integer field with the tag `tag` that starts at `pos`, and
/// returns its value with the position behind it.
pub fn get_int(data: &[u8], pos: usize, tag: u8) -> (res: Option<(u64, usize)>)
    requires
        1 <= tag <= 63,
    ensures
        pos > data.len() ==> res is None,
        pos <= data.len() ==> (
            match parse_int(data@.skip(pos as int), tag) {
                Some((n, rest)) => res is Some && res->Some_0.0 == n && pos < res->Some_0.1
                    <= data.len() && rest == data@.skip(res->Some_0.1 as int),
                None => res is None,
            }
        ),
{
    if pos > data.len() {
        return None;
    }
    if pos >= data.len() || data[pos] != INTEGER + tag {
        return None;
    }
    assert(data@.skip(pos as int)[0] == data@[pos as int]);
    assert(data@.skip(pos as int).skip(1) =~= data@.skip(pos + 1));
    get_varint(data, pos + 1, 10)
}

/// Reads the blob field with the tag `tag` that starts at `pos`, and returns
/// its content with the position behind it.
pub fn get_blob<'a>(data: &'a [u8], pos: usize, tag: u8) -> (res: Option<(&'a [u8], usize)>)
    requires
        1 <= tag <= 63,
    ensures
        pos > data.len() ==> res is None,
        pos <= data.len() ==> (
            match parse_blob(data@.skip(pos as int), tag) {
                Some((bytes, rest)) => res is Some && res->Some_0.0@ == bytes && pos < res->Some_0.1
                    <= data.len() && rest == data@.skip(res->Some_0.1 as int),
                None => res is None,
            }
        ),
{
    if pos > data.len() {
        return None;
    }
    if pos >= data.len() || data[pos] != BLOB + tag {
        return None;
    }
    assert(data@.skip(pos as int)[0] == data@[pos as int]);
    assert(data@.skip(pos as int).skip(1) =~= data@.skip(pos + 1));
    let (n, start) = match get_varint(data, pos + 1, 10) {
        Some(found) => found,
        None => {
            return None;
        },
    };
    if n > MAX_BLOB as u64 || n > (data.len() - start) as u64 {
        return None;
    }
    let end = start + n as usize;
    let bytes = slice_subrange(data, start, end);
    proof {
        assert(bytes@ =~= data@.skip(start as int).take(n as int));
        assert(data@.skip(start as int).skip(n as int) =~= data@.skip(end as int));
    }
    Some((bytes, end))
}

/// A struct field with the tag `tag` and the fields `body`.
pub open spec fn struct_field(tag: u8, body: Seq<u8>) -> Seq<u8> {
    seq![(STRUCT + tag) as u8] + body + seq![END]
}

/// A blob field that holds a string in UTF-8.
pub open spec fn string_field(tag: u8, chars: Seq<char>) -> Seq<u8> {
    blob_field(tag, encode_utf8(chars))
}

/// The string field with the tag `tag` at the start of `s`, and what follows
/// it.
#[verifier::opaque]
pub open spec fn parse_string(s: Seq<u8>, tag: u8) -> Option<(Seq<char>, Seq<u8>)> {
    match parse_blob(s, tag) {
        Some((bytes, rest)) => if valid_utf8(bytes) {
            Some((decode_utf8(bytes), rest))
        } else {
            None
        },
        None => None,
    }
}

/// The field of 32 bytes with the tag `tag` at the start of `s`, and what
/// follows it.
#[verifier::opaque]
pub open spec fn parse_hash(s: Seq<u8>, tag: u8) -> Option<(Seq<u8>, Seq<u8>)> {
    match parse_blob(s, tag) {
        Some((bytes, rest)) => if bytes.len() == 32 {
            Some((bytes, rest))
        } else {
            None
        },
        None => None,
    }
}

/// Calls `String::from_utf8` of std on a copy of `bytes`: the string that
/// `bytes` encode in UTF-8, where they encode one.
#[verifier::external_body]
fn string_from_utf8(bytes: &[u8]) -> (res: Option<String>)
    ensures
        res is Some <==> valid_utf8(bytes@),
        res is Some ==> res->Some_0@ == decode_utf8(bytes@),
{
    String::from_utf8(bytes.to_vec()).ok()
}

/// The fields of a point in time.
pub open spec fn time_body(t: Timestamp) -> Seq<u8> {
    int_field(1, zigzag(t.secs)) + int_field(2, t.nanos as nat)
}

/// The point in time in the struct field with the tag `tag` at the start of
/// `s`, and what follows it.
#[verifier::opaque]
pub open spec fn parse_time(s: Seq<u8>, tag: u8) -> Option<(Timestamp, Seq<u8>)> {
    if s.len() > 0 && s[0] == STRUCT + tag {
        match parse_int(s.skip(1), 1) {
            Some((secs, r1)) => match parse_int(r1, 2) {
                Some((nanos, r2)) => if nanos <= u32::MAX && r2.len() > 0 && r2[0] == END
                    && point_in_time(unzigzag(secs), nanos as u32) {
                    Some((Timestamp { secs: unzigzag(secs), nanos: nanos as u32 }, r2.skip(1)))
                } else {
                    None
                },
                None => None,
            },
            None => None,
        }
    } else {
        None
    }
}

/// The field of a point in time that may be missing.
pub open spec fn opt_time_field(tag: u8, t: Option<Timestamp>) -> Seq<u8> {
    match t {
        Some(t) => struct_field(tag, time_body(t)),
        None => Seq::empty(),
    }
}

/// The point in time in the struct field with the tag `tag` at the start of
/// `s`, if `s` starts with such a field, and what follows it.
#[verifier::opaque]
pub open spec fn parse_opt_time(s: Seq<u8>, tag: u8) -> Option<(Option<Timestamp>, Seq<u8>)> {
    if s.len() > 0 && s[0] == STRUCT + tag {
        match parse_time(s, tag) {
            Some((t, rest)) => Some((Some(t), rest)),
            None => None,
        }
    } else {
        Some((None, s))
    }
}

/// The field of one group of an entry: its name and its wrapped key.
pub open spec fn group_field(name: Seq<char>, diff: Seq<u8>) -> Seq<u8> {
    struct_field(7, string_field(1, name) + blob_field(2, diff))
}

/// The group in the field at the start of `s`, and what follows it.
pub open spec fn parse_group(s: Seq<u8>) -> Option<(Seq<char>, Seq<u8>, Seq<u8>)> {
    if s.len() > 0 && s[0] == STRUCT + 7 {
        match parse_string(s.skip(1), 1) {
            Some((name, r1)) => match parse_hash(r1, 2) {
                Some((diff, r2)) => if r2.len() > 0 && r2[0] == END {
                    Some((name, diff, r2.skip(1)))
                } else {
                    None
                },
                None => None,
            },
            None => None,
        }
    } else {
        None
    }
}

/// The groups in the fields at the start of `s`, after those in `names` and
/// `diffs`, and what follows them. No name may stand twice, and there may be
/// no more than `MAX_COLLECT` groups.
#[verifier::opaque]
pub open spec fn parse_groups(s: Seq<u8>, names: Seq<Seq<char>>, diffs: Seq<Seq<u8>>) -> Option<
    (Seq<Seq<char>>, Seq<Seq<u8>>, Seq<u8>),
>
    decreases s.len(),
{
    if s.len() > 0 && s[0] == STRUCT + 7 {
        match parse_group(s) {
            Some((name, diff, rest)) => if rest.len() < s.len() && names.len() < MAX_COLLECT
                && position(names, name) is None {
                parse_groups(rest, names.push(name), diffs.push(diff))
            } else {
                None
            },
            None => None,
        }
    } else {
        Some((names, diffs, s))
    }
}

/// The fields of the groups `names` with the wrapped keys `diffs`.
#[verifier::opaque]
pub open spec fn groups_bytes(names: Seq<Seq<char>>, diffs: Seq<Seq<u8>>) -> Seq<u8> {
    Seq::new(names.len(), |i: int| group_field(names[i], diffs[i])).flatten()
}

/// The fields at the start of `s` that are passed over as they are, up to
/// the zero byte that ends the struct, and what follows them.
#[verifier::opaque]
pub open spec fn parse_tail(s: Seq<u8>) -> Option<(Seq<u8>, Seq<u8>)> {
    match fields_len(s, MAX_DEPTH as nat) {
        Some(n) => Some((s.take(n as int), s.skip(n as int))),
        None => None,
    }
}

/// Whether `raw` is read back as it is written where fields are passed over:
/// it is made of whole fields, and does not start like the field `before`,
/// which is read before it.
#[verifier::opaque]
pub open spec fn storable_tail(raw: Seq<u8>, before: u8) -> bool {
    &&& fields_len(raw + seq![END], MAX_DEPTH as nat) == Some(raw.len())
    &&& raw.len() > 0 ==> raw[0] != before
}

/// Fields that are passed over and written back are passed over again.
pub proof fn lemma_tail_round_trip(raw: Seq<u8>, before: u8, rest: Seq<u8>)
    requires
        storable_tail(raw, before),
        rest.len() > 0,
        rest[0] == END,
    ensures
        parse_tail(raw + rest) == Some((raw, rest)),
        (raw + rest)[0] != before || before == END,
{
    reveal(parse_tail);
    reveal(storable_tail);
    let ended = raw + seq![END];
    assert(raw + rest =~= ended + rest.skip(1));
    lemma_fields_len_extends(ended, rest.skip(1), MAX_DEPTH as nat);
    assert((raw + rest).take(raw.len() as int) =~= raw);
    assert((raw + rest).skip(raw.len() as int) =~= rest);
}

/// No fields at all are fields that are read back as they are written.
pub proof fn lemma_empty_tail_storable(before: u8)
    ensures
        storable_tail(Seq::empty(), before),
{
    reveal(storable_tail);
    assert(Seq::<u8>::empty() + seq![END] =~= seq![END]);
}

/// The fields of an entry.
#[verifier::opaque]
pub open spec fn entry_body(e: KdfEntryView) -> Seq<u8> {
    struct_field(1, time_body(e.created)) + opt_time_field(2, e.updated) + opt_time_field(
        3,
        e.used,
    ) + string_field(4, e.algorithm) + blob_field(5, e.salt) + blob_field(6, e.hash)
        + groups_bytes(e.group_names, e.group_diffs) + e.unknown
}

/// The entry whose fields stand at the start of `s`, and what follows them.
#[verifier::opaque]
pub open spec fn parse_entry(s: Seq<u8>) -> Option<(KdfEntryView, Seq<u8>)> {
    match parse_time(s, 1) {
        None => None,
        Some((created, r1)) => match parse_opt_time(r1, 2) {
            None => None,
            Some((updated, r2)) => match parse_opt_time(r2, 3) {
                None => None,
                Some((used, r3)) => match parse_string(r3, 4) {
                    None => None,
                    Some((algorithm, r4)) => match parse_hash(r4, 5) {
                        None => None,
                        Some((salt, r5)) => match parse_hash(r5, 6) {
                            None => None,
                            Some((hash, r6)) => match parse_groups(
                                r6,
                                Seq::empty(),
                                Seq::empty(),
                            ) {
                                None => None,
                                Some((group_names, group_diffs, r7)) => match parse_tail(r7) {
                                    None => None,
                                    Some((unknown, r8)) => Some(
                                        (
                                            KdfEntryView {
                                                created,
                                                updated,
                                                used,
                                                algorithm,
                                                salt,
                                                hash,
                                                group_names,
                                                group_diffs,
                                                unknown,
                                            },
                                            r8,
                                        ),
                                    ),
                                },
                            },
                        },
                    },
                },
            },
        },
    }
}

/// The field of one entry of the registry: its name and the entry.
pub open spec fn pair_field(name: Seq<char>, e: KdfEntryView) -> Seq<u8> {
    struct_field(1, string_field(1, name) + struct_field(2, entry_body(e)))
}

/// The name and the entry in the field at the start of `s`, and what follows
/// it.
pub open spec fn parse_pair(s: Seq<u8>) -> Option<(Seq<char>, KdfEntryView, Seq<u8>)> {
    if s.len() > 0 && s[0] == STRUCT + 1 {
        match parse_string(s.skip(1), 1) {
            Some((name, r1)) => if r1.len() > 0 && r1[0] == STRUCT + 2 {
                match parse_entry(r1.skip(1)) {
                    Some((entry, r2)) => if r2.len() > 1 && r2[0] == END && r2[1] == END {
                        Some((name, entry, r2.skip(2)))
                    } else {
                        None
                    },
                    None => None,
                }
            } else {
                None
            },
            None => None,
        }
    } else {
        None
    }
}

/// The entries in the fields at the start of `s`, after those in `names` and
/// `entries`, and what follows them. No name may stand twice, and there may
/// be no more than `MAX_COLLECT` entries.
pub open spec fn parse_pairs(
    s: Seq<u8>,
    names: Seq<Seq<char>>,
    entries: Seq<KdfEntryView>,
) -> Option<(Seq<Seq<char>>, Seq<KdfEntryView>, Seq<u8>)>
    decreases s.len(),
{
    if s.len() > 0 && s[0] == STRUCT + 1 {
        match parse_pair(s) {
            Some((name, entry, rest)) => if rest.len() < s.len() && names.len() < MAX_COLLECT
                && position(names, name) is None {
                parse_pairs(rest, names.push(name), entries.push(entry))
            } else {
                None
            },
            None => None,
        }
    } else {
        Some((names, entries, s))
    }
}

/// The fields of the entries `entries` with the names `names`.
pub open spec fn pairs_bytes(names: Seq<Seq<char>>, entries: Seq<KdfEntryView>) -> Seq<u8> {
    Seq::new(names.len(), |i: int| pair_field(names[i], entries[i])).flatten()
}

/// The stored form of a registry.
pub open spec fn list_bytes(list: KdfListView) -> Seq<u8> {
    pairs_bytes(list.names, list.entries) + list.unknown + seq![END]
}

/// The registry whose stored form stands at the start of `s`.
pub open spec fn parse_list(s: Seq<u8>) -> Option<KdfListView> {
    match parse_pairs(s, Seq::empty(), Seq::empty()) {
        Some((names, entries, rest)) => match parse_tail(rest) {
            Some((unknown, _)) => Some(KdfListView { names, entries, unknown }),
            None => None,
        },
        None => None,
    }
}

/// Appends to `out` the string field with the tag `tag` and the value `text`.
pub fn put_string(out: &mut Vec<u8>, tag: u8, text: &str)
    requires
        1 <= tag <= 63,
    ensures
        final(out)@ == old(out)@ + string_field(tag, text@),
{
    put_blob(out, tag, text.as_bytes());
}

/// Appends to `out` the struct field with the tag `tag` that holds `t`.
pub fn put_time(out: &mut Vec<u8>, tag: u8, t: Timestamp)
    requires
        1 <= tag <= 63,
    ensures
        final(out)@ == old(out)@ + struct_field(tag, time_body(t)),
{
    out.push(STRUCT + tag);
    put_int(out, 1, zigzag_encode(t.secs));
    put_int(out, 2, t.nanos as u64);
    out.push(END);
    assert(out@ =~= old(out)@ + struct_field(tag, time_body(t)));
}

/// Appends to `out` the struct field with the tag `tag` that holds `t`, if
/// there is one.
pub fn put_opt_time(out: &mut Vec<u8>, tag: u8, t: Option<Timestamp>)
    requires
        1 <= tag <= 63,
    ensures
        final(out)@ == old(out)@ + opt_time_field(tag, t),
{
    match t {
        Some(t) => put_time(out, tag, t),
        None => {
            assert(out@ =~= old(out)@ + opt_time_field(tag, t));
        },
    }
}

/// Appends the fields of `entry` to `out`.
pub fn put_entry(out: &mut Vec<u8>, entry: &KdfEntry)
    requires
        entry.wf(),
    ensures
        final(out)@ == old(out)@ + entry_body(entry@),
{
    let ghost e = entry@;
    reveal(entry_body);
    put_time(out, 1, entry.created);
    put_opt_time(out, 2, entry.updated);
    put_opt_time(out, 3, entry.used);
    put_string(out, 4, entry.algorithm.as_str());
    put_blob(out, 5, &entry.salt);
    put_blob(out, 6, &entry.hash);
    let ghost head = out@;
    let ghost fields = Seq::new(
        e.group_names.len(),
        |i: int| group_field(e.group_names[i], e.group_diffs[i]),
    );
    let mut k: usize = 0;
    proof {
        assert(fields.take(0).flatten() =~= Seq::<u8>::empty());
        assert(out@ =~= head + fields.take(0).flatten());
    }
    while k < entry.group_names.len()
        invariant
            k <= entry.group_names.len(),
            entry.wf(),
            e == entry@,
            fields == Seq::new(
                e.group_names.len(),
                |i: int| group_field(e.group_names[i], e.group_diffs[i]),
            ),
            out@ == head + fields.take(k as int).flatten(),
        decreases entry.group_names.len() - k,
    {
        let ghost before = out@;
        out.push(STRUCT + 7);
        put_string(out, 1, entry.group_names[k].as_str());
        put_blob(out, 2, &entry.group_diffs[k]);
        out.push(END);
        proof {
            assert(e.group_names[k as int] == entry.group_names@[k as int]@);
            assert(e.group_diffs[k as int] == entry.group_diffs@[k as int]@);
            assert(out@ =~= before + fields[k as int]);
            assert(fields.take(k + 1) =~= fields.take(k as int).push(fields[k as int]));
            fields.take(k as int).lemma_flatten_push(fields[k as int]);
        }
        k += 1;
    }
    append_bytes(out, entry.unknown.as_slice());
    proof {
        reveal(groups_bytes);
        assert(fields.take(k as int) =~= fields);
        assert(out@ =~= old(out)@ + entry_body(e));
    }
}

/// The stored form of `list`.
pub fn to_vec(list: &KdfList) -> (out: Vec<u8>)
    requires
        list.wf(),
    ensures
        out@ == list_bytes(list@),
{
    let ghost l = list@;
    let mut out: Vec<u8> = Vec::new();
    let ghost fields = Seq::new(l.names.len(), |i: int| pair_field(l.names[i], l.entries[i]));
    let mut k: usize = 0;
    proof {
        assert(fields.take(0).flatten() =~= Seq::<u8>::empty());
    }
    while k < list.names.len()
        invariant
            k <= list.names.len(),
            list.wf(),
            l == list@,
            fields == Seq::new(l.names.len(), |i: int| pair_field(l.names[i], l.entries[i])),
            out@ == fields.take(k as int).flatten(),
        decreases list.names.len() - k,
    {
        let ghost before = out@;
        assert(l.entries[k as int] == list.entries@[k as int]@);
        assert(l.entries[k as int].wf());
        out.push(STRUCT + 1);
        put_string(&mut out, 1, list.names[k].as_str());
        out.push(STRUCT + 2);
        put_entry(&mut out, &list.entries[k]);
        out.push(END);
        out.push(END);
        proof {
            assert(l.names[k as int] == list.names@[k as int]@);
            assert(out@ =~= before + fields[k as int]);
            assert(fields.take(k + 1) =~= fields.take(k as int).push(fields[k as int]));
            fields.take(k as int).lemma_flatten_push(fields[k as int]);
        }
        k += 1;
    }
    append_bytes(&mut out, list.unknown.as_slice());
    out.push(END);
    proof {
        assert(fields.take(k as int) =~= fields);
    }
    out
}

/// Reads the string field with the tag `tag` that starts at `pos`.
pub fn get_string(data: &[u8], pos: usize, tag: u8) -> (res: Option<(String, usize)>)
    requires
        1 <= tag <= 63,
    ensures
        pos > data.len() ==> res is None,
        pos <= data.len() ==> (
            match parse_string(data@.skip(pos as int), tag) {
                Some((chars, rest)) => res is Some && res->Some_0.0@ == chars && pos < res->Some_0.1
                    <= data.len() && rest == data@.skip(res->Some_0.1 as int),
                None => res is None,
            }
        ),
{
    if pos > data.len() {
        return None;
    }
    reveal(parse_string);
    let (bytes, next) = match get_blob(data, pos, tag) {
        Some(found) => found,
        None => {
            return None;
        },
    };
    match string_from_utf8(bytes) {
        Some(text) => Some((text, next)),
        None => None,
    }
}

/// Reads the field of 32 bytes with the tag `tag` that starts at `pos`.
pub fn get_hash(data: &[u8], pos: usize, tag: u8) -> (res: Option<(HashId, usize)>)
    requires
        1 <= tag <= 63,
    ensures
        pos > data.len() ==> res is None,
        pos <= data.len() ==> (
            match parse_hash(data@.skip(pos as int), tag) {
                Some((bytes, rest)) => res is Some && res->Some_0.0@ == bytes && pos < res->Some_0.1
                    <= data.len() && rest == data@.skip(res->Some_0.1 as int),
                None => res is None,
            }
        ),
{
    if pos > data.len() {
        return None;
    }
    reveal(parse_hash);
    let (bytes, next) = match get_blob(data, pos, tag) {
        Some(found) => found,
        None => {
            return None;
        },
    };
    if bytes.len() != 32 {
        return None;
    }
    Some((hash_from_slice(bytes), next))
}

/// Whether the byte at `pos` is `byte`.
pub fn byte_is(data: &[u8], pos: usize, byte: u8) -> (same: bool)
    ensures
        pos > data.len() ==> !same,
        pos <= data.len() ==> (
            same == (data@.skip(pos as int).len() > 0 && data@.skip(pos as int)[0] == byte)
        ),
        pos <= data.len() ==> (
            same ==> pos < data.len() && data@.skip(pos as int).skip(1) == data@.skip(pos + 1)
        ),
{
    if pos > data.len() {
        return false;
    }
    if pos < data.len() && data[pos] == byte {
        assert(data@.skip(pos as int).skip(1) =~= data@.skip(pos + 1));
        true
    } else {
        false
    }
}

/// Reads the point in time in the struct field with the tag `tag` that
/// starts at `pos`.
pub fn get_time(data: &[u8], pos: usize, tag: u8) -> (res: Option<(Timestamp, usize)>)
    requires
        1 <= tag <= 63,
    ensures
        pos > data.len() ==> res is None,
        pos <= data.len() ==> (
            match parse_time(data@.skip(pos as int), tag) {
                Some((t, rest)) => res is Some && res->Some_0.0 == t && pos < res->Some_0.1
                    <= data.len() && rest == data@.skip(res->Some_0.1 as int),
                None => res is None,
            }
        ),
{
    if pos > data.len() {
        return None;
    }
    reveal(parse_time);
    if !byte_is(data, pos, STRUCT + tag) {
        return None;
    }
    let (secs, after_secs) = match get_int(data, pos + 1, 1) {
        Some(found) => found,
        None => {
            return None;
        },
    };
    let (nanos, after_nanos) = match get_int(data, after_secs, 2) {
        Some(found) => found,
        None => {
            return None;
        },
    };
    if nanos > u32::MAX as u64 || !byte_is(data, after_nanos, END) {
        return None;
    }
    let secs = zigzag_decode(secs);
    if !Timestamp::is_point_in_time(secs, nanos as u32) {
        return None;
    }
    Some((Timestamp { secs, nanos: nanos as u32 }, after_nanos + 1))
}

/// Reads the point in time in the struct field with the tag `tag` that
/// starts at `pos`, if such a field starts there.
pub fn get_opt_time(data: &[u8], pos: usize, tag: u8) -> (res: Option<(Option<Timestamp>, usize)>)
    requires
        1 <= tag <= 63,
    ensures
        pos > data.len() ==> res is None,
        pos <= data.len() ==> (
            match parse_opt_time(data@.skip(pos as int), tag) {
                Some((t, rest)) => res is Some && res->Some_0.0 == t && pos <= res->Some_0.1
                    <= data.len() && rest == data@.skip(res->Some_0.1 as int),
                None => res is None,
            }
        ),
{
    if pos > data.len() {
        return None;
    }
    reveal(parse_opt_time);
    if byte_is(data, pos, STRUCT + tag) {
        match get_time(data, pos, tag) {
            Some((t, next)) => Some((Some(t), next)),
            None => None,
        }
    } else {
        Some((None, pos))
    }
}

/// Reads the group in the field that starts at `pos`.
pub fn get_group(data: &[u8], pos: usize) -> (res: Option<(String, HashId, usize)>)
    ensures
        pos > data.len() ==> res is None,
        pos <= data.len() ==> (
            match parse_group(data@.skip(pos as int)) {
                Some((name, diff, rest)) => res is Some && res->Some_0.0@ == name && res->Some_0.1@
                    == diff && pos < res->Some_0.2 <= data.len() && rest == data@.skip(
                    res->Some_0.2 as int,
                ),
                None => res is None,
            }
        ),
{
    if pos > data.len() {
        return None;
    }
    if !byte_is(data, pos, STRUCT + 7) {
        return None;
    }
    let (name, after_name) = match get_string(data, pos + 1, 1) {
        Some(found) => found,
        None => {
            return None;
        },
    };
    let (diff, after_diff) = match get_hash(data, after_name, 2) {
        Some(found) => found,
        None => {
            return None;
        },
    };
    if !byte_is(data, after_diff, END) {
        return None;
    }
    Some((name, diff, after_diff + 1))
}

/// Reads the entry whose fields start at `pos`.
pub fn get_entry(data: &[u8], pos: usize) -> (res: Option<(KdfEntry, usize)>)
    ensures
        pos > data.len() ==> res is None,
        pos <= data.len() ==> (
            match parse_entry(data@.skip(pos as int)) {
                Some((entry, rest)) => res is Some && res->Some_0.0@ == entry && res->Some_0.0.wf()
                    && pos < res->Some_0.1 <= data.len() && rest == data@.skip(res->Some_0.1 as int),
                None => res is None,
            }
        ),
{
    if pos > data.len() {
        return None;
    }
    reveal(parse_entry);
    let (created, after_created) = match get_time(data, pos, 1) {
        Some(found) => found,
        None => {
            return None;
        },
    };
    let (updated, after_updated) = match get_opt_time(data, after_created, 2) {
        Some(found) => found,
        None => {
            return None;
        },
    };
    let (used, after_used) = match get_opt_time(data, after_updated, 3) {
        Some(found) => found,
        None => {
            return None;
        },
    };
    let (algorithm, after_algorithm) = match get_string(data, after_used, 4) {
        Some(found) => found,
        None => {
            return None;
        },
    };
    let (salt, after_salt) = match get_hash(data, after_algorithm, 5) {
        Some(found) => found,
        None => {
            return None;
        },
    };
    let (hash, after_hash) = match get_hash(data, after_salt, 6) {
        Some(found) => found,
        None => {
            return None;
        },
    };
    let mut group_names: Vec<String> = Vec::new();
    let mut group_diffs: Vec<HashId> = Vec::new();
    let mut p: usize = after_hash;
    let ghost goal = parse_groups(data@.skip(after_hash as int), Seq::empty(), Seq::empty());
    proof {
        assert(names_view(group_names@) =~= Seq::<Seq<char>>::empty());
        assert(diffs_view(group_diffs@) =~= Seq::<Seq<u8>>::empty());
    }
    while byte_is(data, p, STRUCT + 7)
        invariant
            after_hash <= p <= data.len(),
            group_names@.len() == group_diffs@.len(),
            distinct(names_view(group_names@)),
            parse_groups(
                data@.skip(p as int),
                names_view(group_names@),
                diffs_view(group_diffs@),
            ) == goal,
            goal == parse_groups(data@.skip(after_hash as int), Seq::empty(), Seq::empty()),
            parse_time(data@.skip(pos as int), 1) == Some((created, data@.skip(after_created as int))),
            parse_opt_time(data@.skip(after_created as int), 2) == Some((updated, data@.skip(after_updated as int))),
            parse_opt_time(data@.skip(after_updated as int), 3) == Some((used, data@.skip(after_used as int))),
            parse_string(data@.skip(after_used as int), 4) == Some((algorithm@, data@.skip(after_algorithm as int))),
            parse_hash(data@.skip(after_algorithm as int), 5) == Some((salt@, data@.skip(after_salt as int))),
            parse_hash(data@.skip(after_salt as int), 6) == Some((hash@, data@.skip(after_hash as int))),
            pos < after_hash,
        decreases data.len() - p,
    {
        reveal(parse_entry);
        reveal(parse_groups);
        let (name, diff, next) = match get_group(data, p) {
            Some(found) => found,
            None => {
                return None;
            },
        };
        if group_names.len() >= MAX_COLLECT || find_name(&group_names, name.as_str()).is_some() {
            return None;
        }
        let ghost names_before = names_view(group_names@);
        let ghost diffs_before = diffs_view(group_diffs@);
        proof {
            lemma_position(names_before, name@);
        }
        group_names.push(name);
        group_diffs.push(diff);
        proof {
            assert(names_view(group_names@) =~= names_before.push(name@));
            assert(diffs_view(group_diffs@) =~= diffs_before.push(diff@));
        }
        p = next;
    }
    proof {
        reveal(parse_tail);
    }
    let tail = match skip_fields(data, p, MAX_DEPTH) {
        Some(n) => n,
        None => {
            proof {
                reveal(parse_groups);
            }
            return None;
        },
    };
    let unknown = slice_to_vec(slice_subrange(data, p, p + tail));
    let entry = KdfEntry {
        created,
        updated,
        used,
        algorithm,
        salt,
        hash,
        group_names,
        group_diffs,
        unknown,
    };
    proof {
        reveal(parse_groups);
        assert(entry@.group_diffs.len() == entry@.group_names.len());
        assert(unknown@ =~= data@.skip(p as int).take(tail as int));
        assert(data@.skip(p as int).skip(tail as int) =~= data@.skip(p + tail));
    }
    Some((entry, p + tail))
}

/// Reads the name and the entry in the field that starts at `pos`.
pub fn get_pair(data: &[u8], pos: usize) -> (res: Option<(String, KdfEntry, usize)>)
    ensures
        pos > data.len() ==> res is None,
        pos <= data.len() ==> (
            match parse_pair(data@.skip(pos as int)) {
                Some((name, entry, rest)) => res is Some && res->Some_0.0@ == name && res->Some_0.1@
                    == entry && res->Some_0.1.wf() && pos < res->Some_0.2 <= data.len() && rest
                    == data@.skip(res->Some_0.2 as int),
                None => res is None,
            }
        ),
{
    if pos > data.len() {
        return None;
    }
    if !byte_is(data, pos, STRUCT + 1) {
        return None;
    }
    let (name, after_name) = match get_string(data, pos + 1, 1) {
        Some(found) => found,
        None => {
            return None;
        },
    };
    if !byte_is(data, after_name, STRUCT + 2) {
        return None;
    }
    let (entry, after_entry) = match get_entry(data, after_name + 1) {
        Some(found) => found,
        None => {
            return None;
        },
    };
    if !byte_is(data, after_entry, END) || !byte_is(data, after_entry + 1, END) {
        return None;
    }
    proof {
        let r2 = data@.skip(after_entry as int);
        assert(r2.skip(1) == data@.skip(after_entry + 1));
        assert(r2[1] == r2.skip(1)[0]);
        assert(r2.skip(2) =~= data@.skip(after_entry + 2));
    }
    Some((name, entry, after_entry + 2))
}

/// Reads the registry whose stored form stands at the start of `data`.
/// Fails with `Serialization` where none stands there.
pub fn from_slice(data: &[u8]) -> (res: Result<KdfList, Error>)
    ensures
        match parse_list(data@) {
            Some(list) => res is Ok && res->Ok_0@ == list && res->Ok_0.wf() && storable(list),
            None => res is Err && res->Err_0 is Serialization,
        },
{
    let mut names: Vec<String> = Vec::new();
    let mut entries: Vec<KdfEntry> = Vec::new();
    let mut p: usize = 0;
    let ghost goal = parse_pairs(data@, Seq::empty(), Seq::empty());
    proof {
        assert(data@.skip(0) =~= data@);
        assert(names_view(names@) =~= Seq::<Seq<char>>::empty());
        assert(entries_view(entries@) =~= Seq::<KdfEntryView>::empty());
    }
    while byte_is(data, p, STRUCT + 1)
        invariant
            p <= data.len(),
            names@.len() == entries@.len(),
            distinct(names_view(names@)),
            forall|i: int| 0 <= i < entries@.len() ==> (#[trigger] entries@[i]).wf(),
            parse_pairs(data@.skip(p as int), names_view(names@), entries_view(entries@)) == goal,
            goal == parse_pairs(data@, Seq::empty(), Seq::empty()),
        decreases data.len() - p,
    {
        let (name, entry, next) = match get_pair(data, p) {
            Some(found) => found,
            None => {
                return Err(Error::Serialization);
            },
        };
        if names.len() >= MAX_COLLECT || find_name(&names, name.as_str()).is_some() {
            return Err(Error::Serialization);
        }
        let ghost names_before = names_view(names@);
        let ghost entries_before = entries_view(entries@);
        proof {
            lemma_position(names_before, name@);
        }
        names.push(name);
        entries.push(entry);
        proof {
            assert(names_view(names@) =~= names_before.push(name@));
            assert(entries_view(entries@) =~= entries_before.push(entry@));
        }
        p = next;
    }
    proof {
        reveal(parse_tail);
    }
    let tail = match skip_fields(data, p, MAX_DEPTH) {
        Some(n) => n,
        None => {
            return Err(Error::Serialization);
        },
    };
    let unknown = slice_to_vec(slice_subrange(data, p, p + tail));
    assert(unknown@ =~= data@.skip(p as int).take(tail as int));
    let list = KdfList { names, entries, unknown };
    proof {
        lemma_parsed_list_storable(data@);
        assert forall|i: int| 0 <= i < list@.entries.len() implies (
        #[trigger] list@.entries[i]).wf() by {
            assert(list@.entries[i] == entries@[i]@);
        }
    }
    Ok(list)
}

/// Whether a name is short enough to be read back.
pub open spec fn storable_name(name: Seq<char>) -> bool {
    encode_utf8(name).len() <= MAX_BLOB
}

/// Whether a point in time that may be missing is one that is read back.
pub open spec fn storable_time(t: Option<Timestamp>) -> bool {
    t matches Some(t) ==> point_in_time(t.secs, t.nanos)
}

/// Whether an entry is read back as it was written: it is well formed, its
/// times are points in time, its strings are not too long and its groups not
/// too many.
pub open spec fn storable_entry(e: KdfEntryView) -> bool {
    &&& e.wf()
    &&& point_in_time(e.created.secs, e.created.nanos)
    &&& storable_time(e.updated)
    &&& storable_time(e.used)
    &&& storable_name(e.algorithm)
    &&& e.salt.len() == 32
    &&& e.hash.len() == 32
    &&& e.group_names.len() <= MAX_COLLECT
    &&& forall|i: int| 0 <= i < e.group_names.len() ==> storable_name(#[trigger] e.group_names[i])
    &&& forall|i: int| 0 <= i < e.group_diffs.len() ==> (#[trigger] e.group_diffs[i]).len() == 32
    &&& storable_tail(e.unknown, (STRUCT + 7) as u8)
}

/// Whether a registry is read back as it was written.
pub open spec fn storable(list: KdfListView) -> bool {
    &&& list.wf()
    &&& list.names.len() <= MAX_COLLECT
    &&& forall|i: int| 0 <= i < list.names.len() ==> storable_name(#[trigger] list.names[i])
    &&& forall|i: int| 0 <= i < list.entries.len() ==> storable_entry(#[trigger] list.entries[i])
    &&& storable_tail(list.unknown, (STRUCT + 1) as u8)
}

/// Whether each of `names` is short enough to be read back, and they are
/// not too many.
pub open spec fn storable_names(names: Seq<Seq<char>>) -> bool {
    &&& names.len() <= MAX_COLLECT
    &&& forall|i: int| 0 <= i < names.len() ==> storable_name(#[trigger] names[i])
}

/// The names that the library itself gives, those of the algorithms and of
/// the groups `everyone` and `root`, are short enough to be read back.
pub proof fn lemma_own_names_storable()
    ensures
        storable_name(KdfAlgorithm::Scrypt18_8_1.token()),
        storable_name(KdfAlgorithm::Scrypt12_4_1.token()),
        storable_name(GROUP_EVERYONE@),
        storable_name(GROUP_ROOT@),
        storable_names(seq![GROUP_EVERYONE@, GROUP_ROOT@]),
{
    reveal_strlit("scrypt-18-8-1");
    reveal_strlit("scrypt-12-4-1");
    reveal_strlit("everyone");
    reveal_strlit("root");
    assert(is_ascii_chars("scrypt-18-8-1"@));
    assert(is_ascii_chars("scrypt-12-4-1"@));
    assert(is_ascii_chars("everyone"@));
    assert(is_ascii_chars("root"@));
    is_ascii_chars_encode_utf8("scrypt-18-8-1"@);
    is_ascii_chars_encode_utf8("scrypt-12-4-1"@);
    is_ascii_chars_encode_utf8("everyone"@);
    is_ascii_chars_encode_utf8("root"@);
}

/// Whether an entry is read back as it is written, as far as that does not
/// follow from its being well formed and from the types of its fields: its
/// times are points in time, its names are short enough and its groups not
/// too many, and the fields kept with it are whole.
pub open spec fn storable_fields(e: KdfEntryView) -> bool {
    &&& point_in_time(e.created.secs, e.created.nanos)
    &&& storable_time(e.updated)
    &&& storable_time(e.used)
    &&& storable_name(e.algorithm)
    &&& storable_names(e.group_names)
    &&& storable_tail(e.unknown, (STRUCT + 7) as u8)
}

/// An entry held in memory is read back as it is written where its fields
/// allow it: its salt, its digest and its wrapped keys have the right length
/// by their type.
pub proof fn lemma_entry_storable(entry: KdfEntry)
    requires
        entry.wf(),
        storable_fields(entry@),
    ensures
        storable_entry(entry@),
{
    assert forall|i: int| 0 <= i < entry@.group_diffs.len() implies (
    #[trigger] entry@.group_diffs[i]).len() == 32 by {
        assert(entry@.group_diffs[i] == entry.group_diffs@[i]@);
    }
}

/// Whether a registry is read back as it is written, as far as that does not
/// follow from its being well formed and from the types of its fields.
pub open spec fn storable_but_for_types(list: KdfListView) -> bool {
    &&& storable_names(list.names)
    &&& forall|i: int| 0 <= i < list.entries.len() ==> storable_fields(#[trigger] list.entries[i])
    &&& storable_tail(list.unknown, (STRUCT + 1) as u8)
}

/// What holds of a registry that is read back as it is written.
pub proof fn lemma_storable_parts(list: KdfListView)
    requires
        storable(list),
    ensures
        list.wf(),
        storable_but_for_types(list),
{
    assert forall|i: int| 0 <= i < list.entries.len() implies storable_fields(
        #[trigger] list.entries[i],
    ) by {
        assert(storable_entry(list.entries[i]));
    }
}

/// A registry held in memory is read back as it is written where its names
/// and the fields of its entries allow it.
pub proof fn lemma_held_storable(list: KdfList)
    requires
        list.wf(),
        storable_but_for_types(list@),
    ensures
        storable(list@),
{
    assert forall|i: int| 0 <= i < list@.entries.len() implies storable_entry(
        #[trigger] list@.entries[i],
    ) by {
        assert(list@.entries[i] == list.entries@[i]@);
        assert(storable_fields(list@.entries[i]));
        assert(list@.entries[i].wf());
        lemma_entry_storable(list.entries@[i]);
    }
}

/// Reading a string field that was written gives the string back.
pub proof fn lemma_string_round_trip(tag: u8, chars: Seq<char>, rest: Seq<u8>)
    requires
        1 <= tag <= 63,
        storable_name(chars),
    ensures
        parse_string(string_field(tag, chars) + rest, tag) == Some((chars, rest)),
{
    reveal(parse_string);
    lemma_blob_round_trip(tag, encode_utf8(chars), rest);
    encode_utf8_valid_utf8(chars);
    encode_utf8_decode_utf8(chars);
}

/// Reading a field of 32 bytes that was written gives the bytes back.
pub proof fn lemma_hash_round_trip(tag: u8, bytes: Seq<u8>, rest: Seq<u8>)
    requires
        1 <= tag <= 63,
        bytes.len() == 32,
    ensures
        parse_hash(blob_field(tag, bytes) + rest, tag) == Some((bytes, rest)),
{
    reveal(parse_hash);
    lemma_blob_round_trip(tag, bytes, rest);
}

/// Reading a point in time that was written gives it back.
pub proof fn lemma_time_round_trip(tag: u8, t: Timestamp, rest: Seq<u8>)
    requires
        1 <= tag <= 63,
        point_in_time(t.secs, t.nanos),
    ensures
        parse_time(struct_field(tag, time_body(t)) + rest, tag) == Some((t, rest)),
        (struct_field(tag, time_body(t)) + rest)[0] == STRUCT + tag,
{
    reveal(parse_time);
    let s = struct_field(tag, time_body(t)) + rest;
    let tail = seq![END] + rest;
    let second = int_field(2, t.nanos as nat) + tail;
    assert(s.skip(1) =~= int_field(1, zigzag(t.secs)) + second);
    lemma_int_round_trip(1, zigzag(t.secs), second);
    lemma_int_round_trip(2, t.nanos as nat, tail);
    assert(tail.skip(1) =~= rest);
    assert(unzigzag(zigzag(t.secs)) == t.secs);
}

/// Reading a point in time that may be missing gives back what was written,
/// as long as what follows does not look like its field.
pub proof fn lemma_opt_time_round_trip(tag: u8, t: Option<Timestamp>, rest: Seq<u8>)
    requires
        1 <= tag <= 63,
        storable_time(t),
        rest.len() > 0 ==> rest[0] != STRUCT + tag,
    ensures
        parse_opt_time(opt_time_field(tag, t) + rest, tag) == Some((t, rest)),
{
    reveal(parse_opt_time);
    match t {
        Some(time) => {
            lemma_time_round_trip(tag, time, rest);
        },
        None => {
            assert(opt_time_field(tag, t) + rest =~= rest);
        },
    }
}

/// Reading a group that was written gives it back.
pub proof fn lemma_group_round_trip(name: Seq<char>, diff: Seq<u8>, rest: Seq<u8>)
    requires
        storable_name(name),
        diff.len() == 32,
    ensures
        parse_group(group_field(name, diff) + rest) == Some((name, diff, rest)),
        (group_field(name, diff) + rest)[0] == STRUCT + 7,
        (group_field(name, diff) + rest).len() > rest.len(),
{
    let s = group_field(name, diff) + rest;
    let tail = seq![END] + rest;
    let second = blob_field(2, diff) + tail;
    assert(s.skip(1) =~= string_field(1, name) + second);
    lemma_string_round_trip(1, name, second);
    lemma_hash_round_trip(2, diff, tail);
    assert(tail.skip(1) =~= rest);
}

/// The fields of some groups are the field of the first followed by the
/// fields of the others.
pub proof fn lemma_groups_bytes_unfold(names: Seq<Seq<char>>, diffs: Seq<Seq<u8>>)
    requires
        names.len() > 0,
        names.len() == diffs.len(),
    ensures
        groups_bytes(names, diffs) == group_field(names[0], diffs[0]) + groups_bytes(
            names.drop_first(),
            diffs.drop_first(),
        ),
{
    reveal(groups_bytes);
    let fields = Seq::new(names.len(), |i: int| group_field(names[i], diffs[i]));
    let others = Seq::new(
        names.drop_first().len(),
        |i: int| group_field(names.drop_first()[i], diffs.drop_first()[i]),
    );
    assert(fields.drop_first() =~= others);
}

/// Reading groups that were written gives them back, as long as what follows
/// does not look like a group.
pub proof fn lemma_groups_round_trip(
    names: Seq<Seq<char>>,
    diffs: Seq<Seq<u8>>,
    k: int,
    rest: Seq<u8>,
)
    requires
        0 <= k <= names.len() == diffs.len(),
        names.len() <= MAX_COLLECT,
        distinct(names),
        forall|i: int| 0 <= i < names.len() ==> storable_name(#[trigger] names[i]),
        forall|i: int| 0 <= i < diffs.len() ==> (#[trigger] diffs[i]).len() == 32,
        rest.len() > 0 ==> rest[0] != STRUCT + 7,
    ensures
        parse_groups(groups_bytes(names.skip(k), diffs.skip(k)) + rest, names.take(k), diffs.take(k))
            == Some((names, diffs, rest)),
    decreases names.len() - k,
{
    reveal(parse_groups);
    reveal(groups_bytes);
    let s = groups_bytes(names.skip(k), diffs.skip(k)) + rest;
    if k == names.len() {
        assert(groups_bytes(names.skip(k), diffs.skip(k)) =~= Seq::<u8>::empty());
        assert(s =~= rest);
        assert(names.take(k) =~= names);
        assert(diffs.take(k) =~= diffs);
    } else {
        let tail = groups_bytes(names.skip(k + 1), diffs.skip(k + 1)) + rest;
        lemma_groups_bytes_unfold(names.skip(k), diffs.skip(k));
        assert(names.skip(k).drop_first() =~= names.skip(k + 1));
        assert(diffs.skip(k).drop_first() =~= diffs.skip(k + 1));
        assert(s =~= group_field(names[k], diffs[k]) + tail);
        lemma_group_round_trip(names[k], diffs[k], tail);
        lemma_position(names.take(k), names[k]);
        if position(names.take(k), names[k]) is Some {
            let i = position(names.take(k), names[k])->Some_0;
            assert(names.take(k)[i] == names[i]);
        }
        assert(names.take(k).push(names[k]) =~= names.take(k + 1));
        assert(diffs.take(k).push(diffs[k]) =~= diffs.take(k + 1));
        lemma_groups_round_trip(names, diffs, k + 1, rest);
    }
}

/// Eight pieces and what follows them, joined one after the other, are the
/// first piece followed by the others joined with what follows.
pub proof fn lemma_join_pieces(
    a: Seq<u8>,
    b: Seq<u8>,
    c: Seq<u8>,
    d: Seq<u8>,
    e: Seq<u8>,
    f: Seq<u8>,
    g: Seq<u8>,
    h: Seq<u8>,
    rest: Seq<u8>,
)
    ensures
        a + b + c + d + e + f + g + h + rest == a + (b + (c + (d + (e + (f + (g + (h + rest))))))),
{
    assert(a + b + c + d + e + f + g + h + rest =~= a + (b + (c + (d + (e + (f + (g + (h
        + rest))))))));
}

/// Reading an entry that was written gives it back, as long as the zero
/// byte that ends it follows.
pub proof fn lemma_entry_round_trip(e: KdfEntryView, rest: Seq<u8>)
    requires
        storable_entry(e),
        rest.len() > 0,
        rest[0] == END,
    ensures
        parse_entry(entry_body(e) + rest) == Some((e, rest)),
{
    let f1 = struct_field(1, time_body(e.created));
    let f2 = opt_time_field(2, e.updated);
    let f3 = opt_time_field(3, e.used);
    let f4 = string_field(4, e.algorithm);
    let f5 = blob_field(5, e.salt);
    let f6 = blob_field(6, e.hash);
    let f7 = groups_bytes(e.group_names, e.group_diffs);
    let s8 = e.unknown + rest;
    let s7 = f7 + s8;
    assert(parse_tail(s8) == Some((e.unknown, rest)) && s8[0] != STRUCT + 7) by {
        lemma_tail_round_trip(e.unknown, (STRUCT + 7) as u8, rest);
    }
    let s6 = f6 + s7;
    let s5 = f5 + s6;
    let s4 = f4 + s5;
    let s3 = f3 + s4;
    let s2 = f2 + s3;
    let s1 = f1 + s2;
    assert(entry_body(e) + rest == s1) by {
        reveal(entry_body);
        lemma_join_pieces(f1, f2, f3, f4, f5, f6, f7, e.unknown, rest);
    }
    assert(parse_time(s1, 1) == Some((e.created, s2))) by {
        lemma_time_round_trip(1, e.created, s2);
    }
    assert(s4.len() > 0 && s4[0] == BLOB + 4);
    assert(s3.len() > 0 ==> s3[0] != STRUCT + 2) by {
        match e.used {
            Some(t) => {
                lemma_time_round_trip(3, t, s4);
            },
            None => {
                assert(s3 =~= s4);
            },
        }
    }
    assert(parse_opt_time(s2, 2) == Some((e.updated, s3))) by {
        lemma_opt_time_round_trip(2, e.updated, s3);
    }
    assert(parse_opt_time(s3, 3) == Some((e.used, s4))) by {
        lemma_opt_time_round_trip(3, e.used, s4);
    }
    assert(parse_string(s4, 4) == Some((e.algorithm, s5))) by {
        lemma_string_round_trip(4, e.algorithm, s5);
    }
    assert(parse_hash(s5, 5) == Some((e.salt, s6))) by {
        lemma_hash_round_trip(5, e.salt, s6);
    }
    assert(parse_hash(s6, 6) == Some((e.hash, s7))) by {
        lemma_hash_round_trip(6, e.hash, s7);
    }
    assert(parse_groups(s7, Seq::empty(), Seq::empty()) == Some(
        (e.group_names, e.group_diffs, s8),
    )) by {
        assert(e.group_names.skip(0) =~= e.group_names);
        assert(e.group_diffs.skip(0) =~= e.group_diffs);
        assert(e.group_names.take(0) =~= Seq::<Seq<char>>::empty());
        assert(e.group_diffs.take(0) =~= Seq::<Seq<u8>>::empty());
        lemma_groups_round_trip(e.group_names, e.group_diffs, 0, s8);
    }
    reveal(parse_entry);
}

/// Reading a named entry that was written gives it back.
pub proof fn lemma_pair_round_trip(name: Seq<char>, e: KdfEntryView, rest: Seq<u8>)
    requires
        storable_name(name),
        storable_entry(e),
    ensures
        parse_pair(pair_field(name, e) + rest) == Some((name, e, rest)),
        (pair_field(name, e) + rest)[0] == STRUCT + 1,
        (pair_field(name, e) + rest).len() > rest.len(),
{
    let s = pair_field(name, e) + rest;
    let tail = seq![END, END] + rest;
    let body = entry_body(e) + tail;
    let second = seq![(STRUCT + 2) as u8] + body;
    assert(s.skip(1) =~= string_field(1, name) + second);
    lemma_string_round_trip(1, name, second);
    assert(second.skip(1) =~= body);
    lemma_entry_round_trip(e, tail);
    assert(tail.skip(2) =~= rest);
}

/// The fields of some named entries are the field of the first followed by
/// the fields of the others.
pub proof fn lemma_pairs_bytes_unfold(names: Seq<Seq<char>>, entries: Seq<KdfEntryView>)
    requires
        names.len() > 0,
        names.len() == entries.len(),
    ensures
        pairs_bytes(names, entries) == pair_field(names[0], entries[0]) + pairs_bytes(
            names.drop_first(),
            entries.drop_first(),
        ),
{
    let fields = Seq::new(names.len(), |i: int| pair_field(names[i], entries[i]));
    let others = Seq::new(
        names.drop_first().len(),
        |i: int| pair_field(names.drop_first()[i], entries.drop_first()[i]),
    );
    assert(fields.drop_first() =~= others);
}

/// Reading named entries that were written gives them back, as long as what
/// follows does not look like a named entry.
pub proof fn lemma_pairs_round_trip(list: KdfListView, k: int, rest: Seq<u8>)
    requires
        storable(list),
        0 <= k <= list.names.len(),
        rest.len() > 0 ==> rest[0] != STRUCT + 1,
    ensures
        parse_pairs(
            pairs_bytes(list.names.skip(k), list.entries.skip(k)) + rest,
            list.names.take(k),
            list.entries.take(k),
        ) == Some((list.names, list.entries, rest)),
    decreases list.names.len() - k,
{
    let names = list.names;
    let entries = list.entries;
    let s = pairs_bytes(names.skip(k), entries.skip(k)) + rest;
    if k == names.len() {
        assert(pairs_bytes(names.skip(k), entries.skip(k)) =~= Seq::<u8>::empty());
        assert(s =~= rest);
        assert(names.take(k) =~= names);
        assert(entries.take(k) =~= entries);
    } else {
        let tail = pairs_bytes(names.skip(k + 1), entries.skip(k + 1)) + rest;
        lemma_pairs_bytes_unfold(names.skip(k), entries.skip(k));
        assert(names.skip(k).drop_first() =~= names.skip(k + 1));
        assert(entries.skip(k).drop_first() =~= entries.skip(k + 1));
        assert(s =~= pair_field(names[k], entries[k]) + tail);
        lemma_pair_round_trip(names[k], entries[k], tail);
        lemma_position(names.take(k), names[k]);
        if position(names.take(k), names[k]) is Some {
            let i = position(names.take(k), names[k])->Some_0;
            assert(names.take(k)[i] == names[i]);
        }
        assert(names.take(k).push(names[k]) =~= names.take(k + 1));
        assert(entries.take(k).push(entries[k]) =~= entries.take(k + 1));
        lemma_pairs_round_trip(list, k + 1, rest);
    }
}

/// What is written is what is read: the stored form of a registry, whatever
/// follows it, is read back as that registry.
pub proof fn lemma_list_round_trip(list: KdfListView, trailing: Seq<u8>)
    requires
        storable(list),
    ensures
        parse_list(list_bytes(list) + trailing) == Some(list),
{
    let end = seq![END] + trailing;
    let rest = list.unknown + end;
    assert(list_bytes(list) + trailing =~= pairs_bytes(list.names, list.entries) + rest);
    assert(parse_tail(rest) == Some((list.unknown, end)) && rest[0] != STRUCT + 1) by {
        lemma_tail_round_trip(list.unknown, (STRUCT + 1) as u8, end);
    }
    assert(list.names.skip(0) =~= list.names);
    assert(list.entries.skip(0) =~= list.entries);
    assert(list.names.take(0) =~= Seq::<Seq<char>>::empty());
    assert(list.entries.take(0) =~= Seq::<KdfEntryView>::empty());
    lemma_pairs_round_trip(list, 0, rest);
}

/// How deep structs may stand within structs that are passed over.
pub const MAX_DEPTH: usize = 32;

/// The number of bytes at the start of `s` that make up an integer of at
/// most `left` bytes, whatever its value.
pub open spec fn varint_len(s: Seq<u8>, left: nat) -> Option<nat>
    decreases left,
{
    if left == 0 || s.len() == 0 {
        None
    } else if s[0] < 128 {
        Some(1nat)
    } else {
        match varint_len(s.skip(1), (left - 1) as nat) {
            Some(n) => Some(n + 1),
            None => None,
        }
    }
}

/// The number of bytes of the field at the start of `s`, whatever its tag
/// and whatever it holds: an integer; a blob of at most `MAX_BLOB` bytes; a
/// struct, which is fields up to a zero byte; or a variant, which is an
/// integer followed by fields up to a zero byte. Structs and variants may
/// stand at most `depth` deep within one another.
pub open spec fn field_len(s: Seq<u8>, depth: nat) -> Option<nat>
    decreases depth, s.len(), 0nat,
{
    if s.len() == 0 || s[0] % 64 == 0 {
        None
    } else {
        let body = s.skip(1);
        if s[0] / 64 == 1 {
            match varint_len(body, 10) {
                Some(n) => Some(1 + n),
                None => None,
            }
        } else if s[0] / 64 == 2 {
            match parse_varint(body, 10) {
                Some((n, rest)) => if n <= MAX_BLOB && n <= rest.len() && rest.len()
                    < body.len() {
                    Some((1 + (body.len() - rest.len()) + n) as nat)
                } else {
                    None
                },
                None => None,
            }
        } else if depth == 0 {
            None
        } else if s[0] / 64 == 3 {
            match fields_len(body, (depth - 1) as nat) {
                Some(n) => Some(n + 2),
                None => None,
            }
        } else {
            match varint_len(body, 10) {
                Some(d) => match fields_len(body.skip(d as int), (depth - 1) as nat) {
                    Some(n) => Some(d + n + 2),
                    None => None,
                },
                None => None,
            }
        }
    }
}

/// The number of bytes of the fields at the start of `s`, up to the zero
/// byte that ends them, which is not counted.
pub open spec fn fields_len(s: Seq<u8>, depth: nat) -> Option<nat>
    decreases depth, s.len(), 1nat,
{
    if s.len() == 0 {
        None
    } else if s[0] == END {
        Some(0nat)
    } else {
        match field_len(s, depth) {
            Some(n) => if 0 < n <= s.len() {
                match fields_len(s.skip(n as int), depth) {
                    Some(m) => Some(n + m),
                    None => None,
                }
            } else {
                None
            },
            None => None,
        }
    }
}

/// An integer is read the same whatever follows it.
pub proof fn lemma_parse_varint_extends(s: Seq<u8>, t: Seq<u8>, left: nat)
    requires
        parse_varint(s, left) is Some,
    ensures
        parse_varint(s + t, left) == Some(
            (parse_varint(s, left)->Some_0.0, parse_varint(s, left)->Some_0.1 + t),
        ),
        parse_varint(s, left)->Some_0.1.len() < s.len(),
    decreases left,
{
    assert((s + t)[0] == s[0]);
    if s[0] < 128 {
        assert((s + t).skip(1) =~= s.skip(1) + t);
    } else {
        assert((s + t).skip(1) =~= s.skip(1) + t);
        lemma_parse_varint_extends(s.skip(1), t, (left - 1) as nat);
    }
}

/// An integer is as long whatever follows it.
pub proof fn lemma_varint_len_extends(s: Seq<u8>, t: Seq<u8>, left: nat)
    requires
        varint_len(s, left) is Some,
    ensures
        varint_len(s + t, left) == varint_len(s, left),
        0 < varint_len(s, left)->Some_0 <= s.len(),
    decreases left,
{
    assert((s + t)[0] == s[0]);
    if s[0] >= 128 {
        assert((s + t).skip(1) =~= s.skip(1) + t);
        lemma_varint_len_extends(s.skip(1), t, (left - 1) as nat);
    }
}

/// A field is as long whatever follows it.
pub proof fn lemma_field_len_extends(s: Seq<u8>, t: Seq<u8>, depth: nat)
    requires
        field_len(s, depth) is Some,
    ensures
        field_len(s + t, depth) == field_len(s, depth),
        0 < field_len(s, depth)->Some_0 <= s.len(),
    decreases depth, s.len(), 0nat,
{
    let body = s.skip(1);
    assert((s + t)[0] == s[0]);
    assert((s + t).skip(1) =~= body + t);
    if s[0] / 64 == 1 {
        lemma_varint_len_extends(body, t, 10);
    } else if s[0] / 64 == 2 {
        lemma_parse_varint_extends(body, t, 10);
    } else if s[0] / 64 == 3 {
        lemma_fields_len_extends(body, t, (depth - 1) as nat);
    } else {
        lemma_varint_len_extends(body, t, 10);
        let d = varint_len(body, 10)->Some_0;
        assert((body + t).skip(d as int) =~= body.skip(d as int) + t);
        lemma_fields_len_extends(body.skip(d as int), t, (depth - 1) as nat);
    }
}

/// Fields up to the zero byte that ends them are as long whatever follows
/// that byte.
pub proof fn lemma_fields_len_extends(s: Seq<u8>, t: Seq<u8>, depth: nat)
    requires
        fields_len(s, depth) is Some,
    ensures
        fields_len(s + t, depth) == fields_len(s, depth),
        fields_len(s, depth)->Some_0 < s.len(),
        s[fields_len(s, depth)->Some_0 as int] == END,
    decreases depth, s.len(), 1nat,
{
    assert((s + t)[0] == s[0]);
    if s[0] != END {
        lemma_field_len_extends(s, t, depth);
        let n = field_len(s, depth)->Some_0;
        assert((s + t).skip(n as int) =~= s.skip(n as int) + t);
        lemma_fields_len_extends(s.skip(n as int), t, depth);
    }
}

/// Fields up to the zero byte that ends them are as long when all that
/// follows that byte is cut off.
pub proof fn lemma_fields_len_cut(s: Seq<u8>, depth: nat)
    requires
        fields_len(s, depth) is Some,
    ensures
        fields_len(s.take(fields_len(s, depth)->Some_0 as int + 1), depth) == fields_len(s, depth),
    decreases depth, s.len(), 1nat,
{
    lemma_fields_len_extends(s, Seq::empty(), depth);
    let total = fields_len(s, depth)->Some_0 as int;
    let cut = s.take(total + 1);
    assert(cut[0] == s[0]);
    if s[0] != END {
        let n = field_len(s, depth)->Some_0;
        lemma_field_len_extends(s, Seq::empty(), depth);
        let rest = s.skip(n as int);
        let m = fields_len(rest, depth)->Some_0 as int;
        lemma_fields_len_cut(rest, depth);
        lemma_field_len_cut(s, depth);
        // The field itself fits in the cut, and what follows it is the cut of
        // the rest.
        let field = s.take(n as int);
        assert(cut =~= field + rest.take(m + 1));
        lemma_field_len_extends(field, rest.take(m + 1), depth);
        assert(cut.skip(n as int) =~= rest.take(m + 1));
    }
}

/// A field is as long when all that follows it is cut off.
pub proof fn lemma_field_len_cut(s: Seq<u8>, depth: nat)
    requires
        field_len(s, depth) is Some,
    ensures
        field_len(s.take(field_len(s, depth)->Some_0 as int), depth) == field_len(s, depth),
    decreases depth, s.len(), 0nat,
{
    lemma_field_len_extends(s, Seq::empty(), depth);
    let n = field_len(s, depth)->Some_0;
    let cut = s.take(n as int);
    let body = s.skip(1);
    assert(cut[0] == s[0]);
    assert(cut.skip(1) =~= body.take(n - 1));
    if s[0] / 64 == 1 {
        lemma_varint_len_cut(body, 10);
    } else if s[0] / 64 == 2 {
        lemma_parse_varint_extends(body, Seq::empty(), 10);
        lemma_parse_varint_cut(body, 10);
        let parsed = parse_varint(body, 10)->Some_0;
        let k = body.len() - parsed.1.len();
        let head = body.take(k);
        let blob = parsed.1.take(parsed.0 as int);
        assert(parsed.1 =~= body.skip(k));
        assert(body.take(n - 1) =~= head + blob);
        lemma_parse_varint_extends(head, blob, 10);
        assert(parse_varint(head, 10)->Some_0.1 =~= Seq::<u8>::empty());
    } else if s[0] / 64 == 3 {
        lemma_fields_len_cut(body, (depth - 1) as nat);
    } else {
        lemma_varint_len_extends(body, Seq::empty(), 10);
        lemma_varint_len_cut(body, 10);
        let d = varint_len(body, 10)->Some_0;
        let inner = body.skip(d as int);
        let m = fields_len(inner, (depth - 1) as nat)->Some_0 as int;
        lemma_fields_len_cut(inner, (depth - 1) as nat);
        let head = body.take(d as int);
        assert(body.take(n - 1) =~= head + inner.take(m + 1));
        lemma_varint_len_extends(head, inner.take(m + 1), 10);
        assert(body.take(n - 1).skip(d as int) =~= inner.take(m + 1));
    }
}

/// An integer is as long when all that follows it is cut off.
pub proof fn lemma_varint_len_cut(s: Seq<u8>, left: nat)
    requires
        varint_len(s, left) is Some,
    ensures
        varint_len(s.take(varint_len(s, left)->Some_0 as int), left) == varint_len(s, left),
    decreases left,
{
    lemma_varint_len_extends(s, Seq::empty(), left);
    let n = varint_len(s, left)->Some_0;
    assert(s.take(n as int)[0] == s[0]);
    if s[0] >= 128 {
        lemma_varint_len_cut(s.skip(1), (left - 1) as nat);
        assert(s.take(n as int).skip(1) =~= s.skip(1).take(n - 1));
    }
}

/// An integer is read the same when all that follows it is cut off.
pub proof fn lemma_parse_varint_cut(s: Seq<u8>, left: nat)
    requires
        parse_varint(s, left) is Some,
    ensures
        parse_varint(s.take(s.len() - parse_varint(s, left)->Some_0.1.len()), left) == Some(
            (parse_varint(s, left)->Some_0.0, Seq::<u8>::empty()),
        ),
        parse_varint(s, left)->Some_0.1 == s.skip(s.len() - parse_varint(s, left)->Some_0.1.len()),
    decreases left,
{
    lemma_parse_varint_extends(s, Seq::empty(), left);
    let rest = parse_varint(s, left)->Some_0.1;
    let k = s.len() - rest.len();
    assert(s.take(k)[0] == s[0]);
    if s[0] < 128 {
        assert(s.take(1).skip(1) =~= Seq::<u8>::empty());
    } else {
        lemma_parse_varint_cut(s.skip(1), (left - 1) as nat);
        assert(s.take(k).skip(1) =~= s.skip(1).take(k - 1));
        assert(rest =~= s.skip(k));
    }
}

/// The length of the integer that starts at `pos`, of at most `left` bytes.
pub fn skip_varint(data: &[u8], pos: usize, left: u8) -> (res: Option<usize>)
    ensures
        pos > data.len() ==> res is None,
        pos <= data.len() ==> (
            match varint_len(data@.skip(pos as int), left as nat) {
                Some(n) => res == Some(n as usize) && pos + n <= data.len() && n > 0,
                None => res is None,
            }
        ),
{
    if pos > data.len() {
        return None;
    }
    let mut n: usize = 0;
    let mut budget = left;
    let ghost goal = varint_len(data@.skip(pos as int), left as nat);
    proof {
        assert(data@.skip(pos as int).skip(0) =~= data@.skip(pos as int));
    }
    while budget > 0 && pos + n < data.len()
        invariant
            pos + n <= data.len(),
            n + budget == left,
            goal == varint_len(data@.skip(pos as int), left as nat),
            match varint_len(data@.skip(pos + n), budget as nat) {
                Some(m) => goal == Some((n + m) as nat),
                None => goal is None,
            },
        decreases budget,
    {
        let b = data[pos + n];
        proof {
            assert(data@.skip(pos + n)[0] == b);
            assert(data@.skip(pos + n).skip(1) =~= data@.skip(pos + n + 1));
        }
        n += 1;
        budget -= 1;
        if b < 128 {
            return Some(n);
        }
    }
    None
}

/// The length of the field that starts at `pos`, whatever it holds.
pub fn skip_field(data: &[u8], pos: usize, depth: usize) -> (res: Option<usize>)
    ensures
        pos > data.len() ==> res is None,
        pos <= data.len() ==> (
            match field_len(data@.skip(pos as int), depth as nat) {
                Some(n) => res == Some(n as usize) && pos + n <= data.len() && n > 0,
                None => res is None,
            }
        ),
    decreases depth, data.len() - pos, 0nat,
{
    if pos > data.len() {
        return None;
    }
    if pos >= data.len() || data[pos] % 64 == 0 {
        return None;
    }
    let kind = data[pos] / 64;
    let ghost s = data@.skip(pos as int);
    proof {
        assert(s[0] == data@[pos as int]);
        assert(s.skip(1) =~= data@.skip(pos + 1));
    }
    if kind == 1 {
        match skip_varint(data, pos + 1, 10) {
            Some(n) => Some(1 + n),
            None => None,
        }
    } else if kind == 2 {
        let (n, start) = match get_varint(data, pos + 1, 10) {
            Some(found) => found,
            None => {
                return None;
            },
        };
        if n > MAX_BLOB as u64 || n > (data.len() - start) as u64 {
            return None;
        }
        Some(start - pos + n as usize)
    } else if depth == 0 {
        None
    } else if kind == 3 {
        match skip_fields(data, pos + 1, depth - 1) {
            Some(n) => Some(n + 2),
            None => None,
        }
    } else {
        let d = match skip_varint(data, pos + 1, 10) {
            Some(d) => d,
            None => {
                return None;
            },
        };
        proof {
            assert(s.skip(1).skip(d as int) =~= data@.skip(pos + 1 + d));
        }
        match skip_fields(data, pos + 1 + d, depth - 1) {
            Some(n) => Some(d + n + 2),
            None => None,
        }
    }
}

/// The length of the fields that start at `pos`, up to the zero byte that
/// ends them.
pub fn skip_fields(data: &[u8], pos: usize, depth: usize) -> (res: Option<usize>)
    ensures
        pos > data.len() ==> res is None,
        pos <= data.len() ==> (
            match fields_len(data@.skip(pos as int), depth as nat) {
                Some(n) => res == Some(n as usize) && pos + n < data.len() && data@[pos + n] == END,
                None => res is None,
            }
        ),
    decreases depth, data.len() - pos, 1nat,
{
    if pos > data.len() {
        return None;
    }
    let mut n: usize = 0;
    let ghost goal = fields_len(data@.skip(pos as int), depth as nat);
    while pos + n < data.len()
        invariant
            pos + n <= data.len(),
            goal == fields_len(data@.skip(pos as int), depth as nat),
            match fields_len(data@.skip(pos + n), depth as nat) {
                Some(m) => goal == Some((n + m) as nat),
                None => goal is None,
            },
        decreases data.len() - pos - n,
    {
        if data[pos + n] == END {
            assert(data@.skip(pos + n)[0] == END);
            return Some(n);
        }
        assert(data@.skip(pos + n)[0] == data@[pos + n]);
        let len = match skip_field(data, pos + n, depth) {
            Some(len) => len,
            None => {
                return None;
            },
        };
        proof {
            assert(data@.skip(pos + n).skip(len as int) =~= data@.skip(pos + n + len));
        }
        n += len;
    }
    None
}

/// A string that was read is short enough to be read back.
pub proof fn lemma_parsed_string_storable(s: Seq<u8>, tag: u8)
    requires
        parse_string(s, tag) is Some,
    ensures
        storable_name(parse_string(s, tag)->Some_0.0),
{
    reveal(parse_string);
    let bytes = parse_blob(s, tag)->Some_0.0;
    decode_utf8_encode_utf8(bytes);
}

/// A point in time that was read is one that is read back.
pub proof fn lemma_parsed_time_storable(s: Seq<u8>, tag: u8)
    requires
        parse_opt_time(s, tag) is Some,
    ensures
        storable_time(parse_opt_time(s, tag)->Some_0.0),
{
    reveal(parse_opt_time);
    reveal(parse_time);
}

/// Whether groups are read back as they are written.
pub open spec fn storable_groups(names: Seq<Seq<char>>, diffs: Seq<Seq<u8>>) -> bool {
    &&& names.len() == diffs.len()
    &&& names.len() <= MAX_COLLECT
    &&& distinct(names)
    &&& forall|i: int| 0 <= i < names.len() ==> storable_name(#[trigger] names[i])
    &&& forall|i: int| 0 <= i < diffs.len() ==> (#[trigger] diffs[i]).len() == 32
}

/// A name that stands nowhere in a sequence of distinct names can be added
/// to it.
pub proof fn lemma_push_distinct(names: Seq<Seq<char>>, name: Seq<char>)
    requires
        distinct(names),
        position(names, name) is None,
    ensures
        distinct(names.push(name)),
{
    lemma_position(names, name);
    let more = names.push(name);
    assert forall|i: int, j: int| 0 <= i < j < more.len() implies more[i] != more[j] by {
        if j < names.len() {
            assert(more[i] == names[i] && more[j] == names[j]);
        } else {
            assert(more[i] == names[i]);
        }
    }
}

/// Groups that were read are read back as they are written, and what
/// follows them does not look like a group.
pub proof fn lemma_parsed_groups_storable(s: Seq<u8>, names: Seq<Seq<char>>, diffs: Seq<Seq<u8>>)
    requires
        parse_groups(s, names, diffs) is Some,
        storable_groups(names, diffs),
    ensures
        storable_groups(
            parse_groups(s, names, diffs)->Some_0.0,
            parse_groups(s, names, diffs)->Some_0.1,
        ),
        parse_groups(s, names, diffs)->Some_0.2.len() > 0 ==> parse_groups(
            s,
            names,
            diffs,
        )->Some_0.2[0] != STRUCT + 7,
    decreases s.len(),
{
    reveal(parse_groups);
    if s.len() > 0 && s[0] == STRUCT + 7 {
        let group = parse_group(s)->Some_0;
        lemma_parsed_string_storable(s.skip(1), 1);
        reveal(parse_hash);
        lemma_push_distinct(names, group.0);
        let more_names = names.push(group.0);
        let more_diffs = diffs.push(group.1);
        assert forall|i: int| 0 <= i < more_names.len() implies storable_name(
            #[trigger] more_names[i],
        ) by {
            if i < names.len() {
                assert(more_names[i] == names[i]);
            }
        }
        assert forall|i: int| 0 <= i < more_diffs.len() implies (#[trigger] more_diffs[i]).len()
            == 32 by {
            if i < diffs.len() {
                assert(more_diffs[i] == diffs[i]);
            }
        }
        lemma_parsed_groups_storable(group.2, more_names, more_diffs);
    }
}

/// Fields that were passed over are passed over again when they are written
/// back, and the zero byte that ends them follows them.
pub proof fn lemma_parsed_tail_storable(s: Seq<u8>, before: u8)
    requires
        parse_tail(s) is Some,
        s.len() > 0 ==> s[0] != before,
    ensures
        storable_tail(parse_tail(s)->Some_0.0, before),
        parse_tail(s)->Some_0.1.len() > 0,
        parse_tail(s)->Some_0.1[0] == END,
{
    reveal(parse_tail);
    reveal(storable_tail);
    let n = fields_len(s, MAX_DEPTH as nat)->Some_0 as int;
    lemma_fields_len_extends(s, Seq::empty(), MAX_DEPTH as nat);
    lemma_fields_len_cut(s, MAX_DEPTH as nat);
    assert(s.take(n + 1) =~= s.take(n) + seq![END]);
}

/// An entry that was read is read back as it is written, and the zero byte
/// that ends it follows it.
pub proof fn lemma_parsed_entry_storable(s: Seq<u8>)
    requires
        parse_entry(s) is Some,
    ensures
        storable_entry(parse_entry(s)->Some_0.0),
        parse_entry(s)->Some_0.1.len() > 0,
        parse_entry(s)->Some_0.1[0] == END,
{
    reveal(parse_entry);
    let r1 = parse_time(s, 1)->Some_0.1;
    let r2 = parse_opt_time(r1, 2)->Some_0.1;
    let r3 = parse_opt_time(r2, 3)->Some_0.1;
    let r4 = parse_string(r3, 4)->Some_0.1;
    let r5 = parse_hash(r4, 5)->Some_0.1;
    let r6 = parse_hash(r5, 6)->Some_0.1;
    let r7 = parse_groups(r6, Seq::empty(), Seq::empty())->Some_0.2;
    assert(point_in_time(
        parse_time(s, 1)->Some_0.0.secs,
        parse_time(s, 1)->Some_0.0.nanos,
    )) by {
        reveal(parse_time);
    }
    lemma_parsed_time_storable(r1, 2);
    lemma_parsed_time_storable(r2, 3);
    lemma_parsed_string_storable(r3, 4);
    assert(parse_hash(r4, 5)->Some_0.0.len() == 32 && parse_hash(r5, 6)->Some_0.0.len() == 32) by {
        reveal(parse_hash);
    }
    lemma_parsed_groups_storable(r6, Seq::empty(), Seq::empty());
    lemma_parsed_tail_storable(r7, (STRUCT + 7) as u8);
}

/// Whether named entries are read back as they are written.
pub open spec fn storable_pairs(names: Seq<Seq<char>>, entries: Seq<KdfEntryView>) -> bool {
    &&& names.len() == entries.len()
    &&& names.len() <= MAX_COLLECT
    &&& distinct(names)
    &&& forall|i: int| 0 <= i < names.len() ==> storable_name(#[trigger] names[i])
    &&& forall|i: int| 0 <= i < entries.len() ==> storable_entry(#[trigger] entries[i])
}

/// Named entries that were read are read back as they are written, and what
/// follows them does not look like a named entry.
pub proof fn lemma_parsed_pairs_storable(
    s: Seq<u8>,
    names: Seq<Seq<char>>,
    entries: Seq<KdfEntryView>,
)
    requires
        parse_pairs(s, names, entries) is Some,
        storable_pairs(names, entries),
    ensures
        storable_pairs(
            parse_pairs(s, names, entries)->Some_0.0,
            parse_pairs(s, names, entries)->Some_0.1,
        ),
        parse_pairs(s, names, entries)->Some_0.2.len() > 0 ==> parse_pairs(
            s,
            names,
            entries,
        )->Some_0.2[0] != STRUCT + 1,
    decreases s.len(),
{
    if s.len() > 0 && s[0] == STRUCT + 1 {
        let pair = parse_pair(s)->Some_0;
        let r1 = parse_string(s.skip(1), 1)->Some_0.1;
        lemma_parsed_string_storable(s.skip(1), 1);
        lemma_parsed_entry_storable(r1.skip(1));
        lemma_push_distinct(names, pair.0);
        let more_names = names.push(pair.0);
        let more_entries = entries.push(pair.1);
        assert forall|i: int| 0 <= i < more_names.len() implies storable_name(
            #[trigger] more_names[i],
        ) by {
            if i < names.len() {
                assert(more_names[i] == names[i]);
            }
        }
        assert forall|i: int| 0 <= i < more_entries.len() implies storable_entry(
            #[trigger] more_entries[i],
        ) by {
            if i < entries.len() {
                assert(more_entries[i] == entries[i]);
            }
        }
        lemma_parsed_pairs_storable(pair.2, more_names, more_entries);
    }
}

/// A registry that was read is read back as it is written.
pub proof fn lemma_parsed_list_storable(s: Seq<u8>)
    requires
        parse_list(s) is Some,
    ensures
        storable(parse_list(s)->Some_0),
{
    lemma_parsed_pairs_storable(s, Seq::empty(), Seq::empty());
    let rest = parse_pairs(s, Seq::empty(), Seq::empty())->Some_0.2;
    lemma_parsed_tail_storable(rest, (STRUCT + 1) as u8);
    let list = parse_list(s)->Some_0;
    assert forall|i: int| 0 <= i < list.entries.len() implies (#[trigger] list.entries[i]).wf() by {
        assert(storable_entry(list.entries[i]));
    }
}

/// What was read is written and read back as it was: the stored form of a
/// registry that was read from some bytes, whatever follows it, is read as
/// the same registry.
pub proof fn lemma_rewrite_round_trip(s: Seq<u8>, trailing: Seq<u8>)
    requires
        parse_list(s) is Some,
    ensures
        parse_list(list_bytes(parse_list(s)->Some_0) + trailing) == parse_list(s),
{
    lemma_parsed_list_storable(s);
    lemma_list_round_trip(parse_list(s)->Some_0, trailing);
}

} // verus!
