use ensync::errors::Error;
use ensync::server::kdf::{KdfEntry, KdfList, Timestamp};
use ensync::server::wire::{
    from_slice, get_blob, get_int, get_time, get_varint, put_blob, put_int, put_string, put_time,
    put_varint, skip_field, skip_fields, skip_varint, to_vec, zigzag_decode, zigzag_encode,
};

fn varint_of(n: u64) -> Vec<u8> {
    let mut out = Vec::new();
    put_varint(&mut out, n);
    out
}

#[test]
fn integers_in_their_stored_form() {
    assert_eq!(vec![0], varint_of(0));
    assert_eq!(vec![1], varint_of(1));
    assert_eq!(vec![127], varint_of(127));
    assert_eq!(vec![128, 1], varint_of(128));
    assert_eq!(vec![128, 2], varint_of(256));
    assert_eq!(vec![255, 255, 255, 255, 255, 255, 255, 255, 255, 1], varint_of(u64::MAX));
}

#[test]
fn integers_are_read_back() {
    for n in [0u64, 1, 127, 128, 255, 256, 16383, 16384, 1 << 32, u64::MAX - 1, u64::MAX] {
        let mut data = varint_of(n);
        let len = data.len();
        data.push(0xEE);
        assert_eq!(Some((n, len)), get_varint(&data, 0, 10));
    }
}

#[test]
fn integers_that_are_too_wide_or_too_long_are_refused() {
    // One more than the largest integer of 64 bits.
    assert_eq!(None, get_varint(&[255, 255, 255, 255, 255, 255, 255, 255, 255, 2], 0, 10));
    assert_eq!(None, get_varint(&[128, 128, 128, 128, 128, 128, 128, 128, 128, 128, 1], 0, 10));
    // Not the shortest form.
    assert_eq!(None, get_varint(&[128, 0], 0, 10));
    // Cut short.
    assert_eq!(None, get_varint(&[128], 0, 10));
    assert_eq!(None, get_varint(&[], 0, 10));
    assert_eq!(None, get_varint(&[128, 1], 0, 1));
    // Beyond the end.
    assert_eq!(None, get_varint(&[1], 2, 10));
    assert_eq!(Some((1, 1)), get_varint(&[1], 0, 10));
    assert_eq!(None, get_varint(&[1], 1, 10));
}

#[test]
fn signed_integers_zigzag() {
    assert_eq!(0, zigzag_encode(0));
    assert_eq!(1, zigzag_encode(-1));
    assert_eq!(2, zigzag_encode(1));
    assert_eq!(3, zigzag_encode(-2));
    assert_eq!(512, zigzag_encode(256));
    assert_eq!(u64::MAX - 1, zigzag_encode(i64::MAX));
    assert_eq!(u64::MAX, zigzag_encode(i64::MIN));
    for i in [0i64, 1, -1, 2, -2, 1_500_000_000, i64::MAX, i64::MIN] {
        assert_eq!(i, zigzag_decode(zigzag_encode(i)));
    }
}

#[test]
fn fields_in_their_stored_form() {
    // A struct with the string "Defunct" under tag 1 and the integer 42
    // under tag 3.
    let mut out = Vec::new();
    put_string(&mut out, 1, "Defunct");
    put_int(&mut out, 3, 42);
    out.push(0);
    assert_eq!(b"\x81\x07Defunct\x43\x2A\x00", &out[..]);

    let mut out = Vec::new();
    put_blob(&mut out, 5, &[0xAA; 3]);
    assert_eq!(vec![0x85, 3, 0xAA, 0xAA, 0xAA], out);

    let mut out = Vec::new();
    put_time(&mut out, 2, Timestamp { secs: -1, nanos: 300 });
    assert_eq!(vec![0xC2, 0x41, 1, 0x42, 0xAC, 0x02, 0x00], out);
}

#[test]
fn fields_are_read_back() {
    let data = b"\x81\x07Defunct\x43\x2A\x00";
    let (blob, next) = get_blob(data, 0, 1).unwrap();
    assert_eq!(b"Defunct", blob);
    assert_eq!(9, next);
    assert_eq!(Some((42, 11)), get_int(data, 9, 3));
    assert!(get_blob(data, 0, 2).is_none());
    assert!(get_int(data, 9, 1).is_none());
    assert!(get_int(data, 0, 1).is_none());
    // A blob longer than what is left.
    assert!(get_blob(b"\x81\x08Defunct", 0, 1).is_none());
}

fn entry() -> KdfEntry {
    KdfEntry {
        created: Timestamp { secs: 1, nanos: 2 },
        updated: None,
        used: Some(Timestamp { secs: 3, nanos: 4 }),
        algorithm: "alg".to_owned(),
        salt: [0x11; 32],
        hash: [0x22; 32],
        group_names: vec!["everyone".to_owned(), "root".to_owned()],
        group_diffs: vec![[0x33; 32], [0x44; 32]],
        unknown: vec![],
    }
}

fn expected_entry_bytes() -> Vec<u8> {
    let mut e = Vec::new();
    e.extend_from_slice(&[0xC1, 0x41, 2, 0x42, 2, 0x00]);
    e.extend_from_slice(&[0xC3, 0x41, 6, 0x42, 4, 0x00]);
    e.extend_from_slice(b"\x84\x03alg");
    e.extend_from_slice(&[0x85, 32]);
    e.extend_from_slice(&[0x11; 32]);
    e.extend_from_slice(&[0x86, 32]);
    e.extend_from_slice(&[0x22; 32]);
    e.extend_from_slice(b"\xC7\x81\x08everyone\x82\x20");
    e.extend_from_slice(&[0x33; 32]);
    e.push(0x00);
    e.extend_from_slice(b"\xC7\x81\x04root\x82\x20");
    e.extend_from_slice(&[0x44; 32]);
    e.push(0x00);
    e
}

#[test]
fn registry_in_its_stored_form() {
    let list = KdfList { names: vec!["original".to_owned()], entries: vec![entry()], unknown: vec![] };
    let mut expected = b"\xC1\x81\x08original\xC2".to_vec();
    expected.extend_from_slice(&expected_entry_bytes());
    expected.extend_from_slice(&[0x00, 0x00, 0x00]);
    assert_eq!(expected, to_vec(&list));
    assert_eq!(vec![0x00], to_vec(&KdfList::new()));
}

#[test]
fn registry_is_read_back() {
    let mut second = entry();
    second.updated = Some(Timestamp { secs: -5, nanos: 999_999_999 });
    second.used = None;
    second.group_names.clear();
    second.group_diffs.clear();
    second.algorithm = "scrypt-18-8-1".to_owned();
    let list = KdfList {
        names: vec!["original".to_owned(), "zweiter Schl\u{fc}ssel".to_owned()],
        entries: vec![entry(), second],
        unknown: vec![],
    };
    let data = to_vec(&list);
    assert_eq!(list, from_slice(&data).unwrap());
    assert_eq!(KdfList::new(), from_slice(&[0x00]).unwrap());
}

#[test]
fn what_follows_the_registry_is_ignored() {
    let list = KdfList { names: vec!["original".to_owned()], entries: vec![entry()], unknown: vec![] };
    let mut data = to_vec(&list);
    data.extend_from_slice(b"trailing");
    assert_eq!(list, from_slice(&data).unwrap());
}

fn refused(data: &[u8]) -> bool {
    matches!(from_slice(data), Err(Error::Serialization))
}

#[test]
fn malformed_registries_are_refused() {
    let list = KdfList { names: vec!["original".to_owned()], entries: vec![entry()], unknown: vec![] };
    let good = to_vec(&list);
    assert!(refused(&[]));
    for cut in 0..good.len() {
        assert!(refused(&good[..cut]), "cut at {}", cut);
    }
    // A salt of 31 bytes.
    let mut bad = good.clone();
    let salt_at = bad.iter().position(|&b| b == 0x85).unwrap();
    bad[salt_at + 1] = 31;
    bad.remove(salt_at + 2);
    assert!(refused(&bad));
    // A name that is not UTF-8.
    let mut bad = good.clone();
    bad[3] = 0xFF;
    assert!(refused(&bad));
    // A second that chrono has no point in time for.
    let mut bad = good[..16].to_vec();
    bad.extend_from_slice(&[0x80, 0x94, 0xEB, 0xDC, 0x0F]);
    bad.extend_from_slice(&good[17..]);
    assert!(refused(&bad));
    // The same bytes with a nanosecond that there is are read.
    let mut fine = good[..16].to_vec();
    fine.extend_from_slice(&[0xFF, 0x93, 0xEB, 0xDC, 0x03]);
    fine.extend_from_slice(&good[17..]);
    let read = from_slice(&fine).unwrap();
    assert_eq!(Timestamp { secs: 1, nanos: 999_999_999 }, read.entries[0].created);
}

#[test]
fn the_same_name_twice_is_refused() {
    let list = KdfList {
        names: vec!["a".to_owned(), "b".to_owned()],
        entries: vec![entry(), entry()],
        unknown: vec![],
    };
    let mut data = to_vec(&list);
    assert!(from_slice(&data).is_ok());
    let b_at = data.windows(3).position(|w| w == b"\x81\x01b").unwrap();
    data[b_at + 2] = b'a';
    assert!(refused(&data));

    let mut twice = entry();
    twice.group_names[1] = "everyone".to_owned();
    let list = KdfList { names: vec!["a".to_owned()], entries: vec![twice], unknown: vec![] };
    assert!(refused(&to_vec(&list)));
}

/// Fields of every kind, as a later version might add them: an integer, a
/// blob, a struct within a struct, and a variant.
fn later_fields() -> Vec<u8> {
    let mut f = vec![0x48, 0x85, 0x01];
    f.extend_from_slice(b"\x89\x03abc");
    f.extend_from_slice(&[0xCA, 0x41, 7, 0xC2, 0x81, 1, b'x', 0x00, 0x00]);
    f.extend_from_slice(&[0x0B, 0x02, 0x41, 9, 0x00]);
    f
}

#[test]
fn fields_of_a_later_version_are_kept_and_written_back() {
    let mut with_more = entry();
    with_more.unknown = later_fields();
    let list = KdfList {
        names: vec!["original".to_owned(), "second".to_owned()],
        entries: vec![with_more, entry()],
        unknown: vec![0x82, 0x02, b'h', b'i'],
    };
    let data = to_vec(&list);
    let read = from_slice(&data).unwrap();
    assert_eq!(list, read);
    assert_eq!(later_fields(), read.entries[0].unknown);
    assert!(read.entries[1].unknown.is_empty());
    assert_eq!(vec![0x82, 0x02, b'h', b'i'], read.unknown);
    assert_eq!(data, to_vec(&read));
}

#[test]
fn an_entry_with_a_single_wrap_keeps_it() {
    // An entry as it was written before there were groups: a single wrap
    // under the tag of the groups, as a blob.
    let mut old = entry();
    old.group_names.clear();
    old.group_diffs.clear();
    old.unknown = vec![0x87, 32];
    old.unknown.extend_from_slice(&[0x55; 32]);
    let list = KdfList { names: vec!["a".to_owned()], entries: vec![old], unknown: vec![] };
    let data = to_vec(&list);
    let read = from_slice(&data).unwrap();
    assert_eq!(list, read);
    assert!(read.entries[0].group_names.is_empty());
}

#[test]
fn passing_over_fields() {
    let f = later_fields();
    assert_eq!(Some(3), skip_field(&f, 0, 32));
    assert_eq!(Some(5), skip_field(&f, 3, 32));
    assert_eq!(Some(9), skip_field(&f, 8, 32));
    assert_eq!(Some(5), skip_field(&f, 17, 32));
    assert_eq!(None, skip_field(&f, 22, 32));
    let mut ended = f.clone();
    ended.push(0x00);
    ended.push(0x77);
    assert_eq!(Some(22), skip_fields(&ended, 0, 32));
    assert_eq!(Some(0), skip_fields(&ended, 22, 32));
    assert_eq!(None, skip_fields(&f, 0, 32));
    assert_eq!(Some(2), skip_varint(&[0x85, 0x01, 0x00], 0, 10));
    assert_eq!(None, skip_varint(&[0x85], 0, 10));
}

#[test]
fn fields_that_are_cut_short_or_too_deep_are_refused() {
    // A struct that is not ended.
    assert_eq!(None, skip_field(&[0xC8, 0x41, 7], 0, 32));
    // A blob longer than what is left.
    assert_eq!(None, skip_field(&[0x88, 4, 1, 2, 3], 0, 32));
    // A descriptor without a tag is no field.
    assert_eq!(None, skip_field(&[0x40, 1], 0, 32));
    assert_eq!(None, skip_field(&[0xC0], 0, 32));
    // Structs within structs, deeper than allowed.
    assert_eq!(Some(4), skip_field(&[0xC8, 0xC8, 0x00, 0x00], 0, 2));
    assert_eq!(None, skip_field(&[0xC8, 0xC8, 0x00, 0x00], 0, 1));
    let mut deep = vec![0xC8u8; 40];
    deep.extend_from_slice(&[0x00; 40]);
    assert_eq!(None, skip_field(&deep, 0, 32));
    let mut bad = to_vec(&KdfList { names: vec![], entries: vec![], unknown: vec![] });
    bad.insert(0, 0x40);
    assert!(refused(&bad));
}

fn time_read_back(t: Timestamp) -> Option<Timestamp> {
    let mut data = Vec::new();
    put_time(&mut data, 1, t);
    let len = data.len();
    data.push(0xEE);
    get_time(&data, 0, 1).map(|(read, end)| {
        assert_eq!(len, end);
        read
    })
}

#[test]
fn points_in_time_are_read_back_as_far_as_the_calendar_goes() {
    // The last second of the year 262143 and the first of the year -262144.
    let last = Timestamp { secs: 8_210_298_412_799, nanos: 999_999_999 };
    let first = Timestamp { secs: -8_334_632_851_200, nanos: 0 };
    assert_eq!(Some(last), time_read_back(last));
    assert_eq!(Some(first), time_read_back(first));
    assert_eq!(None, time_read_back(Timestamp { secs: last.secs + 1, nanos: 0 }));
    assert_eq!(None, time_read_back(Timestamp { secs: first.secs - 1, nanos: 0 }));
    // A leap second is written as nanoseconds beyond the second.
    let leap = Timestamp { secs: 1_483_228_799, nanos: 1_999_999_999 };
    assert_eq!(Some(leap), time_read_back(leap));
    assert_eq!(None, time_read_back(Timestamp { secs: 0, nanos: 2_000_000_000 }));
    assert_eq!(None, time_read_back(Timestamp { secs: 0, nanos: u32::MAX }));
}

#[test]
fn seconds_beyond_every_day_that_can_be_counted_are_refused() {
    for secs in [
        185_480_419_967_999,
        185_480_419_968_000,
        185_480_419_968_001,
        185_480_451_503_999,
        185_480_451_504_000,
        185_542_587_187_199,
        185_542_587_187_200,
        i64::MAX,
        -185_604_754_406_400,
        -185_604_754_406_401,
        -185_542_587_187_200,
        -185_542_587_187_201,
        i64::MIN,
    ] {
        assert!(!Timestamp::is_point_in_time(secs, 0));
        assert_eq!(None, time_read_back(Timestamp { secs, nanos: 0 }));
    }
    assert!(Timestamp::is_day_in_reach(185_480_419_967_999));
    assert!(!Timestamp::is_day_in_reach(185_480_419_968_000));
    assert!(Timestamp::is_day_in_reach(-185_604_754_406_400));
    assert!(!Timestamp::is_day_in_reach(-185_604_754_406_401));
    assert!(Timestamp::is_day_in_reach(0));
    assert!(Timestamp::is_point_in_time(0, 0));
    assert!(Timestamp::is_point_in_time(1_500_000_000, 999_999_999));
}

#[test]
fn a_registry_with_a_time_beyond_the_calendar_is_refused() {
    for secs in [185_480_419_968_000, 185_480_451_503_999, 8_210_298_412_800, i64::MIN] {
        let mut made = entry();
        made.created = Timestamp { secs, nanos: 0 };
        let list =
            KdfList { names: vec!["original".to_owned()], entries: vec![made], unknown: vec![] };
        assert!(refused(&to_vec(&list)));
        let mut used = entry();
        used.used = Some(Timestamp { secs, nanos: 0 });
        let list =
            KdfList { names: vec!["original".to_owned()], entries: vec![used], unknown: vec![] };
        assert!(refused(&to_vec(&list)));
    }
}
