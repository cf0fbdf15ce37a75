use ensync::block_xfer::{
    add_block, blocks_to_stream, check_block, check_block_list, fill_step, hash_block_list,
    stream_to_blocks, BlockList, FillStep, ReadOutcome,
};
use ensync::defs::{hash_eq, hmac, sha3, HashId};
use ensync::errors::Error;

fn sha3_of(parts: &[&[u8]]) -> HashId {
    let mut kc = tiny_keccak::Keccak::new_sha3_256();
    for part in parts {
        kc.update(part);
    }
    let mut out = [0u8; 32];
    kc.finalize(&mut out);
    out
}

fn split(input: &[u8], block_size: usize, secret: &[u8]) -> (BlockList, Vec<Vec<u8>>) {
    let mut bodies = Vec::new();
    let list = stream_to_blocks(input, &mut bodies, block_size, secret);
    (list, bodies)
}

fn join(list: &BlockList, bodies: &Vec<Vec<u8>>, secret: &[u8]) -> (Result<(), Error>, Vec<u8>) {
    let mut out = Vec::new();
    let res = blocks_to_stream(list, &mut out, bodies, secret);
    (res, out)
}

#[test]
fn sha3_of_empty_input_is_the_standard_digest() {
    let expected: HashId = [
        0xa7, 0xff, 0xc6, 0xf8, 0xbf, 0x1e, 0xd7, 0x66, 0x51, 0xc1, 0x47, 0x56, 0xa0, 0x61, 0xd6,
        0x62, 0xf5, 0x80, 0xff, 0x4d, 0xe4, 0x3b, 0x49, 0xfa, 0x82, 0xd8, 0x0a, 0x4b, 0x80, 0xf8,
        0x43, 0x4a,
    ];
    assert_eq!(expected, sha3(b""));
}

#[test]
fn sha3_of_hello_world_is_the_standard_digest() {
    let expected: HashId = [
        0x64, 0x4b, 0xcc, 0x7e, 0x56, 0x43, 0x73, 0x04, 0x09, 0x99, 0xaa, 0xc8, 0x9e, 0x76, 0x22,
        0xf3, 0xca, 0x71, 0xfb, 0xa1, 0xd9, 0x72, 0xfd, 0x94, 0xa3, 0x1c, 0x3b, 0xfb, 0xf2, 0x4e,
        0x39, 0x38,
    ];
    assert_eq!(expected, sha3(b"hello world"));
}

#[test]
fn hmac_is_the_digest_of_secret_then_data() {
    assert_eq!(sha3(b"hello world"), hmac(b"hello ", b"world"));
    assert_eq!(sha3(b"hello world"), hmac(b"", b"hello world"));
    assert_ne!(hmac(b"k", b"hello"), hmac(b"j", b"hello"));
    assert_ne!(hmac(b"k", b"hello"), sha3(b"hello"));
}

#[test]
fn hash_eq_compares_all_bytes() {
    let a = sha3(b"a");
    let mut b = a;
    assert!(hash_eq(&a, &b));
    b[31] ^= 1;
    assert!(!hash_eq(&a, &b));
    b[31] ^= 1;
    b[0] ^= 0x80;
    assert!(!hash_eq(&a, &b));
}

#[test]
fn hello_world_in_blocks_of_five() {
    let (list, bodies) = split(b"hello world", 5, b"k");
    assert_eq!(vec![b"hello".to_vec(), b" worl".to_vec(), b"d".to_vec()], bodies);
    let h1 = sha3_of(&[b"k", b"hello"]);
    let h2 = sha3_of(&[b"k", b" worl"]);
    let h3 = sha3_of(&[b"k", b"d"]);
    assert_eq!(vec![h1, h2, h3], list.blocks);
    assert_eq!(11, list.size);
    assert_eq!(sha3_of(&[b"k", &h1, &h2, &h3]), list.total);
}

#[test]
fn empty_input_yields_no_blocks() {
    let (list, bodies) = split(b"", 5, b"secret");
    assert!(bodies.is_empty());
    assert!(list.blocks.is_empty());
    assert_eq!(0, list.size);
    assert_eq!(sha3(b"secret"), list.total);
}

#[test]
fn exact_multiple_of_block_size_emits_no_empty_block() {
    let (list, bodies) = split(b"0123456789", 5, b"k");
    assert_eq!(vec![b"01234".to_vec(), b"56789".to_vec()], bodies);
    assert_eq!(2, list.blocks.len());
    assert_eq!(10, list.size);
}

#[test]
fn block_size_larger_than_input_gives_one_block() {
    let (list, bodies) = split(b"abc", 1024, b"k");
    assert_eq!(vec![b"abc".to_vec()], bodies);
    assert_eq!(vec![hmac(b"k", b"abc")], list.blocks);
    assert_eq!(3, list.size);
}

#[test]
fn block_size_of_zero_gives_nothing() {
    let (list, bodies) = split(b"abc", 0, b"k");
    assert!(bodies.is_empty());
    assert!(list.blocks.is_empty());
    assert_eq!(0, list.size);
}

#[test]
fn blocks_are_appended_to_what_the_sink_holds() {
    let mut bodies = vec![b"earlier".to_vec()];
    stream_to_blocks(b"abcd", &mut bodies, 3, b"k");
    assert_eq!(vec![b"earlier".to_vec(), b"abc".to_vec(), b"d".to_vec()], bodies);
}

#[test]
fn split_then_join_gives_the_stream_back() {
    let data: Vec<u8> = (0..1000u32).map(|i| (i * 7 % 251) as u8).collect();
    for block_size in [1usize, 2, 7, 64, 999, 1000, 1001] {
        let (list, bodies) = split(&data, block_size, b"secret");
        assert_eq!(1000, list.size);
        let (res, out) = join(&list, &bodies, b"secret");
        assert!(res.is_ok());
        assert_eq!(data, out);
    }
}

#[test]
fn join_of_empty_list_writes_nothing() {
    let (list, bodies) = split(b"", 16, b"secret");
    let (res, out) = join(&list, &bodies, b"secret");
    assert!(res.is_ok());
    assert!(out.is_empty());
}

#[test]
fn join_appends_to_the_output() {
    let (list, bodies) = split(b"hello world", 5, b"k");
    let mut out = b">> ".to_vec();
    blocks_to_stream(&list, &mut out, &bodies, b"k").unwrap();
    assert_eq!(b">> hello world".to_vec(), out);
}

#[test]
fn tampered_block_body_is_detected() {
    let (list, mut bodies) = split(b"hello world", 5, b"k");
    bodies[1][0] ^= 1;
    let (res, out) = join(&list, &bodies, b"k");
    assert!(matches!(res, Err(Error::InvalidHmac)));
    assert_eq!(10, out.len());
    assert_eq!(b"hello", &out[..5]);
}

#[test]
fn tampered_block_id_is_detected_before_anything_is_written() {
    let (mut list, bodies) = split(b"hello world", 5, b"k");
    list.blocks[2][7] ^= 0x10;
    let (res, out) = join(&list, &bodies, b"k");
    assert!(matches!(res, Err(Error::InvalidHmac)));
    assert!(out.is_empty());
}

#[test]
fn tampered_total_is_detected_before_anything_is_written() {
    let (mut list, bodies) = split(b"hello world", 5, b"k");
    list.total[0] ^= 1;
    let (res, out) = join(&list, &bodies, b"k");
    assert!(matches!(res, Err(Error::InvalidHmac)));
    assert!(out.is_empty());
}

#[test]
fn permuted_blocks_are_detected() {
    let (mut list, mut bodies) = split(b"hello world", 5, b"k");
    list.blocks.swap(0, 1);
    bodies.swap(0, 1);
    let (res, out) = join(&list, &bodies, b"k");
    assert!(matches!(res, Err(Error::InvalidHmac)));
    assert!(out.is_empty());
}

#[test]
fn wrong_secret_is_detected() {
    let (list, bodies) = split(b"hello world", 5, b"k");
    let (res, _) = join(&list, &bodies, b"K");
    assert!(matches!(res, Err(Error::InvalidHmac)));
}

#[test]
fn single_checks_agree_with_the_join() {
    let (list, bodies) = split(b"hello world", 5, b"k");
    assert!(check_block_list(&list, b"k").is_ok());
    assert!(matches!(check_block_list(&list, b"x"), Err(Error::InvalidHmac)));
    assert!(check_block(&list.blocks[0], &bodies[0], b"k").is_ok());
    assert!(matches!(check_block(&list.blocks[0], &bodies[1], b"k"), Err(Error::InvalidHmac)));
    assert_eq!(list.total, hash_block_list(&list.blocks, b"k"));
}

#[test]
fn filling_a_block_step_by_step() {
    assert_eq!(FillStep::ReadOn(3), fill_step(0, 5, ReadOutcome::Read(3)));
    assert_eq!(FillStep::Complete(5), fill_step(3, 5, ReadOutcome::Read(2)));
    assert_eq!(FillStep::Complete(3), fill_step(3, 5, ReadOutcome::Read(0)));
    assert_eq!(FillStep::Complete(0), fill_step(0, 5, ReadOutcome::Read(0)));
    assert_eq!(FillStep::ReadOn(3), fill_step(3, 5, ReadOutcome::Interrupted));
    assert_eq!(FillStep::GiveUp, fill_step(3, 5, ReadOutcome::Failed));
    assert_eq!(FillStep::GiveUp, fill_step(3, 5, ReadOutcome::Read(3)));
    assert_eq!(FillStep::GiveUp, fill_step(3, 5, ReadOutcome::Read(usize::MAX)));
    assert_eq!(FillStep::Complete(5), fill_step(5, 5, ReadOutcome::Read(1)));
    assert_eq!(FillStep::Complete(0), fill_step(0, 0, ReadOutcome::Failed));
}

#[test]
fn a_block_that_was_not_fetched_is_an_io_error() {
    let (list, mut bodies) = split(b"hello world", 5, b"k");
    bodies.pop();
    let (res, out) = join(&list, &bodies, b"k");
    match res {
        Err(Error::Io(msg)) => assert_eq!("block not fetched", msg),
        _ => panic!("expected Io"),
    }
    assert!(out.is_empty());
    bodies.push(b"d".to_vec());
    bodies.push(b"more".to_vec());
    let (res, out) = join(&list, &bodies, b"k");
    assert!(matches!(res, Err(Error::Io(_))));
    assert!(out.is_empty());
    // The total is looked at first.
    let (mut list, mut bodies) = split(b"hello world", 5, b"k");
    bodies.pop();
    list.total[0] ^= 1;
    assert!(matches!(join(&list, &bodies, b"k").0, Err(Error::InvalidHmac)));
}

#[test]
fn sealing_a_list_of_blocks() {
    let (list, _) = split(b"hello world", 5, b"k");
    let sealed = BlockList::seal(list.blocks.clone(), 11, b"k");
    assert_eq!(list.total, sealed.total);
    assert_eq!(list.blocks, sealed.blocks);
    assert_eq!(11, sealed.size);
    assert!(check_block_list(&sealed, b"k").is_ok());
}

#[test]
fn a_manifest_made_block_by_block_is_that_of_the_stream() {
    let (list, _) = split(b"hello world", 5, b"k");
    let mut blocks: Vec<HashId> = Vec::new();
    let (first, size) = add_block(&mut blocks, 0, b"hello", b"k");
    assert_eq!(hmac(b"k", b"hello"), first);
    assert_eq!(5, size);
    assert_eq!(vec![first], blocks);
    let (second, size) = add_block(&mut blocks, size, b" worl", b"k");
    assert_eq!(10, size);
    let (third, size) = add_block(&mut blocks, size, b"d", b"k");
    assert_eq!(hmac(b"k", b"d"), third);
    assert_eq!(11, size);
    assert_eq!(vec![first, second, third], blocks);
    let sealed = BlockList::seal(blocks, size, b"k");
    assert_eq!(list.total, sealed.total);
    assert_eq!(list.blocks, sealed.blocks);
    assert_eq!(list.size, sealed.size);
}

#[test]
fn a_block_is_counted_from_where_the_stream_stands() {
    let mut blocks: Vec<HashId> = vec![[7u8; 32]];
    let (id, size) = add_block(&mut blocks, u64::MAX - 3, b"abc", b"secret");
    assert_eq!(u64::MAX, size);
    assert_eq!(vec![[7u8; 32], id], blocks);
    assert_ne!(id, add_block(&mut blocks, 0, b"abc", b"other").0);
}
