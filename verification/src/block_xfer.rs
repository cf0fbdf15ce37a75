//! Splitting a byte stream into authenticated blocks, and joining them again.
//!
//! A stream is cut into blocks of at most `block_size` bytes. Each block is
//! named by its HMAC under a caller-provided secret, and the stream as a whole
//! by the HMAC of those names in order. Joining recomputes every HMAC and
//! refuses data that does not match.
//!
//! The functions here work on bytes in memory. Reading the source, storing
//! the blocks and fetching them again is left to the caller, who hands over
//! what was read and receives what is to be written. A caller who reads the
//! source piece by piece takes each block into the manifest with `add_block`
//! as it comes, and seals the manifest at the end.

use crate::defs::{append_bytes, hash_eq, hmac, hmac_sha3, FileSize, HashId};
use crate::errors::{Error, ErrorView};
use vstd::prelude::*;
use vstd::slice::slice_subrange;

verus! {

/// The manifest of a stream that was split into blocks.
#[derive(Clone, Debug)]
pub struct BlockList {
    /// The HMAC of all elements of `blocks` concatenated.
    pub total: HashId,
    /// The HMACs of the blocks, in stream order. Empty for an empty stream.
    pub blocks: Vec<HashId>,
    /// The number of bytes in the stream.
    pub size: FileSize,
}

/// The mathematical value of a `BlockList`.
pub struct BlockListView {
    pub total: Seq<u8>,
    pub blocks: Seq<Seq<u8>>,
    pub size: nat,
}

/// The byte strings held by a sequence of identifiers.
pub open spec fn hashes_view(hashes: Seq<HashId>) -> Seq<Seq<u8>> {
    hashes.map_values(|h: HashId| h@)
}

/// The byte strings held by a sequence of buffers.
pub open spec fn bodies_view(bodies: Seq<Vec<u8>>) -> Seq<Seq<u8>> {
    bodies.map_values(|b: Vec<u8>| b@)
}

impl View for BlockList {
    type V = BlockListView;

    open spec fn view(&self) -> BlockListView {
        BlockListView {
            total: self.total@,
            blocks: hashes_view(self.blocks@),
            size: self.size as nat,
        }
    }
}

/// The blocks into which `input` is cut: each holds `block_size` bytes but the
/// last, which holds what is left and at least one byte. An empty input, and a
/// block size of zero, give no block at all.
pub open spec fn split_blocks(input: Seq<u8>, block_size: nat) -> Seq<Seq<u8>>
    decreases input.len(),
{
    if input.len() == 0 || block_size == 0 {
        Seq::empty()
    } else {
        let n = if input.len() < block_size {
            input.len() as int
        } else {
            block_size as int
        };
        seq![input.take(n)] + split_blocks(input.skip(n), block_size)
    }
}

/// The HMAC of each block under `secret`.
pub open spec fn block_hashes(secret: Seq<u8>, bodies: Seq<Seq<u8>>) -> Seq<Seq<u8>> {
    bodies.map_values(|body: Seq<u8>| hmac_sha3(secret, body))
}

/// The identifier of a whole stream: the HMAC of its block identifiers,
/// concatenated in order.
pub open spec fn total_hash(secret: Seq<u8>, hashes: Seq<Seq<u8>>) -> Seq<u8> {
    hmac_sha3(secret, hashes.flatten())
}

/// The manifest of `input` when cut into blocks of `block_size` bytes and
/// authenticated under `secret`.
pub open spec fn block_list_of(input: Seq<u8>, block_size: nat, secret: Seq<u8>) -> BlockListView {
    let hashes = block_hashes(secret, split_blocks(input, block_size));
    BlockListView {
        total: total_hash(secret, hashes),
        blocks: hashes,
        size: if block_size == 0 {
            0
        } else {
            input.len()
        },
    }
}

/// Whether the recorded total of `list` is the HMAC of its block identifiers.
pub open spec fn total_matches(list: BlockListView, secret: Seq<u8>) -> bool {
    list.total == total_hash(secret, list.blocks)
}

/// Whether `body` is the content that the identifier `id` was computed from.
pub open spec fn block_matches(id: Seq<u8>, body: Seq<u8>, secret: Seq<u8>) -> bool {
    hmac_sha3(secret, body) == id
}

/// The number of leading blocks of `bodies` that match their identifier in
/// `ids`: the index of the first block that does not, or the number of
/// blocks where all do.
pub open spec fn matching_prefix(ids: Seq<Seq<u8>>, bodies: Seq<Seq<u8>>, secret: Seq<u8>) -> nat
    decreases bodies.len(),
{
    if bodies.len() == 0 || ids.len() == 0 || !block_matches(ids[0], bodies[0], secret) {
        0
    } else {
        1 + matching_prefix(ids.drop_first(), bodies.drop_first(), secret)
    }
}

/// The stream that `list` stands for when `bodies` are the contents fetched
/// for its blocks, in order: their concatenation if the total and every block
/// match, and nothing otherwise.
pub open spec fn joined(list: BlockListView, bodies: Seq<Seq<u8>>, secret: Seq<u8>) -> Option<
    Seq<u8>,
> {
    if total_matches(list, secret) && bodies.len() == list.blocks.len() && matching_prefix(
        list.blocks,
        bodies,
        secret,
    ) == bodies.len() {
        Some(bodies.flatten())
    } else {
        None
    }
}

/// The identifier of a stream whose blocks have the identifiers `blocks`.
pub fn hash_block_list(blocks: &Vec<HashId>, secret: &[u8]) -> (total: HashId)
    ensures
        total@ == total_hash(secret@, hashes_view(blocks@)),
{
    let mut flat: Vec<u8> = Vec::new();
    let mut i: usize = 0;
    while i < blocks.len()
        invariant
            i <= blocks.len(),
            flat@ == hashes_view(blocks@.take(i as int)).flatten(),
        decreases blocks.len() - i,
    {
        let ghost before = hashes_view(blocks@.take(i as int));
        append_bytes(&mut flat, &blocks[i]);
        proof {
            assert(blocks@.take(i + 1) =~= blocks@.take(i as int).push(blocks@[i as int]));
            assert(hashes_view(blocks@.take(i + 1)) =~= before.push(blocks@[i as int]@));
            before.lemma_flatten_push(blocks@[i as int]@);
        }
        i += 1;
    }
    assert(blocks@.take(blocks.len() as int) =~= blocks@);
    hmac(secret, flat.as_slice())
}

/// The manifest of the stream that the blocks `bodies` make up, in order.
pub open spec fn manifest_of(bodies: Seq<Seq<u8>>, secret: Seq<u8>) -> BlockListView {
    let hashes = block_hashes(secret, bodies);
    BlockListView {
        total: total_hash(secret, hashes),
        blocks: hashes,
        size: bodies.flatten().len(),
    }
}

/// Takes the next block of a stream into the manifest that is being made of
/// it: `blocks` holds the identifiers of the blocks before it and `size` the
/// number of their bytes. The identifier of `body` under `secret` is appended
/// to `blocks` and returned, together with the number of bytes up to the end
/// of `body`.
pub fn add_block(blocks: &mut Vec<HashId>, size: FileSize, body: &[u8], secret: &[u8]) -> (res: (
    HashId,
    FileSize,
))
    requires
        size + body@.len() <= FileSize::MAX,
    ensures
        res.0@ == hmac_sha3(secret@, body@),
        final(blocks)@ == old(blocks)@.push(res.0),
        res.1 == size + body@.len(),
{
    let id = hmac(secret, body);
    blocks.push(id);
    (id, size + body.len() as FileSize)
}

/// Cuts `input` into blocks of at most `block_size` bytes.
///
/// Each block is appended to `block_out`, in stream order, and its HMAC under
/// `secret` to the list returned; the i-th block handed out is the content of
/// the i-th identifier. No empty block is ever handed out: an empty input
/// yields no block, and so does a block size of zero.
pub fn stream_to_blocks(
    input: &[u8],
    block_out: &mut Vec<Vec<u8>>,
    block_size: usize,
    secret: &[u8],
) -> (list: BlockList)
    ensures
        list@ == block_list_of(input@, block_size as nat, secret@),
        bodies_view(final(block_out)@) == bodies_view(old(block_out)@) + split_blocks(
            input@,
            block_size as nat,
        ),
{
    let mut blocks: Vec<HashId> = Vec::new();
    let mut size: FileSize = 0;
    let mut pos: usize = 0;
    let ghost mut done: Seq<Seq<u8>> = Seq::empty();
    let end: usize = if block_size == 0 {
        0
    } else {
        input.len()
    };
    proof {
        assert(split_blocks(input@.skip(0), block_size as nat) == split_blocks(
            input@,
            block_size as nat,
        )) by {
            assert(input@.skip(0) =~= input@);
        }
        assert(bodies_view(block_out@) + done =~= bodies_view(block_out@));
        assert(hashes_view(blocks@) =~= block_hashes(secret@, done));
    }
    while pos < end
        invariant
            pos <= end <= input.len(),
            size == pos,
            block_size == 0 ==> end == 0,
            block_size > 0 ==> end == input.len(),
            done + split_blocks(input@.skip(pos as int), block_size as nat) == split_blocks(
                input@,
                block_size as nat,
            ),
            bodies_view(block_out@) == bodies_view(old(block_out)@) + done,
            hashes_view(blocks@) == block_hashes(secret@, done),
        decreases end - pos,
    {
        let left = input.len() - pos;
        let n = if left < block_size {
            left
        } else {
            block_size
        };
        let body = slice_subrange(input, pos, pos + n);
        let ghost rest = input@.skip(pos as int);
        let ghost out_before = block_out@;
        let ghost blocks_before = blocks@;
        let (id, size_now) = add_block(&mut blocks, size, body, secret);
        size = size_now;
        let owned = vstd::slice::slice_to_vec(body);
        block_out.push(owned);
        proof {
            assert(body@ =~= rest.take(n as int));
            assert(rest.skip(n as int) =~= input@.skip(pos + n));
            assert(split_blocks(rest, block_size as nat) == seq![body@] + split_blocks(
                input@.skip(pos + n),
                block_size as nat,
            ));
            assert(done.push(body@) + split_blocks(input@.skip(pos + n), block_size as nat)
                =~= done + split_blocks(rest, block_size as nat));
            assert(bodies_view(block_out@) =~= bodies_view(out_before).push(body@));
            assert(bodies_view(block_out@) =~= bodies_view(old(block_out)@) + done.push(body@));
            assert(hashes_view(blocks@) =~= hashes_view(blocks_before).push(id@));
            assert(block_hashes(secret@, done.push(body@)) =~= block_hashes(secret@, done).push(
                hmac_sha3(secret@, body@),
            ));
            done = done.push(body@);
        }
        pos += n;
    }
    proof {
        assert(split_blocks(input@.skip(pos as int), block_size as nat) =~= Seq::<
            Seq<u8>,
        >::empty());
        assert(done =~= split_blocks(input@, block_size as nat));
    }
    BlockList::seal(blocks, size, secret)
}

/// What one call of a reader reported: that it read so many bytes, none at
/// the end of the input; that it was interrupted before it read anything; or
/// that it failed.
#[derive(Clone, Copy, Debug, PartialEq, Eq, Structural)]
pub enum ReadOutcome {
    Read(usize),
    Interrupted,
    Failed,
}

/// What is to be done next with a block that is being filled: to read on
/// from an offset, to hand it out with the length it has reached, or to give
/// up. A block of length zero is the end of the stream and is not handed out.
#[derive(Clone, Copy, Debug, PartialEq, Eq, Structural)]
pub enum FillStep {
    ReadOn(usize),
    Complete(usize),
    GiveUp,
}

/// What is to be done with a block of `block_size` bytes that was filled up
/// to `off` when the reader, asked for the rest, reported `outcome`.
///
/// Nothing read means the end of the input, which completes the block as it
/// is. An interrupted read is tried again from where it stood. Any other
/// failure is fatal, and so is a reader that claims to have read more than
/// it was asked for. A block that is full already is complete whatever the
/// reader reported.
pub open spec fn next_fill_step(off: usize, block_size: usize, outcome: ReadOutcome) -> FillStep {
    if off >= block_size {
        FillStep::Complete(off)
    } else {
        match outcome {
            ReadOutcome::Read(n) => if n == 0 {
                FillStep::Complete(off)
            } else if n > block_size - off {
                FillStep::GiveUp
            } else if off + n == block_size {
                FillStep::Complete(block_size)
            } else {
                FillStep::ReadOn((off + n) as usize)
            },
            ReadOutcome::Interrupted => FillStep::ReadOn(off),
            ReadOutcome::Failed => FillStep::GiveUp,
        }
    }
}

/// Decides what is to be done with a block of `block_size` bytes that was
/// filled up to `off` when the reader, asked for the rest, reported
/// `outcome`.
pub fn fill_step(off: usize, block_size: usize, outcome: ReadOutcome) -> (step: FillStep)
    ensures
        step == next_fill_step(off, block_size, outcome),
        off < block_size ==> (step matches FillStep::ReadOn(o) ==> off <= o < block_size),
        off < block_size ==> (step matches FillStep::Complete(n) ==> off <= n <= block_size),
{
    if off >= block_size {
        return FillStep::Complete(off);
    }
    match outcome {
        ReadOutcome::Read(n) => {
            if n == 0 {
                FillStep::Complete(off)
            } else if n > block_size - off {
                FillStep::GiveUp
            } else if off + n == block_size {
                FillStep::Complete(block_size)
            } else {
                FillStep::ReadOn(off + n)
            }
        },
        ReadOutcome::Interrupted => FillStep::ReadOn(off),
        ReadOutcome::Failed => FillStep::GiveUp,
    }
}

impl BlockList {
    /// The manifest of a stream of `size` bytes whose blocks have the
    /// identifiers `blocks`.
    pub fn seal(blocks: Vec<HashId>, size: FileSize, secret: &[u8]) -> (list: BlockList)
        ensures
            list@.blocks == hashes_view(blocks@),
            list@.size == size,
            total_matches(list@, secret@),
    {
        let total = hash_block_list(&blocks, secret);
        BlockList { total, blocks, size }
    }
}

/// Checks that the total recorded in `list` is the HMAC of its block
/// identifiers under `secret`.
pub fn check_block_list(list: &BlockList, secret: &[u8]) -> (res: Result<(), Error>)
    ensures
        total_matches(list@, secret@) ==> res is Ok,
        !total_matches(list@, secret@) ==> res == Err::<(), Error>(Error::InvalidHmac),
{
    let total = hash_block_list(&list.blocks, secret);
    if hash_eq(&total, &list.total) {
        Ok(())
    } else {
        Err(Error::InvalidHmac)
    }
}

/// Checks that `body` is the content of the block named `id` under `secret`.
pub fn check_block(id: &HashId, body: &[u8], secret: &[u8]) -> (res: Result<(), Error>)
    ensures
        block_matches(id@, body@, secret@) ==> res is Ok,
        !block_matches(id@, body@, secret@) ==> res == Err::<(), Error>(Error::InvalidHmac),
{
    let actual = hmac(secret, body);
    if hash_eq(&actual, id) {
        Ok(())
    } else {
        Err(Error::InvalidHmac)
    }
}

/// Verifies the blocks of `input` and writes them to `output`.
///
/// `bodies` holds what was fetched for each identifier of `input`, in order.
/// The total is verified first: where it does not match, nothing is written.
/// Where a block was not fetched, so that there are fewer or more bodies than
/// identifiers, the call fails with an I/O error and nothing is written
/// either. Then each block is written and verified in turn, and the first one
/// that does not match ends the call: `output` then holds the blocks up to
/// and including that one, and is to be discarded.
pub fn blocks_to_stream(
    input: &BlockList,
    output: &mut Vec<u8>,
    bodies: &Vec<Vec<u8>>,
    secret: &[u8],
) -> (res: Result<(), Error>)
    ensures
        match joined(input@, bodies_view(bodies@), secret@) {
            Some(stream) => res is Ok && final(output)@ == old(output)@ + stream,
            None => res is Err,
        },
        res is Err ==> res->Err_0@ == (if total_matches(input@, secret@) && bodies.len()
            != input.blocks.len() {
            ErrorView::Io("block not fetched"@)
        } else {
            ErrorView::InvalidHmac
        }),
        !total_matches(input@, secret@) || bodies.len() != input.blocks.len() ==> final(output)@
            == old(output)@,
        total_matches(input@, secret@) && bodies.len() == input.blocks.len() && res is Err
            ==> final(output)@ == old(output)@ + bodies_view(bodies@).take(
            (matching_prefix(input@.blocks, bodies_view(bodies@), secret@) + 1) as int,
        ).flatten(),
{
    if check_block_list(input, secret).is_err() {
        return Err(Error::InvalidHmac);
    }
    if bodies.len() != input.blocks.len() {
        return Err(Error::Io("block not fetched".to_owned()));
    }
    let ghost ids = input@.blocks;
    let ghost all = bodies_view(bodies@);
    let mut i: usize = 0;
    proof {
        assert(all.take(0).flatten() =~= Seq::<u8>::empty());
        assert(ids.skip(0) =~= ids);
        assert(all.skip(0) =~= all);
    }
    while i < bodies.len()
        invariant
            i <= bodies.len(),
            bodies.len() == input.blocks.len(),
            ids == input@.blocks,
            all == bodies_view(bodies@),
            total_matches(input@, secret@),
            output@ == old(output)@ + all.take(i as int).flatten(),
            matching_prefix(ids, all, secret@) == i + matching_prefix(
                ids.skip(i as int),
                all.skip(i as int),
                secret@,
            ),
        decreases bodies.len() - i,
    {
        let body = bodies[i].as_slice();
        append_bytes(output, body);
        let checked = check_block(&input.blocks[i], body, secret);
        proof {
            assert(all[i as int] == body@);
            assert(ids[i as int] == input.blocks@[i as int]@);
            assert(all.take(i + 1) =~= all.take(i as int).push(body@));
            all.take(i as int).lemma_flatten_push(body@);
            assert(ids.skip(i as int).drop_first() =~= ids.skip(i + 1));
            assert(all.skip(i as int).drop_first() =~= all.skip(i + 1));
            assert(ids.skip(i as int)[0] == ids[i as int]);
            assert(all.skip(i as int)[0] == all[i as int]);
        }
        if checked.is_err() {
            assert(matching_prefix(ids, all, secret@) == i);
            return Err(Error::InvalidHmac);
        }
        i += 1;
    }
    proof {
        assert(all.take(i as int) =~= all);
        assert(matching_prefix(ids.skip(i as int), all.skip(i as int), secret@) == 0);
    }
    Ok(())
}

/// Splitting a stream and joining the blocks handed out gives the stream
/// back: for every input, block size of at least one and secret, the manifest
/// that splitting produces records the input's length, and joining it with
/// the blocks that splitting produced succeeds with the input.
pub proof fn lemma_block_round_trip(input: Seq<u8>, block_size: nat, secret: Seq<u8>)
    requires
        block_size >= 1,
    ensures
        block_list_of(input, block_size, secret).size == input.len(),
        joined(
            block_list_of(input, block_size, secret),
            split_blocks(input, block_size),
            secret,
        ) == Some(input),
        input.len() == 0 ==> block_list_of(input, block_size, secret).blocks.len() == 0,
{
    let bodies = split_blocks(input, block_size);
    lemma_split_flatten(input, block_size);
    lemma_own_hashes_match(bodies, secret);
}

/// A manifest whose identifiers were put into another order while its total
/// was kept is refused, whatever blocks are offered with it, unless the two
/// orders happen to have the same HMAC.
pub proof fn lemma_reordering_detected(
    list: BlockListView,
    reordered: Seq<Seq<u8>>,
    bodies: Seq<Seq<u8>>,
    secret: Seq<u8>,
)
    requires
        total_matches(list, secret),
        total_hash(secret, reordered) != total_hash(secret, list.blocks),
    ensures
        joined(BlockListView { blocks: reordered, ..list }, bodies, secret) is None,
{
}

/// A manifest made block by block is the manifest of the stream: where the
/// blocks taken in are those into which `input` is cut, what is sealed in the
/// end is the manifest of `input`.
pub proof fn lemma_block_by_block(input: Seq<u8>, block_size: nat, secret: Seq<u8>)
    requires
        block_size >= 1,
    ensures
        manifest_of(split_blocks(input, block_size), secret) == block_list_of(
            input,
            block_size,
            secret,
        ),
{
    lemma_split_flatten(input, block_size);
}

/// Taking a block into a manifest gives the manifest of the stream with that
/// block at its end: one more identifier, that of the block, and as many
/// bytes more as the block holds.
pub proof fn lemma_manifest_grows(bodies: Seq<Seq<u8>>, body: Seq<u8>, secret: Seq<u8>)
    ensures
        manifest_of(bodies.push(body), secret).blocks == manifest_of(bodies, secret).blocks.push(
            hmac_sha3(secret, body),
        ),
        manifest_of(bodies.push(body), secret).size == manifest_of(bodies, secret).size
            + body.len(),
        manifest_of(Seq::empty(), secret).blocks == Seq::<Seq<u8>>::empty(),
        manifest_of(Seq::empty(), secret).size == 0,
{
    bodies.lemma_flatten_push(body);
    assert(block_hashes(secret, bodies.push(body)) =~= block_hashes(secret, bodies).push(
        hmac_sha3(secret, body),
    ));
    assert(block_hashes(secret, Seq::empty()) =~= Seq::<Seq<u8>>::empty());
    assert(Seq::<Seq<u8>>::empty().flatten() =~= Seq::<u8>::empty());
}

/// Every block handed out by splitting is non-empty and no longer than the
/// block size, and the blocks concatenated are the input.
pub proof fn lemma_split_flatten(input: Seq<u8>, block_size: nat)
    requires
        block_size >= 1,
    ensures
        split_blocks(input, block_size).flatten() == input,
        forall|i: int|
            0 <= i < split_blocks(input, block_size).len() ==> 1 <= (#[trigger] split_blocks(
                input,
                block_size,
            )[i]).len() <= block_size,
    decreases input.len(),
{
    if input.len() > 0 {
        let n = if input.len() < block_size {
            input.len() as int
        } else {
            block_size as int
        };
        let rest = split_blocks(input.skip(n), block_size);
        lemma_split_flatten(input.skip(n), block_size);
        vstd::seq_lib::lemma_flatten_concat(seq![input.take(n)], rest);
        seq![input.take(n)].lemma_flatten_singleton();
        assert(input.take(n) + input.skip(n) =~= input);
        assert forall|i: int| 0 <= i < split_blocks(input, block_size).len() implies 1 <= (
        #[trigger] split_blocks(input, block_size)[i]).len() <= block_size by {
            if i > 0 {
                assert(split_blocks(input, block_size)[i] == rest[i - 1]);
            }
        }
    } else {
        assert(split_blocks(input, block_size).flatten() =~= input);
    }
}

/// Blocks always match the identifiers computed from them.
pub proof fn lemma_own_hashes_match(bodies: Seq<Seq<u8>>, secret: Seq<u8>)
    ensures
        matching_prefix(block_hashes(secret, bodies), bodies, secret) == bodies.len(),
    decreases bodies.len(),
{
    if bodies.len() > 0 {
        assert(block_hashes(secret, bodies).drop_first() =~= block_hashes(
            secret,
            bodies.drop_first(),
        ));
        lemma_own_hashes_match(bodies.drop_first(), secret);
    }
}

/// Joining fails as soon as the HMAC of a fetched block differs from its
/// identifier, and as soon as the HMAC of the identifiers differs from the
/// recorded total.
pub proof fn lemma_tamper_detected(
    list: BlockListView,
    bodies: Seq<Seq<u8>>,
    secret: Seq<u8>,
    i: int,
)
    requires
        bodies.len() == list.blocks.len(),
        !total_matches(list, secret) || (0 <= i < bodies.len() && !block_matches(
            list.blocks[i],
            bodies[i],
            secret,
        )),
    ensures
        joined(list, bodies, secret) is None,
{
    if total_matches(list, secret) {
        lemma_mismatch_bounds_prefix(list.blocks, bodies, secret, i);
    }
}

/// The matching prefix ends at or before any block that does not match.
pub proof fn lemma_mismatch_bounds_prefix(
    ids: Seq<Seq<u8>>,
    bodies: Seq<Seq<u8>>,
    secret: Seq<u8>,
    i: int,
)
    requires
        bodies.len() == ids.len(),
        0 <= i < bodies.len(),
        !block_matches(ids[i], bodies[i], secret),
    ensures
        matching_prefix(ids, bodies, secret) <= i,
    decreases i,
{
    if i > 0 && block_matches(ids[0], bodies[0], secret) {
        lemma_mismatch_bounds_prefix(ids.drop_first(), bodies.drop_first(), secret, i - 1);
    }
}

} // verus!
