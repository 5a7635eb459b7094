//! The snapshot format: the encoded free list and the encoded slots, each
//! behind a little-endian `u32` length, with the slot count in between.

use crate::error::VeloxGraphError;
use vstd::prelude::*;

verus! {

/// The bytes that the byte codec writes for a list of slot indices, if it
/// writes any.
pub uninterp spec fn free_list_bytes(list: Seq<usize>) -> Option<Seq<u8>>;

/// The list of integers that the byte codec reads from the start of `bytes`,
/// if it reads one.
pub uninterp spec fn free_list_parse(bytes: Seq<u8>) -> Option<Seq<u64>>;

/// Slot indices as the integers that the byte codec writes for them.
pub open spec fn wire_of(list: Seq<usize>) -> Seq<u64> {
    Seq::new(list.len(), |i: int| list[i] as u64)
}

/// `postcard::to_stdvec` on a vector of `usize`: what comes back depends on
/// the values alone, and `postcard::from_bytes` reads it back as the same
/// integers.
#[verifier::external_body]
fn postcard_encode_list(list: &Vec<usize>) -> (r: Result<Vec<u8>, postcard::Error>)
    ensures
        match r {
            Ok(bytes) => free_list_bytes(list@) == Some(bytes@) && free_list_parse(bytes@) == Some(
                wire_of(list@),
            ),
            Err(_) => free_list_bytes(list@) is None,
        },
{
    postcard::to_stdvec(list)
}

/// `postcard::from_bytes` for a vector of `u64`: what comes back depends on
/// the bytes alone. Bytes after the list are not looked at.
#[verifier::external_body]
fn postcard_decode_list(bytes: &[u8]) -> (r: Result<Vec<u64>, postcard::Error>)
    ensures
        match r {
            Ok(list) => free_list_parse(bytes@) == Some(list@),
            Err(_) => free_list_parse(bytes@) is None,
        },
{
    postcard::from_bytes(bytes)
}

/// The four bytes of `n`, least significant first.
pub open spec fn le32(n: u32) -> Seq<u8> {
    seq![
        (n % 256) as u8,
        (n / 256 % 256) as u8,
        (n / 65536 % 256) as u8,
        (n / 16777216) as u8,
    ]
}

/// The number whose four bytes, least significant first, stand at `at`.
pub open spec fn le32_at(bytes: Seq<u8>, at: int) -> u32
    recommends
        0 <= at,
        at + 4 <= bytes.len(),
{
    (bytes[at] + 256 * bytes[at + 1] + 65536 * bytes[at + 2] + 16777216 * bytes[at + 3]) as u32
}

/// A block behind its length.
pub open spec fn frame(block: Seq<u8>) -> Seq<u8> {
    le32(block.len() as u32) + block
}

/// Blocks behind their lengths, one after the other.
pub open spec fn frames(blocks: Seq<Seq<u8>>) -> Seq<u8>
    decreases blocks.len(),
{
    if blocks.len() == 0 {
        Seq::empty()
    } else {
        frame(blocks.first()) + frames(blocks.drop_first())
    }
}

/// The whole snapshot: the free-list block, the slot count, the slot blocks.
pub open spec fn snapshot_bytes(free_block: Seq<u8>, slot_blocks: Seq<Seq<u8>>) -> Seq<u8> {
    frame(free_block) + le32(slot_blocks.len() as u32) + frames(slot_blocks)
}

/// Every length that the snapshot states fits its four bytes.
pub open spec fn frameable(free_block: Seq<u8>, slot_blocks: Seq<Seq<u8>>) -> bool {
    &&& free_block.len() <= u32::MAX
    &&& slot_blocks.len() <= u32::MAX
    &&& forall|i: int| 0 <= i < slot_blocks.len() ==> (#[trigger] slot_blocks[i]).len() <= u32::MAX
}

/// The block whose frame starts at `at`, and the position behind it.
pub open spec fn parse_frame(bytes: Seq<u8>, at: int) -> Option<(Seq<u8>, int)> {
    if 0 <= at && at + 4 <= bytes.len() && at + 4 + le32_at(bytes, at) <= bytes.len() {
        Some(
            (
                bytes.subrange(at + 4, at + 4 + le32_at(bytes, at)),
                at + 4 + le32_at(bytes, at),
            ),
        )
    } else {
        None
    }
}

/// The `count` blocks whose frames start at `at`.
pub open spec fn parse_frames(bytes: Seq<u8>, at: int, count: nat) -> Option<Seq<Seq<u8>>>
    decreases count,
{
    if count == 0 {
        Some(Seq::empty())
    } else {
        match parse_frame(bytes, at) {
            Some((block, next)) => match parse_frames(bytes, next, (count - 1) as nat) {
                Some(rest) => Some(seq![block] + rest),
                None => None,
            },
            None => None,
        }
    }
}

/// The free-list block and the slot blocks of a snapshot. Bytes behind the
/// last slot block are not looked at.
pub open spec fn parse_snapshot(bytes: Seq<u8>) -> Option<(Seq<u8>, Seq<Seq<u8>>)> {
    match parse_frame(bytes, 0) {
        Some((free_block, next)) => if next + 4 <= bytes.len() {
            match parse_frames(bytes, next + 4, le32_at(bytes, next) as nat) {
                Some(slot_blocks) => Some((free_block, slot_blocks)),
                None => None,
            }
        } else {
            None
        },
        None => None,
    }
}

/// Stored blocks as plain values.
pub open spec fn block_views(blocks: Seq<Vec<u8>>) -> Seq<Seq<u8>> {
    Seq::new(blocks.len(), |i: int| blocks[i]@)
}

/// The four bytes of a number give the number back.
pub proof fn lemma_le32_round_trip(n: u32, bytes: Seq<u8>, at: int)
    requires
        0 <= at,
        at + 4 <= bytes.len(),
        bytes.subrange(at, at + 4) == le32(n),
    ensures
        le32_at(bytes, at) == n,
{
    let part = bytes.subrange(at, at + 4);
    assert(part[0] == bytes[at] && part[1] == bytes[at + 1] && part[2] == bytes[at + 2] && part[3]
        == bytes[at + 3]);
}

/// A frame that stands at `at` is read back as its block.
pub proof fn lemma_frame_round_trip(bytes: Seq<u8>, at: int, block: Seq<u8>)
    requires
        0 <= at,
        block.len() <= u32::MAX,
        at + frame(block).len() <= bytes.len(),
        bytes.subrange(at, at + frame(block).len()) == frame(block),
    ensures
        parse_frame(bytes, at) == Some((block, at + 4 + block.len())),
{
    let whole = bytes.subrange(at, at + frame(block).len());
    assert(bytes.subrange(at, at + 4) =~= whole.subrange(0, 4));
    assert(whole.subrange(0, 4) =~= le32(block.len() as u32));
    lemma_le32_round_trip(block.len() as u32, bytes, at);
    assert(bytes.subrange(at + 4, at + 4 + block.len()) =~= whole.subrange(
        4,
        4 + block.len() as int,
    ));
    assert(whole.subrange(4, 4 + block.len() as int) =~= block);
}

/// The frames of a listing with one more block at its end.
pub proof fn lemma_frames_push(blocks: Seq<Seq<u8>>, block: Seq<u8>)
    ensures
        frames(blocks.push(block)) == frames(blocks) + frame(block),
    decreases blocks.len(),
{
    let longer = blocks.push(block);
    if blocks.len() == 0 {
        assert(longer.drop_first() =~= Seq::<Seq<u8>>::empty());
        assert(longer.first() == block);
        assert(frames(longer.drop_first()) =~= Seq::<u8>::empty());
        assert(frames(longer) =~= frame(block));
        assert(frames(blocks) + frame(block) =~= frame(block));
    } else {
        assert(longer.drop_first() =~= blocks.drop_first().push(block));
        lemma_frames_push(blocks.drop_first(), block);
        assert(frames(longer) =~= frames(blocks) + frame(block));
    }
}

/// Frames that stand at `at` are read back as their blocks.
pub proof fn lemma_frames_round_trip(bytes: Seq<u8>, at: int, blocks: Seq<Seq<u8>>)
    requires
        0 <= at,
        forall|i: int| 0 <= i < blocks.len() ==> (#[trigger] blocks[i]).len() <= u32::MAX,
        at + frames(blocks).len() <= bytes.len(),
        bytes.subrange(at, at + frames(blocks).len()) == frames(blocks),
    ensures
        parse_frames(bytes, at, blocks.len()) == Some(blocks),
    decreases blocks.len(),
{
    if blocks.len() == 0 {
    } else {
        let first = blocks.first();
        let rest = blocks.drop_first();
        let whole = bytes.subrange(at, at + frames(blocks).len());
        let next = at + frame(first).len();
        assert(bytes.subrange(at, next) =~= whole.subrange(0, frame(first).len() as int));
        assert(whole.subrange(0, frame(first).len() as int) =~= frame(first));
        lemma_frame_round_trip(bytes, at, first);
        assert(bytes.subrange(next, next + frames(rest).len()) =~= whole.subrange(
            frame(first).len() as int,
            whole.len() as int,
        ));
        assert(whole.subrange(frame(first).len() as int, whole.len() as int) =~= frames(rest));
        assert forall|i: int| 0 <= i < rest.len() implies (#[trigger] rest[i]).len()
            <= u32::MAX by {
            assert(rest[i] == blocks[i + 1]);
        }
        lemma_frames_round_trip(bytes, next, rest);
        assert(seq![first] + rest =~= blocks);
    }
}

/// The middle of three sequences that were put together.
proof fn lemma_middle_of_three(a: Seq<u8>, b: Seq<u8>, c: Seq<u8>)
    ensures
        (a + b + c).len() == a.len() + b.len() + c.len(),
        (a + b + c).subrange(a.len() as int, (a.len() + b.len()) as int) == b,
{
    assert((a + b + c).subrange(a.len() as int, (a.len() + b.len()) as int) =~= b);
}

/// What was framed is read back, whatever follows it.
pub proof fn lemma_snapshot_round_trip(
    free_block: Seq<u8>,
    slot_blocks: Seq<Seq<u8>>,
    tail: Seq<u8>,
)
    requires
        frameable(free_block, slot_blocks),
    ensures
        parse_snapshot(snapshot_bytes(free_block, slot_blocks) + tail) == Some(
            (free_block, slot_blocks),
        ),
{
    let first = frame(free_block);
    let count = le32(slot_blocks.len() as u32);
    let rest = frames(slot_blocks);
    let bytes = snapshot_bytes(free_block, slot_blocks) + tail;
    let head = first.len() as int;
    assert(first.len() == 4 + free_block.len());
    assert(count.len() == 4);
    let none = Seq::<u8>::empty();
    assert(bytes =~= none + first + (count + rest + tail));
    lemma_middle_of_three(none, first, count + rest + tail);
    assert(bytes.subrange(0, head) == first);
    lemma_frame_round_trip(bytes, 0, free_block);
    assert(bytes =~= first + count + (rest + tail));
    lemma_middle_of_three(first, count, rest + tail);
    assert(bytes.subrange(head, head + 4) == count);
    lemma_le32_round_trip(slot_blocks.len() as u32, bytes, head);
    assert(bytes =~= (first + count) + rest + tail);
    lemma_middle_of_three(first + count, rest, tail);
    assert(bytes.subrange(head + 4, head + 4 + rest.len()) == rest);
    lemma_frames_round_trip(bytes, head + 4, slot_blocks);
    assert(parse_frame(bytes, 0) == Some((free_block, head)));
    assert(le32_at(bytes, head) == slot_blocks.len());
}

/// Appends the four bytes of `n`.
fn push_le32(out: &mut Vec<u8>, n: u32)
    ensures
        final(out)@ == old(out)@ + le32(n),
{
    out.push((n % 256) as u8);
    out.push((n / 256 % 256) as u8);
    out.push((n / 65536 % 256) as u8);
    out.push((n / 16777216) as u8);
    assert(out@ =~= old(out)@ + le32(n));
}

/// Reads the number whose four bytes stand at `at`.
fn read_le32(bytes: &[u8], at: usize) -> (r: u32)
    requires
        at + 4 <= bytes@.len(),
    ensures
        r == le32_at(bytes@, at as int),
{
    let b0 = bytes[at] as u32;
    let b1 = bytes[at + 1] as u32;
    let b2 = bytes[at + 2] as u32;
    let b3 = bytes[at + 3] as u32;
    b0 + 256 * b1 + 65536 * b2 + 16777216 * b3
}

/// Appends the bytes of `block`.
fn push_block(out: &mut Vec<u8>, block: &Vec<u8>)
    ensures
        final(out)@ == old(out)@ + block@,
{
    let mut i: usize = 0;
    while i < block.len()
        invariant
            i <= block@.len(),
            out@ == old(out)@ + block@.take(i as int),
        decreases block@.len() - i,
    {
        out.push(block[i]);
        assert(out@ =~= old(out)@ + block@.take(i + 1));
        i += 1;
    }
    assert(block@.take(block@.len() as int) =~= block@);
}

/// Copies the bytes from `from` up to `to`.
fn copy_range(bytes: &[u8], from: usize, to: usize) -> (r: Vec<u8>)
    requires
        from <= to <= bytes@.len(),
    ensures
        r@ == bytes@.subrange(from as int, to as int),
{
    let mut out: Vec<u8> = Vec::new();
    let mut i: usize = from;
    while i < to
        invariant
            from <= i <= to <= bytes@.len(),
            out@ == bytes@.subrange(from as int, i as int),
        decreases to - i,
    {
        out.push(bytes[i]);
        assert(out@ =~= bytes@.subrange(from as int, i + 1));
        i += 1;
    }
    out
}

/// Reads the frame that starts at `at`.
fn read_frame(bytes: &[u8], at: usize) -> (r: Option<(Vec<u8>, usize)>)
    requires
        at <= bytes@.len(),
    ensures
        match r {
            Some((block, next)) => parse_frame(bytes@, at as int) == Some((block@, next as int)),
            None => parse_frame(bytes@, at as int) is None,
        },
{
    let len = bytes.len();
    if len - at < 4 {
        return None;
    }
    let size = read_le32(bytes, at) as usize;
    if len - at - 4 < size {
        return None;
    }
    let block = copy_range(bytes, at + 4, at + 4 + size);
    Some((block, at + 4 + size))
}

/// One block behind its length, as it stands in a snapshot. A block that
/// does not fit a `u32` length is refused.
pub fn frame_block(block: &Vec<u8>) -> (r: Result<Vec<u8>, VeloxGraphError>)
    ensures
        match r {
            Ok(bytes) => block@.len() <= u32::MAX && bytes@ == frame(block@),
            Err(e) => block@.len() > u32::MAX && e is FileFail,
        },
{
    if block.len() > u32::MAX as usize {
        return Err(VeloxGraphError::FileFail("a length does not fit the snapshot".to_string()));
    }
    let mut out: Vec<u8> = Vec::new();
    push_le32(&mut out, block.len() as u32);
    push_block(&mut out, block);
    assert(out@ =~= frame(block@));
    Ok(out)
}

/// The start of a snapshot: the encoded free list behind its length, and the
/// number of slots that follow. A length or a count that does not fit a `u32`
/// is refused.
pub fn frame_header(free_block: &Vec<u8>, slot_count: usize) -> (r: Result<
    Vec<u8>,
    VeloxGraphError,
>)
    ensures
        match r {
            Ok(bytes) => free_block@.len() <= u32::MAX && slot_count <= u32::MAX && bytes@
                == frame(free_block@) + le32(slot_count as u32),
            Err(e) => (free_block@.len() > u32::MAX || slot_count > u32::MAX) && e is FileFail,
        },
{
    if slot_count > u32::MAX as usize {
        return Err(VeloxGraphError::FileFail("a length does not fit the snapshot".to_string()));
    }
    let mut out = match frame_block(free_block) {
        Ok(framed) => framed,
        Err(e) => {
            return Err(e);
        },
    };
    push_le32(&mut out, slot_count as u32);
    Ok(out)
}

/// Frames an encoded free list and the encoded slots into one snapshot: the
/// header, then each slot block behind its length. A block or a slot count
/// that does not fit its `u32` length is refused.
pub fn frame_snapshot(free_block: &Vec<u8>, slot_blocks: &Vec<Vec<u8>>) -> (r: Result<
    Vec<u8>,
    VeloxGraphError,
>)
    ensures
        match r {
            Ok(bytes) => frameable(free_block@, block_views(slot_blocks@)) && bytes@
                == snapshot_bytes(free_block@, block_views(slot_blocks@)),
            Err(e) => !frameable(free_block@, block_views(slot_blocks@)) && e is FileFail,
        },
{
    let ghost blocks = block_views(slot_blocks@);
    let mut out = match frame_header(free_block, slot_blocks.len()) {
        Ok(header) => header,
        Err(e) => {
            return Err(e);
        },
    };
    let ghost head = out@;
    let mut i: usize = 0;
    while i < slot_blocks.len()
        invariant
            i <= slot_blocks@.len(),
            blocks == block_views(slot_blocks@),
            head == frame(free_block@) + le32(blocks.len() as u32),
            out@ == head + frames(blocks.take(i as int)),
            forall|j: int| 0 <= j < i ==> (#[trigger] blocks[j]).len() <= u32::MAX,
        decreases slot_blocks@.len() - i,
    {
        match frame_block(&slot_blocks[i]) {
            Ok(framed) => {
                push_block(&mut out, &framed);
            },
            Err(e) => {
                assert(blocks[i as int].len() > u32::MAX);
                return Err(e);
            },
        }
        proof {
            lemma_frames_push(blocks.take(i as int), blocks[i as int]);
            assert(blocks.take(i + 1) =~= blocks.take(i as int).push(blocks[i as int]));
            assert(out@ =~= head + frames(blocks.take(i + 1)));
        }
        i += 1;
    }
    proof {
        assert(blocks.take(blocks.len() as int) =~= blocks);
        assert(out@ =~= snapshot_bytes(free_block@, blocks));
    }
    Ok(out)
}

/// Takes a snapshot apart into the encoded free list and the encoded slots.
/// A snapshot that ends before its last block is refused.
pub fn unframe_snapshot(bytes: &[u8]) -> (r: Result<(Vec<u8>, Vec<Vec<u8>>), VeloxGraphError>)
    ensures
        match r {
            Ok((free_block, slot_blocks)) => parse_snapshot(bytes@) == Some(
                (free_block@, block_views(slot_blocks@)),
            ),
            Err(e) => parse_snapshot(bytes@) is None && e is FileFail,
        },
{
    let (free_block, next) = match read_frame(bytes, 0) {
        Some(found) => found,
        None => {
            return Err(VeloxGraphError::FileFail("the snapshot is cut short".to_string()));
        },
    };
    if bytes.len() - next < 4 {
        return Err(VeloxGraphError::FileFail("the snapshot is cut short".to_string()));
    }
    let count = read_le32(bytes, next);
    let start = next + 4;
    let mut slot_blocks: Vec<Vec<u8>> = Vec::new();
    let mut at: usize = start;
    let mut i: u32 = 0;
    while i < count
        invariant
            i <= count,
            at <= bytes@.len(),
            4 <= start <= bytes@.len(),
            parse_frame(bytes@, 0) == Some((free_block@, start - 4)),
            count == le32_at(bytes@, start - 4),
            parse_frames(bytes@, start as int, count as nat) == match parse_frames(
                bytes@,
                at as int,
                (count - i) as nat,
            ) {
                Some(rest) => Some(block_views(slot_blocks@) + rest),
                None => None,
            },
        decreases count - i,
    {
        let ghost done = block_views(slot_blocks@);
        match read_frame(bytes, at) {
            Some((block, next)) => {
                proof {
                    let after = parse_frames(bytes@, next as int, (count - i - 1) as nat);
                    if after is Some {
                        assert(done + (seq![block@] + after->0) =~= done.push(block@) + after->0);
                    }
                }
                slot_blocks.push(block);
                assert(block_views(slot_blocks@) =~= done.push(block@));
                at = next;
            },
            None => {
                assert(parse_frames(bytes@, at as int, (count - i) as nat) is None);
                return Err(VeloxGraphError::FileFail("the snapshot is cut short".to_string()));
            },
        }
        i += 1;
    }
    assert(block_views(slot_blocks@) + Seq::<Seq<u8>>::empty() =~= block_views(slot_blocks@));
    Ok((free_block, slot_blocks))
}

/// The slot indices of a decoded free list, where each of them fits `usize`.
pub open spec fn wire_fits(wire: Seq<u64>) -> bool {
    forall|i: int| 0 <= i < wire.len() ==> #[trigger] wire[i] <= usize::MAX
}

/// A decoded free list as slot indices, unchanged in value and order.
pub open spec fn wire_indices(wire: Seq<u64>) -> Seq<usize> {
    Seq::new(wire.len(), |i: int| wire[i] as usize)
}

/// Turns a decoded free list into slot indices. An entry that does not fit
/// `usize` is an overflow.
pub fn free_list_from_wire(wire: &Vec<u64>) -> (r: Result<Vec<usize>, VeloxGraphError>)
    ensures
        match r {
            Ok(list) => wire_fits(wire@) && list@ == wire_indices(wire@),
            Err(e) => !wire_fits(wire@) && e == VeloxGraphError::Overflow,
        },
{
    let mut list: Vec<usize> = Vec::new();
    let mut i: usize = 0;
    while i < wire.len()
        invariant
            i <= wire@.len(),
            list@ == wire_indices(wire@).take(i as int),
            forall|j: int| 0 <= j < i ==> #[trigger] wire@[j] <= usize::MAX,
        decreases wire@.len() - i,
    {
        let entry = wire[i];
        if entry > usize::MAX as u64 {
            return Err(VeloxGraphError::Overflow);
        }
        list.push(entry as usize);
        assert(list@ =~= wire_indices(wire@).take(i + 1));
        i += 1;
    }
    assert(wire_indices(wire@).take(wire@.len() as int) =~= wire_indices(wire@));
    Ok(list)
}

/// Encodes the start of a snapshot: the free list goes through the byte
/// codec and is framed together with the number of slots that follow.
pub fn encode_header(empty_slots: &Vec<usize>, slot_count: usize) -> (r: Result<
    Vec<u8>,
    VeloxGraphError,
>)
    ensures
        match free_list_bytes(empty_slots@) {
            Some(free_block) => match r {
                Ok(bytes) => free_block.len() <= u32::MAX && slot_count <= u32::MAX && bytes@
                    == frame(free_block) + le32(slot_count as u32),
                Err(e) => (free_block.len() > u32::MAX || slot_count > u32::MAX) && e is FileFail,
            },
            None => r is Err && r->Err_0 is PostcardError,
        },
{
    match postcard_encode_list(empty_slots) {
        Ok(free_block) => frame_header(&free_block, slot_count),
        Err(e) => Err(VeloxGraphError::PostcardError(e)),
    }
}

/// `bytes` is a snapshot that holds this free list and these slot blocks.
pub open spec fn reads_back(
    bytes: Seq<u8>,
    free_list: Seq<usize>,
    slot_blocks: Seq<Seq<u8>>,
) -> bool {
    &&& parse_snapshot(bytes) matches Some((free_block, parsed))
    &&& parsed == slot_blocks
    &&& free_list_parse(free_block) matches Some(wire)
    &&& wire_fits(wire)
    &&& wire_indices(wire) == free_list
}

/// Encodes a snapshot: the free list goes through the byte codec, then it
/// and the encoded slots are framed. What comes out is a snapshot that
/// `decode_snapshot` reads back as the same free list and the same blocks.
pub fn encode_snapshot(empty_slots: &Vec<usize>, slot_blocks: &Vec<Vec<u8>>) -> (r: Result<
    Vec<u8>,
    VeloxGraphError,
>)
    ensures
        match free_list_bytes(empty_slots@) {
            Some(free_block) => match r {
                Ok(bytes) => frameable(free_block, block_views(slot_blocks@)) && bytes@
                    == snapshot_bytes(free_block, block_views(slot_blocks@)),
                Err(e) => !frameable(free_block, block_views(slot_blocks@)) && e is FileFail,
            },
            None => r is Err && r->Err_0 is PostcardError,
        },
        r matches Ok(bytes) ==> reads_back(bytes@, empty_slots@, block_views(slot_blocks@)),
{
    match postcard_encode_list(empty_slots) {
        Ok(free_block) => {
            let r = frame_snapshot(&free_block, slot_blocks);
            proof {
                if r is Ok {
                    let bytes = r->Ok_0@;
                    lemma_snapshot_round_trip(
                        free_block@,
                        block_views(slot_blocks@),
                        Seq::empty(),
                    );
                    assert(bytes + Seq::<u8>::empty() =~= bytes);
                    assert(wire_indices(wire_of(empty_slots@)) =~= empty_slots@);
                }
            }
            r
        },
        Err(e) => Err(VeloxGraphError::PostcardError(e)),
    }
}

/// Decodes a snapshot into the free list and the encoded slots: the frames
/// are taken apart, the free list goes through the byte codec, and its
/// entries are checked against `usize`.
pub fn decode_snapshot(bytes: &[u8]) -> (r: Result<(Vec<usize>, Vec<Vec<u8>>), VeloxGraphError>)
    ensures
        match r {
            Ok((empty_slots, slot_blocks)) => reads_back(
                bytes@,
                empty_slots@,
                block_views(slot_blocks@),
            ),
            Err(e) => match parse_snapshot(bytes@) {
                Some((free_block, _)) => match free_list_parse(free_block) {
                    Some(wire) => !wire_fits(wire) && e == VeloxGraphError::Overflow,
                    None => e is PostcardError,
                },
                None => e is FileFail,
            },
        },
{
    let (free_block, slot_blocks) = match unframe_snapshot(bytes) {
        Ok(parts) => parts,
        Err(e) => {
            return Err(e);
        },
    };
    let wire = match postcard_decode_list(free_block.as_slice()) {
        Ok(wire) => wire,
        Err(e) => {
            return Err(VeloxGraphError::PostcardError(e));
        },
    };
    match free_list_from_wire(&wire) {
        Ok(empty_slots) => Ok((empty_slots, slot_blocks)),
        Err(e) => Err(e),
    }
}

} // verus!
