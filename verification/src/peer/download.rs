//! How one piece is downloaded: which blocks are asked for, and how the piece is
//! put together from them.

use vstd::prelude::*;

use super::codec::MAX;
use super::message::{Message, MessageTag, MessageView};
use crate::buffer::{
    be32, be32_bytes, bytes_eq, get_u32, law_be32_round_trip, law_low32, low32, put_u32,
    usize_low32,
};
use crate::digest::{sha1, sha1_digest};
use crate::torrent::{Hashes, Info, InfoView};

verus! {

/// The largest number of bytes asked for at once: 16 KiB.
pub const BLOCK_MAX_SIZE: usize = 16384;

/// How many requests are made ready ahead of being sent, to avoid a delay between
/// blocks.
pub const PIPELINED_REQUESTS: usize = 5;

/// A piece that is being downloaded.
#[derive(Debug)]
pub struct PieceDownload {
    piece: usize,
    piece_len: usize,
    next_block: usize,
    blocks: Vec<Vec<u8>>,
    received: usize,
}

/// What is known of a piece that is being downloaded.
#[verifier::ext_equal]
pub struct PieceDownloadView {
    /// The index of the piece.
    pub piece: nat,
    /// How many bytes it has.
    pub piece_len: nat,
    /// The first block that has not been asked for.
    pub next_block: nat,
    /// What has been received of each block.
    pub blocks: Seq<Seq<u8>>,
    /// How many blocks have been received.
    pub received: nat,
}

impl View for PieceDownload {
    type V = PieceDownloadView;

    closed spec fn view(&self) -> PieceDownloadView {
        PieceDownloadView {
            piece: self.piece as nat,
            piece_len: self.piece_len as nat,
            next_block: self.next_block as nat,
            blocks: block_views(self.blocks@),
            received: self.received as nat,
        }
    }
}

/// The bytes of some blocks.
spec fn block_views(blocks: Seq<Vec<u8>>) -> Seq<Seq<u8>> {
    Seq::new(blocks.len(), |i: int| blocks[i]@)
}

/// Why a piece is not downloaded.
#[derive(Debug, Clone, Copy, PartialEq, Eq, Structural)]
pub enum DownloadError {
    /// The index of the piece is too large.
    PieceOutOfRange { max: usize },
    /// A block of another piece came.
    WrongPiece { expected: u32, found: u32 },
    /// A block came that lies behind the end of the piece.
    BlockOutOfRange { block: usize, count: usize },
    /// The torrent has no hash for the piece.
    NoHash { piece: usize },
    /// The data does not have the hash that the torrent gives.
    HashMismatch,
}

/// How many bytes a piece has. The last one has what is left over after the others.
pub open spec fn piece_len(info: InfoView, piece: nat) -> nat {
    if piece + 1 == info.hashes.len() && info.length % info.piece_length != 0 {
        info.length % info.piece_length
    } else {
        info.piece_length
    }
}

/// How many blocks a piece of the given length has.
pub open spec fn blocks_count(piece_len: nat) -> nat {
    (piece_len + (BLOCK_MAX_SIZE - 1) as nat) / BLOCK_MAX_SIZE as nat
}

/// Where a block begins in its piece.
pub open spec fn block_begin(block: nat) -> nat {
    block * BLOCK_MAX_SIZE as nat
}

/// How many bytes a block has: as many as allowed, or as many as there are.
pub open spec fn block_len(piece_len: nat, block: nat) -> nat {
    if block_begin(block) + BLOCK_MAX_SIZE <= piece_len {
        BLOCK_MAX_SIZE as nat
    } else {
        (piece_len - block_begin(block)) as nat
    }
}

/// The message that asks for a block: the index of the piece, where the block
/// begins and how long it is.
pub open spec fn request(piece: nat, piece_len: nat, block: nat) -> MessageView {
    MessageView {
        tag: MessageTag::Request,
        payload: be32_bytes(low32(piece as int)) + be32_bytes(low32(block_begin(block) as int))
            + be32_bytes(block_len(piece_len, block) as u32),
    }
}

/// A piece of which nothing has been asked for or received.
pub open spec fn begun(piece: nat, piece_len: nat) -> PieceDownloadView {
    PieceDownloadView {
        piece,
        piece_len,
        next_block: 0,
        blocks: Seq::new(blocks_count(piece_len), |i: int| Seq::<u8>::empty()),
        received: 0,
    }
}

/// The block that a message with the given payload brings.
pub open spec fn block_of(payload: Seq<u8>) -> int {
    be32(payload.skip(4)) / BLOCK_MAX_SIZE as int
}

/// What is wrong with the payload of a message that brings a block, if anything is.
pub open spec fn block_error(download: PieceDownloadView, payload: Seq<u8>) -> Option<
    DownloadError,
> {
    if be32(payload) != low32(download.piece as int) {
        Some(
            DownloadError::WrongPiece {
                expected: low32(download.piece as int),
                found: be32(payload) as u32,
            },
        )
    } else if block_of(payload) >= download.blocks.len() {
        Some(
            DownloadError::BlockOutOfRange {
                block: block_of(payload) as usize,
                count: download.blocks.len() as usize,
            },
        )
    } else {
        None
    }
}

/// The piece after a block has come: the data stands behind what was there of the
/// block before.
pub open spec fn after_block(download: PieceDownloadView, payload: Seq<u8>) -> PieceDownloadView {
    let block = block_of(payload);
    PieceDownloadView {
        blocks: download.blocks.update(block, download.blocks[block] + payload.skip(8)),
        received: download.received + 1,
        ..download
    }
}

/// The bytes of some blocks, one after the other.
pub open spec fn joined(blocks: Seq<Seq<u8>>) -> Seq<u8>
    decreases blocks.len(),
{
    if blocks.len() == 0 {
        seq![]
    } else {
        joined(blocks.drop_last()) + blocks.last()
    }
}

/// Whether as many blocks have come as the piece has.
pub open spec fn is_complete(download: PieceDownloadView) -> bool {
    download.blocks.len() > 0 && download.received == download.blocks.len()
}

/// Every block begins within its piece. All blocks but the last are as long as
/// allowed.
proof fn lemma_block(piece_len: nat, block: nat)
    requires
        block < blocks_count(piece_len),
    ensures
        block_begin(block) < piece_len,
        0 < block_len(piece_len, block) <= BLOCK_MAX_SIZE,
        block + 1 < blocks_count(piece_len) ==> block_len(piece_len, block) == BLOCK_MAX_SIZE
            && block_begin(block) + BLOCK_MAX_SIZE == block_begin(block + 1),
        block + 1 == blocks_count(piece_len) ==> block_begin(block) + block_len(piece_len, block)
            == piece_len && block_len(piece_len, block) == if piece_len % BLOCK_MAX_SIZE as nat
            == 0 {
            BLOCK_MAX_SIZE as nat
        } else {
            piece_len % BLOCK_MAX_SIZE as nat
        },
{
}

impl PieceDownload {
    /// Whether the blocks are those of the piece, and no more of them have been
    /// asked for or received than there are.
    pub open spec fn wf(&self) -> bool {
        &&& self@.blocks.len() == blocks_count(self@.piece_len)
        &&& self@.next_block <= self@.blocks.len()
        &&& self@.received <= self@.blocks.len()
        &&& self@.piece <= usize::MAX
        &&& self@.piece_len + BLOCK_MAX_SIZE - 1 <= usize::MAX
    }

    /// Begins the download of a piece.
    pub fn new(piece: usize, info: &Info) -> (r: Result<Self, DownloadError>)
        requires
            info@.hashes.len() > 0 || piece > 0,
            piece + 1 == info@.hashes.len() ==> info@.piece_length > 0,
            piece <= info@.hashes.len() ==> piece_len(info@, piece as nat) + BLOCK_MAX_SIZE - 1
                <= usize::MAX,
        ensures
            r is Ok <==> piece <= info@.hashes.len(),
            r matches Err(e) ==> e == (DownloadError::PieceOutOfRange {
                max: info@.hashes.len() as usize,
            }),
            r matches Ok(download) ==> download.wf() && download@ == begun(
                piece as nat,
                piece_len(info@, piece as nat),
            ),
    {
        let pieces_count: usize = info.hashes.len();
        if piece > pieces_count {
            return Err(DownloadError::PieceOutOfRange { max: pieces_count });
        }
        let piece_len: usize = if piece == pieces_count - 1 {
            let md: usize = info.length % info.piece_length;
            if md == 0 {
                info.piece_length
            } else {
                md
            }
        } else {
            info.piece_length
        };
        let blocks_count: usize = (piece_len + (BLOCK_MAX_SIZE - 1)) / BLOCK_MAX_SIZE;
        let mut blocks: Vec<Vec<u8>> = Vec::new();
        let mut i: usize = 0;
        while i < blocks_count
            invariant
                i <= blocks_count,
                blocks@.len() == i,
                forall|j: int| 0 <= j < i ==> (#[trigger] blocks@[j])@ == Seq::<u8>::empty(),
            decreases blocks_count - i,
        {
            blocks.push(Vec::new());
            i = i + 1;
        }
        let r = PieceDownload { piece, piece_len, next_block: 0, blocks, received: 0 };
        assert(r@ =~= begun(piece as nat, piece_len as nat)) by {
            assert(r@.blocks =~= begun(piece as nat, piece_len as nat).blocks);
        }
        Ok(r)
    }

    /// The next request to send, if a block is left to ask for.
    pub fn next_request(&mut self) -> (r: Option<Message>)
        requires
            old(self).wf(),
        ensures
            final(self).wf(),
            if old(self)@.next_block < old(self)@.blocks.len() {
                &&& r matches Some(m)
                &&& m@ == request(old(self)@.piece, old(self)@.piece_len, old(self)@.next_block)
                &&& final(self)@ == (PieceDownloadView {
                    next_block: old(self)@.next_block + 1,
                    ..old(self)@
                })
            } else {
                &&& r is None
                &&& final(self)@ == old(self)@
            },
    {
        let blocks_count: usize = self.blocks.len();
        if self.next_block >= blocks_count {
            return None;
        }
        let block: usize = self.next_block;
        proof {
            lemma_block(self@.piece_len, block as nat);
        }
        let begin: usize = block * BLOCK_MAX_SIZE;
        let len: usize = if block == blocks_count - 1 {
            let md: usize = self.piece_len % BLOCK_MAX_SIZE;
            if md == 0 {
                BLOCK_MAX_SIZE
            } else {
                md
            }
        } else {
            BLOCK_MAX_SIZE
        };
        let mut payload: Vec<u8> = Vec::new();
        put_u32(&mut payload, usize_low32(self.piece));
        put_u32(&mut payload, usize_low32(begin));
        put_u32(&mut payload, len as u32);
        self.next_block = block + 1;
        let message = Message { tag: MessageTag::Request, payload };
        assert(message@.payload =~= request(
            old(self)@.piece,
            old(self)@.piece_len,
            old(self)@.next_block,
        ).payload);
        Some(message)
    }

    /// Takes a message from the peer, and says whether the last block has come.
    /// Messages that do not bring a block are passed over.
    pub fn receive(&mut self, message: &Message) -> (r: Result<bool, DownloadError>)
        requires
            old(self).wf(),
            !is_complete(old(self)@),
            message@.tag == MessageTag::Piece ==> message@.payload.len() >= 8,
        ensures
            final(self).wf(),
            if message@.tag != MessageTag::Piece {
                &&& r == Ok::<bool, DownloadError>(false)
                &&& final(self)@ == old(self)@
            } else {
                match block_error(old(self)@, message@.payload) {
                    Some(e) => {
                        &&& r == Err::<bool, DownloadError>(e)
                        &&& final(self)@ == old(self)@
                    },
                    None => {
                        &&& final(self)@ == after_block(old(self)@, message@.payload)
                        &&& r == Ok::<bool, DownloadError>(is_complete(final(self)@))
                    },
                }
            },
    {
        if message.tag != MessageTag::Piece {
            return Ok(false);
        }
        let ghost payload = message@.payload;
        let mut rest: &[u8] = message.payload.as_slice();
        let ret_piece: u32 = get_u32(&mut rest);
        let ret_begin: u32 = get_u32(&mut rest);
        assert(rest@ =~= payload.skip(8));
        assert(self@.blocks.len() == self.blocks@.len());
        let expected: u32 = usize_low32(self.piece);
        if expected != ret_piece {
            return Err(DownloadError::WrongPiece { expected, found: ret_piece });
        }
        let block: usize = (ret_begin / BLOCK_MAX_SIZE as u32) as usize;
        let count: usize = self.blocks.len();
        if block >= count {
            return Err(DownloadError::BlockOutOfRange { block, count });
        }
        self.blocks[block].extend_from_slice(rest);
        self.received = self.received + 1;
        assert(self.blocks@[block as int]@ =~= old(self).blocks@[block as int]@ + payload.skip(8));
        assert(block == block_of(payload));
        assert(self@.blocks =~= after_block(old(self)@, payload).blocks);
        Ok(self.received == count)
    }

    /// The data of the piece, if it has the hash that the torrent gives.
    pub fn finish(self, hashes: &Hashes) -> (r: Result<Vec<u8>, DownloadError>)
        ensures
            if self@.piece >= hashes@.len() {
                r == Err::<Vec<u8>, DownloadError>(
                    DownloadError::NoHash { piece: self@.piece as usize },
                )
            } else if sha1_digest(joined(self@.blocks)) != hashes@[self@.piece as int] {
                r == Err::<Vec<u8>, DownloadError>(DownloadError::HashMismatch)
            } else {
                r matches Ok(data) && data@ == joined(self@.blocks)
            },
    {
        let mut data: Vec<u8> = Vec::new();
        let mut i: usize = 0;
        while i < self.blocks.len()
            invariant
                i <= self.blocks@.len(),
                data@ == joined(self@.blocks.take(i as int)),
            decreases self.blocks.len() - i,
        {
            data.extend_from_slice(self.blocks[i].as_slice());
            assert(self@.blocks.take(i + 1).drop_last() =~= self@.blocks.take(i as int));
            assert(self@.blocks.take(i + 1).last() == self.blocks@[i as int]@);
            i = i + 1;
        }
        assert(self@.blocks.take(i as int) =~= self@.blocks);
        let expected_hash = match hashes.get(self.piece) {
            None => {
                return Err(DownloadError::NoHash { piece: self.piece });
            },
            Some(hash) => hash,
        };
        let computed_hash = sha1(data.as_slice());
        if !bytes_eq(expected_hash.as_slice(), computed_hash.as_slice()) {
            return Err(DownloadError::HashMismatch);
        }
        Ok(data)
    }
}

/// The blocks of a piece follow each other without gap or overlap, from its first
/// byte to its last. None is empty, and none is longer than allowed.
pub proof fn law_blocks_tile_the_piece(piece_len: nat, block: nat)
    requires
        block < blocks_count(piece_len),
    ensures
        block_begin(0) == 0,
        0 < block_len(piece_len, block) <= BLOCK_MAX_SIZE,
        block_begin(block) + block_len(piece_len, block) == if block + 1 < blocks_count(piece_len) {
            block_begin(block + 1)
        } else {
            piece_len
        },
{
    lemma_block(piece_len, block);
}

/// The pieces of a file follow each other without gap or overlap, from its first
/// byte to its last, where there are as many pieces as it takes to hold the file.
pub proof fn law_pieces_tile_the_file(info: InfoView, piece: nat)
    requires
        info.piece_length > 0,
        piece < info.hashes.len(),
        (info.hashes.len() - 1) * info.piece_length < info.length <= info.hashes.len()
            * info.piece_length,
    ensures
        0 < piece_len(info, piece) <= info.piece_length,
        piece * info.piece_length + piece_len(info, piece) == if piece + 1 < info.hashes.len() {
            (piece + 1) * info.piece_length
        } else {
            info.length
        },
{
    let l = info.piece_length as int;
    assert((piece + 1) * l == piece * l + l) by (nonlinear_arith);
    if piece + 1 == info.hashes.len() {
        let rest = info.length - piece * l;
        assert(info.hashes.len() * l == (piece + 1) * l);
        assert((info.hashes.len() - 1) * l == piece * l);
        assert(0 < rest <= l);
        vstd::arithmetic::div_mod::lemma_mod_multiples_vanish(piece as int, rest, l);
        assert(info.length as int % l == rest % l) by {
            assert(l * piece + rest == info.length) by (nonlinear_arith)
                requires
                    rest == info.length - piece * l,
            ;
        }
        if rest < l {
            vstd::arithmetic::div_mod::lemma_small_mod(rest as nat, l as nat);
        } else {
            vstd::arithmetic::div_mod::lemma_mod_self_0(l);
        }
    }
}

/// A request, and the message that brings a block, fit into a frame.
pub proof fn law_blocks_fit_a_frame(piece: nat, piece_len: nat, block: nat)
    requires
        block < blocks_count(piece_len),
    ensures
        request(piece, piece_len, block).payload.len() == 12,
        request(piece, piece_len, block).payload.len() + 1 <= MAX,
        8 + block_len(piece_len, block) + 1 <= MAX,
{
    lemma_block(piece_len, block);
}

/// What a request says can be read back from it: the piece, where the block begins
/// and how long it is.
pub proof fn law_request_round_trip(piece: nat, piece_len: nat, block: nat)
    requires
        block < blocks_count(piece_len),
    ensures
        be32(request(piece, piece_len, block).payload) == low32(piece as int),
        be32(request(piece, piece_len, block).payload.skip(4)) == low32(
            block_begin(block) as int,
        ),
        be32(request(piece, piece_len, block).payload.skip(8)) == block_len(piece_len, block),
{
    lemma_block(piece_len, block);
    law_be32_round_trip(low32(piece as int));
    law_be32_round_trip(low32(block_begin(block) as int));
    law_be32_round_trip(block_len(piece_len, block) as u32);
    let payload = request(piece, piece_len, block).payload;
    let a = be32_bytes(low32(piece as int));
    let b = be32_bytes(low32(block_begin(block) as int));
    let c = be32_bytes(block_len(piece_len, block) as u32);
    assert(payload =~= a + b + c);
    assert(payload.skip(4) =~= b + c);
    assert(payload.skip(8) =~= c);
}

/// The bytes of a block of a piece.
pub open spec fn block_data(data: Seq<u8>, block: nat) -> Seq<u8> {
    data.subrange(
        block_begin(block) as int,
        (block_begin(block) + block_len(data.len(), block)) as int,
    )
}

/// The payload of the message that brings a block of a piece.
pub open spec fn block_payload(piece: nat, data: Seq<u8>, block: nat) -> Seq<u8> {
    be32_bytes(low32(piece as int)) + be32_bytes(low32(block_begin(block) as int)) + block_data(
        data,
        block,
    )
}

/// The download after some blocks of a piece have come, one after the other.
pub open spec fn after_blocks(piece: nat, data: Seq<u8>, order: Seq<nat>) -> PieceDownloadView
    decreases order.len(),
{
    if order.len() == 0 {
        begun(piece, data.len())
    } else {
        after_block(
            after_blocks(piece, data, order.drop_last()),
            block_payload(piece, data, order.last()),
        )
    }
}

/// Whether `order` names blocks of a piece, and none of them twice.
pub open spec fn names_blocks(order: Seq<nat>, piece_len: nat) -> bool {
    &&& order.no_duplicates()
    &&& forall|i: int| 0 <= i < order.len() ==> (#[trigger] order[i]) < blocks_count(piece_len)
}

/// A block of a piece is taken for what it is.
proof fn lemma_block_payload(piece: nat, data: Seq<u8>, block: nat)
    requires
        data.len() <= 0x1_0000_0000,
        block < blocks_count(data.len()),
    ensures
        be32(block_payload(piece, data, block)) == low32(piece as int),
        block_of(block_payload(piece, data, block)) == block,
        block_payload(piece, data, block).skip(8) == block_data(data, block),
{
    lemma_block(data.len(), block);
    let a = be32_bytes(low32(piece as int));
    let b = be32_bytes(low32(block_begin(block) as int));
    let payload = block_payload(piece, data, block);
    law_be32_round_trip(low32(piece as int));
    law_be32_round_trip(low32(block_begin(block) as int));
    assert(payload =~= a + b + block_data(data, block));
    assert(payload.skip(4) =~= b + block_data(data, block));
    assert(payload.skip(8) =~= block_data(data, block));
    assert(block_begin(block) <= u32::MAX);
    assert(be32(payload.skip(4)) == block_begin(block));
}

/// What has been received after some blocks of a piece have come: these blocks, and
/// nothing of the others.
proof fn lemma_after_blocks(piece: nat, data: Seq<u8>, order: Seq<nat>)
    requires
        data.len() <= 0x1_0000_0000,
        names_blocks(order, data.len()),
    ensures
        after_blocks(piece, data, order).piece == piece,
        after_blocks(piece, data, order).received == order.len(),
        after_blocks(piece, data, order).blocks.len() == blocks_count(data.len()),
        forall|b: nat|
            b < blocks_count(data.len()) ==> #[trigger] after_blocks(
                piece,
                data,
                order,
            ).blocks[b as int] == if order.contains(b) {
                block_data(data, b)
            } else {
                seq![]
            },
    decreases order.len(),
{
    if order.len() > 0 {
        let before = order.drop_last();
        let last = order.last();
        assert(last == order[order.len() - 1]);
        assert forall|i: int| 0 <= i < before.len() implies (#[trigger] before[i]) < blocks_count(
            data.len(),
        ) by {
            assert(before[i] == order[i]);
        }
        lemma_after_blocks(piece, data, before);
        lemma_block_payload(piece, data, last);
        assert(!before.contains(last));
        assert forall|b: nat| b < blocks_count(data.len()) implies #[trigger] after_blocks(
            piece,
            data,
            order,
        ).blocks[b as int] == if order.contains(b) {
            block_data(data, b)
        } else {
            seq![]
        } by {
            let was = after_blocks(piece, data, before).blocks[b as int];
            if before.contains(b) {
                let i = choose|i: int| 0 <= i < before.len() && before[i] == b;
                assert(order[i] == b);
            }
            if order.contains(b) && b != last {
                let i = choose|i: int| 0 <= i < order.len() && order[i] == b;
                assert(before[i] == b);
            }
            if b == last {
                assert(order[order.len() - 1] == b);
                assert(was + block_data(data, b) =~= block_data(data, b));
            }
        }
    }
}

/// The blocks of a piece, one after the other, are the piece.
proof fn lemma_joined(data: Seq<u8>, blocks: Seq<Seq<u8>>)
    requires
        blocks.len() <= blocks_count(data.len()),
        forall|b: nat| b < blocks.len() ==> #[trigger] blocks[b as int] == block_data(data, b),
    ensures
        joined(blocks) == data.take(
            if blocks.len() < blocks_count(data.len()) {
                block_begin(blocks.len()) as int
            } else {
                data.len() as int
            },
        ),
    decreases blocks.len(),
{
    if blocks.len() > 0 {
        let last = (blocks.len() - 1) as nat;
        let before = blocks.drop_last();
        assert forall|b: nat| b < before.len() implies #[trigger] before[b as int] == block_data(
            data,
            b,
        ) by {
            assert(blocks[b as int] == block_data(data, b));
        }
        lemma_joined(data, before);
        lemma_block(data.len(), last);
        assert(blocks[last as int] == block_data(data, last));
        assert(data.take(block_begin(last) as int) + block_data(data, last) =~= data.take(
            (block_begin(last) + block_len(data.len(), last)) as int,
        ));
    } else {
        assert(joined(blocks) =~= data.take(0));
    }
}

/// The blocks of a piece may come in any order: each is taken, the download is
/// complete once all have come, and what is put together is the piece. The piece is
/// at most 4 GiB long, as the message that brings a block has 32 bits to say where
/// it begins.
pub proof fn law_blocks_in_any_order(piece: nat, data: Seq<u8>, order: Seq<nat>)
    requires
        0 < data.len() <= 0x1_0000_0000,
        names_blocks(order, data.len()),
    ensures
        forall|b: nat|
            b < blocks_count(data.len()) ==> block_error(
                after_blocks(piece, data, order),
                #[trigger] block_payload(piece, data, b),
            ) is None,
        is_complete(after_blocks(piece, data, order)) <==> order.len() == blocks_count(data.len()),
        order.len() == blocks_count(data.len()) ==> joined(
            after_blocks(piece, data, order).blocks,
        ) == data,
{
    let download = after_blocks(piece, data, order);
    let count = blocks_count(data.len());
    lemma_after_blocks(piece, data, order);
    assert forall|b: nat| b < count implies block_error(
        download,
        #[trigger] block_payload(piece, data, b),
    ) is None by {
        lemma_block_payload(piece, data, b);
    }
    if order.len() == count {
        lemma_names_all(order, count);
        assert forall|b: nat| b < download.blocks.len() implies #[trigger] download.blocks[b as int]
            == block_data(data, b) by {
            assert(order.contains(b));
        }
        lemma_joined(data, download.blocks);
        assert(data.take(data.len() as int) =~= data);
    }
}

/// As many different numbers below a bound as the bound allows are all of them.
proof fn lemma_names_all(order: Seq<nat>, count: nat)
    requires
        order.no_duplicates(),
        order.len() == count,
        forall|i: int| 0 <= i < order.len() ==> (#[trigger] order[i]) < count,
    ensures
        forall|b: nat| b < count ==> #[trigger] order.contains(b),
{
    let named = order.map_values(|b: nat| b as int);
    assert(named.no_duplicates());
    named.unique_seq_to_set();
    let all = vstd::set_lib::set_int_range(0, count as int);
    vstd::set_lib::lemma_int_range(0, count as int);
    assert(named.to_set().subset_of(all));
    vstd::set_lib::lemma_subset_equality(named.to_set(), all);
    assert forall|b: nat| b < count implies #[trigger] order.contains(b) by {
        assert(all.contains(b as int));
        assert(named.contains(b as int));
        let i = choose|i: int| 0 <= i < named.len() && named[i] == b as int;
        assert(order[i] == b);
    }
}

/// The bytes of a piece of a file.
pub open spec fn piece_data(info: InfoView, file: Seq<u8>, piece: nat) -> Seq<u8> {
    file.subrange(
        (piece * info.piece_length) as int,
        (piece * info.piece_length + piece_len(info, piece)) as int,
    )
}

/// The first pieces of a file, one after the other, are the beginning of the file.
proof fn lemma_joined_pieces(info: InfoView, file: Seq<u8>, count: nat)
    requires
        info.piece_length > 0,
        info.hashes.len() > 0,
        (info.hashes.len() - 1) * info.piece_length < info.length <= info.hashes.len()
            * info.piece_length,
        file.len() == info.length,
        count <= info.hashes.len(),
    ensures
        joined(Seq::new(count, |i: int| piece_data(info, file, i as nat))) == file.take(
            if count < info.hashes.len() {
                (count * info.piece_length) as int
            } else {
                file.len() as int
            },
        ),
    decreases count,
{
    let pieces = Seq::new(count, |i: int| piece_data(info, file, i as nat));
    if count == 0 {
        assert(count * info.piece_length == 0) by (nonlinear_arith)
            requires
                count == 0,
        ;
        assert(joined(pieces) =~= file.take(0));
    } else {
        let last = (count - 1) as nat;
        lemma_joined_pieces(info, file, last);
        assert(pieces.drop_last() =~= Seq::new(last, |i: int| piece_data(info, file, i as nat)));
        law_pieces_tile_the_file(info, last);
        let begin = (last * info.piece_length) as int;
        let end = begin + piece_len(info, last);
        assert(0 <= begin) by (nonlinear_arith)
            requires
                begin == last * info.piece_length,
        ;
        assert(end <= file.len()) by {
            if count < info.hashes.len() {
                assert(count * info.piece_length <= (info.hashes.len() - 1) * info.piece_length)
                    by (nonlinear_arith)
                    requires
                        count <= info.hashes.len() - 1,
                ;
            }
        }
        assert(pieces.last() == file.subrange(begin, end));
        assert(file.take(begin) + file.subrange(begin, end) =~= file.take(end));
    }
}

/// The pieces of a file, put one after the other in their order, are the file, where
/// there are as many pieces as it takes to hold it.
pub proof fn law_pieces_make_up_the_file(info: InfoView, file: Seq<u8>)
    requires
        info.piece_length > 0,
        info.hashes.len() > 0,
        (info.hashes.len() - 1) * info.piece_length < info.length <= info.hashes.len()
            * info.piece_length,
        file.len() == info.length,
    ensures
        joined(
            Seq::new(info.hashes.len(), |i: int| piece_data(info, file, i as nat)),
        ) == file,
{
    lemma_joined_pieces(info, file, info.hashes.len());
    assert(file.take(file.len() as int) =~= file);
}

/// All pieces are equally long, except that the last one may be shorter: it holds what is
/// left of the file after whole pieces.
pub proof fn law_piece_len(info: InfoView, piece: nat)
    ensures
        piece + 1 != info.hashes.len() ==> piece_len(info, piece) == info.piece_length,
        piece + 1 == info.hashes.len() && info.piece_length > 0 ==> {
            &&& 0 < piece_len(info, piece) <= info.piece_length
            &&& (info.length - piece_len(info, piece)) % (info.piece_length as int) == 0
        },
{
    let l = info.piece_length as int;
    let n = info.length as int;
    if piece + 1 == info.hashes.len() && info.piece_length > 0 {
        vstd::arithmetic::div_mod::lemma_fundamental_div_mod(n, l);
        if n % l != 0 {
            assert((n - n % l) % l == 0) by {
                assert(n - n % l == l * (n / l) + 0);
                vstd::arithmetic::div_mod::lemma_mod_multiples_basic(n / l, l);
                assert(l * (n / l) == (n / l) * l) by (nonlinear_arith);
            }
        } else {
            assert(n - l == (n / l - 1) * l) by (nonlinear_arith)
                requires
                    n == l * (n / l) + n % l,
                    n % l == 0,
            ;
            vstd::arithmetic::div_mod::lemma_mod_multiples_basic(n / l - 1, l);
        }
    }
}

/// There are as many blocks as it takes to hold the piece, and no more. All but the last
/// are 16 KiB long, and each begins at a multiple of that.
pub proof fn law_blocks(piece_len: nat, block: nat)
    ensures
        blocks_count(piece_len) * 16384 >= piece_len,
        blocks_count(piece_len) * 16384 < piece_len + 16384,
        block_begin(block) == 16384 * block,
        block < blocks_count(piece_len) ==> block_len(piece_len, block) == if 16384 * (block + 1)
            <= piece_len {
            16384
        } else {
            piece_len - 16384 * block
        },
{
}

/// A request names the piece, where the block begins and how long it is, in four bytes
/// each, the most significant one first.
#[verifier::spinoff_prover]
pub proof fn law_request(piece: nat, piece_len: nat, block: nat)
    requires
        block < blocks_count(piece_len),
        piece < 0x1_0000_0000,
        16384 * block < 0x1_0000_0000,
    ensures
        ({
            let p = request(piece, piece_len, block).payload;
            &&& request(piece, piece_len, block).tag == MessageTag::Request
            &&& p.len() == 12
            &&& 0x100_0000 * p[0] + 0x1_0000 * p[1] + 0x100 * p[2] + p[3] == piece
            &&& 0x100_0000 * p[4] + 0x1_0000 * p[5] + 0x100 * p[6] + p[7] == 16384 * block
            &&& 0x100_0000 * p[8] + 0x1_0000 * p[9] + 0x100 * p[10] + p[11] == if 16384 * (block
                + 1) <= piece_len {
                16384
            } else {
                piece_len - 16384 * block
            }
        }),
{
    law_request_round_trip(piece, piece_len, block);
    law_blocks(piece_len, block);
    law_low32(piece as int);
    law_low32(16384 * block as int);
    let p = request(piece, piece_len, block).payload;
    lemma_number_at(p, 0);
    lemma_number_at(p, 4);
    lemma_number_at(p, 8);
    assert(p.skip(0) =~= p);
}

/// The number that four bytes spell, from some byte on.
proof fn lemma_number_at(p: Seq<u8>, from: int)
    requires
        0 <= from,
        from + 4 <= p.len(),
    ensures
        be32(p.skip(from)) == 0x100_0000 * p[from] + 0x1_0000 * p[from + 1] + 0x100 * p[from + 2]
            + p[from + 3],
{
    let t = p.skip(from);
    assert(t[0] == p[from] && t[1] == p[from + 1] && t[2] == p[from + 2] && t[3] == p[from + 3]);
}

/// A piece of which nothing has come has no bytes in any of its blocks.
pub proof fn law_begun(piece: nat, piece_len: nat, block: int)
    ensures
        begun(piece, piece_len).piece == piece,
        begun(piece, piece_len).piece_len == piece_len,
        begun(piece, piece_len).next_block == 0,
        begun(piece, piece_len).received == 0,
        begun(piece, piece_len).blocks.len() == blocks_count(piece_len),
        0 <= block < begun(piece, piece_len).blocks.len() ==> begun(
            piece,
            piece_len,
        ).blocks[block].len() == 0,
{
}

/// Which blocks are taken, and why any other is refused: a block has to be of the piece,
/// and to begin within it. How long it is has no part in it.
pub proof fn law_block_is_taken(download: PieceDownloadView, payload: Seq<u8>)
    requires
        payload.len() >= 8,
        download.blocks.len() <= usize::MAX,
    ensures
        ({
            let piece = 0x100_0000 * payload[0] + 0x1_0000 * payload[1] + 0x100 * payload[2]
                + payload[3];
            let begin = 0x100_0000 * payload[4] + 0x1_0000 * payload[5] + 0x100 * payload[6]
                + payload[7];
            &&& block_error(download, payload) is None <==> piece == low32(download.piece as int)
                && begin < 16384 * download.blocks.len()
            &&& piece != low32(download.piece as int) ==> block_error(download, payload) == Some(
                DownloadError::WrongPiece {
                    expected: low32(download.piece as int),
                    found: piece as u32,
                },
            )
            &&& piece == low32(download.piece as int) && begin >= 16384 * download.blocks.len()
                ==> block_error(download, payload) == Some(
                DownloadError::BlockOutOfRange {
                    block: (begin / 16384) as usize,
                    count: download.blocks.len() as usize,
                },
            )
        }),
{
    lemma_number_at(payload, 4);
}

/// A block that is taken adds its bytes, all of them and as they are, behind what was there
/// of the block that begins where the message says. Nothing else changes, but that one more
/// block has come.
pub proof fn law_block_adds_its_bytes(
    download: PieceDownloadView,
    payload: Seq<u8>,
    block: int,
    other: int,
)
    requires
        payload.len() >= 8,
        0 <= block < download.blocks.len(),
        16384 * block <= 0x100_0000 * payload[4] + 0x1_0000 * payload[5] + 0x100 * payload[6]
            + payload[7] < 16384 * (block + 1),
        0 <= other < download.blocks.len(),
        other != block,
    ensures
        ({
            let after = after_block(download, payload);
            &&& after.blocks.len() == download.blocks.len()
            &&& after.blocks[block] == download.blocks[block] + payload.skip(8)
            &&& after.blocks[other] == download.blocks[other]
            &&& after.received == download.received + 1
            &&& after.piece == download.piece
            &&& after.piece_len == download.piece_len
            &&& after.next_block == download.next_block
        }),
{
    lemma_number_at(payload, 4);
    assert(block_of(payload) == block);
}

/// A piece with one block gets its bytes in the same way.
pub proof fn law_only_block_adds_its_bytes(download: PieceDownloadView, payload: Seq<u8>)
    requires
        payload.len() >= 8,
        download.blocks.len() == 1,
        0x100_0000 * payload[4] + 0x1_0000 * payload[5] + 0x100 * payload[6] + payload[7] < 16384,
    ensures
        after_block(download, payload).blocks == seq![download.blocks[0] + payload.skip(8)],
        after_block(download, payload).received == download.received + 1,
{
    lemma_number_at(payload, 4);
    assert(block_of(payload) == 0);
    assert(after_block(download, payload).blocks =~= seq![download.blocks[0] + payload.skip(8)]);
}

/// The download is complete when as many blocks have come as there are, and not before.
pub proof fn law_complete(download: PieceDownloadView)
    ensures
        is_complete(download) ==> download.received == download.blocks.len(),
        download.received < download.blocks.len() ==> !is_complete(download),
        download.received == download.blocks.len() && download.received > 0 ==> is_complete(
            download,
        ),
{
}

/// Blocks are joined in their order, without losing or changing a byte.
pub proof fn law_joined(a: Seq<Seq<u8>>, b: Seq<Seq<u8>>, block: Seq<u8>)
    ensures
        joined(Seq::<Seq<u8>>::empty()) == Seq::<u8>::empty(),
        joined(seq![block]) == block,
        joined(a + b) == joined(a) + joined(b),
    decreases b.len(),
{
    assert(seq![block].drop_last() =~= seq![]);
    assert(joined(seq![block]) =~= block) by {
        reveal_with_fuel(joined, 2);
    }
    if b.len() == 0 {
        assert(a + b =~= a);
        assert(joined(a) + joined(b) =~= joined(a));
    } else {
        law_joined(a, b.drop_last(), block);
        assert((a + b).drop_last() =~= a + b.drop_last());
        assert((a + b).last() == b.last());
        assert(joined(a + b) =~= joined(a) + joined(b));
    }
}


} // verus!
