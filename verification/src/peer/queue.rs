//! What is left to do when a whole file is downloaded: which peers can still be
//! connected to, and which pieces are still needed.

use std::collections::VecDeque;

use vstd::prelude::*;

use crate::peers::{PeerAddr, PeerAddrView, Peers};

verus! {

/// How many peers are connected to at first.
pub const MAX_CONNECTED_PEERS: usize = 5;

/// The peers of a torrent, of which the first ones have been connected to.
#[derive(Debug)]
pub struct PeerList {
    peers: Peers,
    next: usize,
}

/// The peers of a torrent, of which the first ones have been connected to.
#[verifier::ext_equal]
pub struct PeerListView {
    pub peers: Seq<PeerAddrView>,
    /// How many of them have been connected to, successfully or not.
    pub next: nat,
}

impl View for PeerList {
    type V = PeerListView;

    closed spec fn view(&self) -> PeerListView {
        PeerListView { peers: self.peers@, next: self.next as nat }
    }
}

/// The tracker knows no peers.
#[derive(Debug, Clone, Copy, PartialEq, Eq, Structural)]
pub struct NoPeers;

impl PeerList {
    /// Whether no more peers have been connected to than there are.
    pub open spec fn wf(&self) -> bool {
        self@.next <= self@.peers.len() <= usize::MAX
    }

    /// The peers that a tracker answered with, none of them connected to.
    pub fn new(peers: Peers) -> (r: Result<Self, NoPeers>)
        ensures
            r is Ok <==> peers@.len() > 0,
            r matches Ok(list) ==> list.wf() && list@ == (PeerListView { peers: peers@, next: 0 }),
    {
        if peers.0.len() == 0 {
            return Err(NoPeers);
        }
        Ok(PeerList { peers, next: 0 })
    }

    /// The next peer to connect to, if one is left.
    pub fn next(&mut self) -> (r: Option<PeerAddr>)
        requires
            old(self).wf(),
        ensures
            final(self).wf(),
            final(self)@.peers == old(self)@.peers,
            if old(self)@.next < old(self)@.peers.len() {
                &&& r matches Some(peer)
                &&& peer@ == old(self)@.peers[old(self)@.next as int]
                &&& final(self)@.next == old(self)@.next + 1
            } else {
                &&& r is None
                &&& final(self)@.next == old(self)@.next
            },
    {
        if self.next >= self.peers.0.len() {
            return None;
        }
        let peer = self.peers.0[self.next];
        self.next = self.next + 1;
        Some(peer)
    }

    /// The next peers to connect to at the same time: as many as allowed, or as many
    /// as are left.
    pub fn next_group(&mut self) -> (r: Vec<PeerAddr>)
        requires
            old(self).wf(),
        ensures
            final(self).wf(),
            final(self)@.peers == old(self)@.peers,
            final(self)@.next == if old(self)@.next + MAX_CONNECTED_PEERS <= old(
                self,
            )@.peers.len() {
                old(self)@.next + MAX_CONNECTED_PEERS as nat
            } else {
                old(self)@.peers.len()
            },
            r@.len() == final(self)@.next - old(self)@.next,
            forall|i: int|
                0 <= i < r@.len() ==> (#[trigger] r@[i])@ == old(self)@.peers[old(self)@.next + i],
    {
        let mut group: Vec<PeerAddr> = Vec::new();
        while group.len() < MAX_CONNECTED_PEERS && self.next < self.peers.0.len()
            invariant
                self.wf(),
                self@.peers == old(self)@.peers,
                self@.next == old(self)@.next + group@.len(),
                group@.len() <= MAX_CONNECTED_PEERS,
                forall|i: int|
                    0 <= i < group@.len() ==> (#[trigger] group@[i])@ == old(self)@.peers[old(
                        self,
                    )@.next + i],
            decreases self@.peers.len() - self@.next,
        {
            if let Some(peer) = self.next() {
                group.push(peer);
            }
        }
        group
    }
}

/// What has become of a piece.
#[derive(Debug, Clone, Copy, PartialEq, Eq, Structural)]
pub enum PieceState {
    /// It waits in the queue.
    Needed,
    /// It has been taken from the queue, to be downloaded.
    InFlight,
    /// It has been downloaded.
    Downloaded,
}

/// The queue of the pieces to download.
#[derive(Debug)]
pub struct PieceQueue {
    needed: VecDeque<usize>,
    pieces: Vec<PieceState>,
    downloaded: usize,
}

/// What is known of the pieces to download.
#[verifier::ext_equal]
pub struct PieceQueueView {
    /// The pieces that wait, the next one first.
    pub needed: Seq<nat>,
    /// What has become of each piece.
    pub pieces: Seq<PieceState>,
}

impl View for PieceQueue {
    type V = PieceQueueView;

    closed spec fn view(&self) -> PieceQueueView {
        PieceQueueView { needed: indices(self.needed@), pieces: self.pieces@ }
    }
}

/// Some indices as numbers.
spec fn indices(s: Seq<usize>) -> Seq<nat> {
    Seq::new(s.len(), |i: int| s[i] as nat)
}

/// How many pieces are in the given state.
pub open spec fn count_of(pieces: Seq<PieceState>, state: PieceState) -> nat
    decreases pieces.len(),
{
    if pieces.len() == 0 {
        0
    } else {
        count_of(pieces.drop_last(), state) + one_if(pieces.last() == state)
    }
}

/// One for what holds, zero for what does not.
pub open spec fn one_if(holds: bool) -> nat {
    if holds {
        1
    } else {
        0
    }
}

/// Whether every piece has been downloaded.
pub open spec fn is_finished(queue: PieceQueueView) -> bool {
    forall|p: int|
        0 <= p < queue.pieces.len() ==> #[trigger] queue.pieces[p] == PieceState::Downloaded
}

/// Whether exactly those pieces wait in the queue that are needed, each once.
pub open spec fn is_consistent(queue: PieceQueueView) -> bool {
    &&& queue.needed.no_duplicates()
    &&& forall|i: int|
        0 <= i < queue.needed.len() ==> (#[trigger] queue.needed[i]) < queue.pieces.len()
            && queue.pieces[queue.needed[i] as int] == PieceState::Needed
    &&& forall|p: nat|
        p < queue.pieces.len() && #[trigger] queue.pieces[p as int] == PieceState::Needed
            ==> queue.needed.contains(p)
}

/// The queue at the beginning: all pieces wait, in their order.
pub open spec fn all_needed(count: nat) -> PieceQueueView {
    PieceQueueView {
        needed: Seq::new(count, |i: int| i as nat),
        pieces: Seq::new(count, |i: int| PieceState::Needed),
    }
}

/// The queue after the next piece has been taken from it.
pub open spec fn after_take(queue: PieceQueueView) -> PieceQueueView {
    PieceQueueView {
        needed: queue.needed.skip(1),
        pieces: queue.pieces.update(queue.needed[0] as int, PieceState::InFlight),
    }
}

/// The queue after a piece has been downloaded.
pub open spec fn after_download(queue: PieceQueueView, piece: nat) -> PieceQueueView {
    PieceQueueView {
        pieces: queue.pieces.update(piece as int, PieceState::Downloaded),
        ..queue
    }
}

/// The queue after the download of a piece has failed: the piece waits again, behind
/// all others.
pub open spec fn after_failure(queue: PieceQueueView, piece: nat) -> PieceQueueView {
    PieceQueueView {
        needed: queue.needed.push(piece),
        pieces: queue.pieces.update(piece as int, PieceState::Needed),
    }
}

/// Whether a piece is being downloaded.
pub open spec fn is_in_flight(queue: PieceQueueView, piece: nat) -> bool {
    piece < queue.pieces.len() && queue.pieces[piece as int] == PieceState::InFlight
}

/// A piece that changes its state is counted where it goes, and no more where it was.
pub(crate) proof fn lemma_count_of_update(
    pieces: Seq<PieceState>,
    piece: int,
    new: PieceState,
    state: PieceState,
)
    requires
        0 <= piece < pieces.len(),
    ensures
        count_of(pieces.update(piece, new), state) + one_if(pieces[piece] == state) == count_of(
            pieces,
            state,
        ) + one_if(new == state),
    decreases pieces.len(),
{
    let updated = pieces.update(piece, new);
    if piece == pieces.len() - 1 {
        assert(updated.drop_last() =~= pieces.drop_last());
    } else {
        assert(updated.drop_last() =~= pieces.drop_last().update(piece, new));
        lemma_count_of_update(pieces.drop_last(), piece, new, state);
    }
}

/// There are no more pieces in a state than pieces, as many only if every piece is in
/// it, and none only if no piece is in it.
pub(crate) proof fn lemma_count_of_all(pieces: Seq<PieceState>, state: PieceState)
    ensures
        count_of(pieces, state) <= pieces.len(),
        count_of(pieces, state) == pieces.len() <==> forall|p: int|
            0 <= p < pieces.len() ==> #[trigger] pieces[p] == state,
        count_of(pieces, state) == 0 <==> forall|p: int|
            0 <= p < pieces.len() ==> #[trigger] pieces[p] != state,
    decreases pieces.len(),
{
    if pieces.len() > 0 {
        let before = pieces.drop_last();
        let last = pieces.len() - 1;
        lemma_count_of_all(before, state);
        assert(forall|p: int| 0 <= p < last ==> #[trigger] pieces[p] == before[p]);
        if forall|p: int| 0 <= p < pieces.len() ==> #[trigger] pieces[p] == state {
            assert(forall|p: int| 0 <= p < last ==> #[trigger] before[p] == pieces[p]);
            assert(pieces[last] == state);
        }
        if forall|p: int| 0 <= p < pieces.len() ==> #[trigger] pieces[p] != state {
            assert(forall|p: int| 0 <= p < last ==> #[trigger] before[p] == pieces[p]);
            assert(pieces[last] != state);
        }
    }
}

impl PieceQueue {
    /// Whether exactly those pieces wait that are needed, and the downloaded ones
    /// have been counted.
    pub closed spec fn wf(&self) -> bool {
        &&& is_consistent(self@)
        &&& self.downloaded == count_of(self@.pieces, PieceState::Downloaded)
        &&& self@.pieces.len() <= usize::MAX
    }

    /// Exactly those pieces wait that are needed.
    pub proof fn lemma_consistent(&self)
        requires
            self.wf(),
        ensures
            is_consistent(self@),
    {
    }

    /// A queue of all pieces, in their order.
    pub fn new(pieces_count: usize) -> (r: Self)
        ensures
            r.wf(),
            r@ == all_needed(pieces_count as nat),
    {
        let mut needed: VecDeque<usize> = VecDeque::new();
        let mut pieces: Vec<PieceState> = Vec::new();
        let mut i: usize = 0;
        while i < pieces_count
            invariant
                i <= pieces_count,
                needed@.len() == i,
                pieces@.len() == i,
                forall|j: int| 0 <= j < i ==> needed@[j] == j,
                forall|j: int| 0 <= j < i ==> pieces@[j] == PieceState::Needed,
            decreases pieces_count - i,
        {
            needed.push_back(i);
            pieces.push(PieceState::Needed);
            i = i + 1;
        }
        let r = PieceQueue { needed, pieces, downloaded: 0 };
        proof {
            assert(r@ =~= all_needed(pieces_count as nat));
            lemma_count_of_all(r@.pieces, PieceState::Downloaded);
            assert forall|p: nat|
                p < r@.pieces.len() && #[trigger] r@.pieces[p as int]
                    == PieceState::Needed implies r@.needed.contains(p) by {
                assert(r@.needed[p as int] == p);
            }
        }
        r
    }

    /// Takes the next piece from the queue, if one waits.
    pub fn take_piece(&mut self) -> (r: Option<usize>)
        requires
            old(self).wf(),
        ensures
            final(self).wf(),
            if old(self)@.needed.len() > 0 {
                &&& r matches Some(piece)
                &&& piece == old(self)@.needed[0]
                &&& piece < old(self)@.pieces.len()
                &&& final(self)@ == after_take(old(self)@)
            } else {
                &&& r is None
                &&& final(self)@ == old(self)@
            },
    {
        let ghost before = self@;
        match self.needed.pop_front() {
            None => None,
            Some(piece) => {
                assert(before.needed[0] == piece);
                self.pieces.set(piece, PieceState::InFlight);
                proof {
                    assert(self@.needed =~= before.needed.skip(1));
                    assert(self@ =~= after_take(before));
                    lemma_take_is_consistent(before);
                    lemma_count_of_update(
                        before.pieces,
                        piece as int,
                        PieceState::InFlight,
                        PieceState::Downloaded,
                    );
                }
                Some(piece)
            },
        }
    }

    /// Notes that a piece has been downloaded, and says whether it was the last one.
    pub fn piece_downloaded(&mut self, piece: usize) -> (r: bool)
        requires
            old(self).wf(),
            is_in_flight(old(self)@, piece as nat),
        ensures
            final(self).wf(),
            final(self)@ == after_download(old(self)@, piece as nat),
            r == is_finished(final(self)@),
    {
        let ghost before = self@;
        proof {
            lemma_count_of_update(
                before.pieces,
                piece as int,
                PieceState::Downloaded,
                PieceState::Downloaded,
            );
        }
        self.pieces.set(piece, PieceState::Downloaded);
        proof {
            lemma_count_of_all(self@.pieces, PieceState::Downloaded);
            lemma_download_is_consistent(before, piece as nat);
        }
        self.downloaded = self.downloaded + 1;
        assert(self@ =~= after_download(before, piece as nat));
        self.downloaded == self.pieces.len()
    }

    /// Puts a piece whose download has failed back into the queue.
    pub fn piece_failed(&mut self, piece: usize)
        requires
            old(self).wf(),
            is_in_flight(old(self)@, piece as nat),
        ensures
            final(self).wf(),
            final(self)@ == after_failure(old(self)@, piece as nat),
    {
        let ghost before = self@;
        self.needed.push_back(piece);
        self.pieces.set(piece, PieceState::Needed);
        proof {
            assert(self@.needed =~= before.needed.push(piece as nat));
            assert(self@ =~= after_failure(before, piece as nat));
            lemma_count_of_update(
                before.pieces,
                piece as int,
                PieceState::Needed,
                PieceState::Downloaded,
            );
            lemma_failure_is_consistent(before, piece as nat);
        }
    }

    /// Whether a piece is being downloaded.
    pub fn in_flight(&self, piece: usize) -> (r: bool)
        ensures
            r == is_in_flight(self@, piece as nat),
    {
        piece < self.pieces.len() && self.pieces[piece] == PieceState::InFlight
    }

    /// The downloaded pieces, in the order in which they make up the file.
    pub fn downloaded_pieces(&self) -> (r: Vec<usize>)
        ensures
            forall|i: int, j: int| 0 <= i < j < r@.len() ==> r@[i] < r@[j],
            forall|p: usize| #[trigger]
                r@.contains(p) <==> p < self@.pieces.len() && self@.pieces[p as int]
                    == PieceState::Downloaded,
            is_finished(self@) ==> r@ == Seq::new(self@.pieces.len(), |i: int| i as usize),
    {
        let mut r: Vec<usize> = Vec::new();
        let mut p: usize = 0;
        while p < self.pieces.len()
            invariant
                p <= self.pieces@.len(),
                self@.pieces == self.pieces@,
                r@.len() <= p,
                forall|i: int| 0 <= i < r@.len() ==> (#[trigger] r@[i]) < p,
                forall|i: int, j: int| 0 <= i < j < r@.len() ==> r@[i] < r@[j],
                forall|q: usize| #[trigger]
                    r@.contains(q) <==> q < p && self@.pieces[q as int] == PieceState::Downloaded,
                is_finished(self@) ==> r@ == Seq::new(p as nat, |i: int| i as usize),
            decreases self.pieces.len() - p,
        {
            let ghost before = r@;
            if self.pieces[p] == PieceState::Downloaded {
                r.push(p);
                proof {
                    assert(r@[before.len() as int] == p);
                    assert forall|q: usize| #[trigger]
                        r@.contains(q) <==> q < p + 1 && self@.pieces[q as int]
                            == PieceState::Downloaded by {
                        if before.contains(q) {
                            let i = choose|i: int| 0 <= i < before.len() && before[i] == q;
                            assert(r@[i] == q);
                        }
                        if r@.contains(q) && q != p {
                            let i = choose|i: int| 0 <= i < r@.len() && r@[i] == q;
                            assert(before[i] == q);
                        }
                    }
                }
            }
            assert(is_finished(self@) ==> r@ =~= Seq::new((p + 1) as nat, |i: int| i as usize));
            p = p + 1;
        }
        r
    }
}

/// Taking a piece leaves the queue consistent.
proof fn lemma_take_is_consistent(queue: PieceQueueView)
    requires
        is_consistent(queue),
        queue.needed.len() > 0,
    ensures
        is_consistent(after_take(queue)),
{
    let after = after_take(queue);
    assert(queue.pieces[queue.needed[0] as int] == PieceState::Needed);
    assert forall|i: int| 0 <= i < after.needed.len() implies (#[trigger] after.needed[i])
        < after.pieces.len() && after.pieces[after.needed[i] as int] == PieceState::Needed by {
        assert(after.needed[i] == queue.needed[i + 1]);
    }
    assert forall|p: nat|
        p < after.pieces.len() && #[trigger] after.pieces[p as int]
            == PieceState::Needed implies after.needed.contains(p) by {
        assert(queue.pieces[p as int] == PieceState::Needed);
        let i = choose|i: int| 0 <= i < queue.needed.len() && queue.needed[i] == p;
        assert(after.needed[i - 1] == p);
    }
}

/// Noting a downloaded piece leaves the queue consistent.
proof fn lemma_download_is_consistent(queue: PieceQueueView, piece: nat)
    requires
        is_consistent(queue),
        is_in_flight(queue, piece),
    ensures
        is_consistent(after_download(queue, piece)),
{
    let after = after_download(queue, piece);
    assert forall|i: int| 0 <= i < after.needed.len() implies (#[trigger] after.needed[i])
        < after.pieces.len() && after.pieces[after.needed[i] as int] == PieceState::Needed by {
        assert(after.needed[i] == queue.needed[i]);
    }
    assert forall|p: nat|
        p < after.pieces.len() && #[trigger] after.pieces[p as int]
            == PieceState::Needed implies after.needed.contains(p) by {
        assert(queue.pieces[p as int] == PieceState::Needed);
    }
}

/// Putting a piece back leaves the queue consistent.
proof fn lemma_failure_is_consistent(queue: PieceQueueView, piece: nat)
    requires
        is_consistent(queue),
        is_in_flight(queue, piece),
    ensures
        is_consistent(after_failure(queue, piece)),
{
    let after = after_failure(queue, piece);
    assert forall|i: int| 0 <= i < after.needed.len() implies (#[trigger] after.needed[i])
        < after.pieces.len() && after.pieces[after.needed[i] as int] == PieceState::Needed by {
        if i < queue.needed.len() {
            assert(after.needed[i] == queue.needed[i]);
        }
    }
    assert(!queue.needed.contains(piece)) by {
        if queue.needed.contains(piece) {
            let i = choose|i: int| 0 <= i < queue.needed.len() && queue.needed[i] == piece;
            assert(queue.pieces[queue.needed[i] as int] == PieceState::Needed);
        }
    }
    assert forall|p: nat|
        p < after.pieces.len() && #[trigger] after.pieces[p as int]
            == PieceState::Needed implies after.needed.contains(p) by {
        if p == piece {
            assert(after.needed[queue.needed.len() as int] == p);
        } else {
            assert(queue.pieces[p as int] == PieceState::Needed);
            let i = choose|i: int| 0 <= i < queue.needed.len() && queue.needed[i] == p;
            assert(after.needed[i] == p);
        }
    }
}

/// No piece is lost: as long as not every piece has been downloaded, one waits in the
/// queue or is being downloaded. Once every piece has been downloaded, none waits.
pub proof fn law_no_piece_is_lost(queue: PieceQueue)
    requires
        queue.wf(),
    ensures
        !is_finished(queue@) ==> queue@.needed.len() > 0 || exists|p: nat| is_in_flight(queue@, p),
        is_finished(queue@) ==> queue@.needed.len() == 0 && forall|p: nat| !is_in_flight(queue@, p),
{
    if !is_finished(queue@) {
        let p = choose|p: int|
            0 <= p < queue@.pieces.len() && #[trigger] queue@.pieces[p] != PieceState::Downloaded;
        if queue@.pieces[p] == PieceState::Needed {
            assert(queue@.pieces[(p as nat) as int] == PieceState::Needed);
            assert(queue@.needed.contains(p as nat));
        } else {
            assert(is_in_flight(queue@, p as nat));
        }
    } else if queue@.needed.len() > 0 {
        let p = queue@.needed[0] as int;
        assert(queue@.pieces[p] == PieceState::Needed);
    }
}

/// No piece is downloaded by two peers at once: a piece that is taken was not being
/// downloaded, and it waits in the queue no more.
pub proof fn law_pieces_are_taken_once(queue: PieceQueue)
    requires
        queue.wf(),
        queue@.needed.len() > 0,
    ensures
        !is_in_flight(queue@, queue@.needed[0]),
        is_in_flight(after_take(queue@), queue@.needed[0]),
        !after_take(queue@).needed.contains(queue@.needed[0]),
{
    let piece = queue@.needed[0];
    let after = after_take(queue@);
    if after.needed.contains(piece) {
        let i = choose|i: int| 0 <= i < after.needed.len() && after.needed[i] == piece;
        assert(queue@.needed[i + 1] == piece);
    }
}

/// A piece that failed is taken again after those that wait before it: taking as many
/// pieces as wait brings it to the front.
pub proof fn law_failed_piece_comes_again(queue: PieceQueueView, piece: nat)
    ensures
        after_failure(queue, piece).needed.skip(queue.needed.len() as int) == seq![piece],
        after_failure(queue, piece).needed.take(queue.needed.len() as int) == queue.needed,
{
    assert(after_failure(queue, piece).needed.skip(queue.needed.len() as int) =~= seq![piece]);
    assert(after_failure(queue, piece).needed.take(queue.needed.len() as int) =~= queue.needed);
}

/// At the beginning every piece waits, in its order, and nothing has been done.
pub proof fn law_all_needed(count: nat, p: int)
    requires
        0 <= p < count,
    ensures
        all_needed(count).needed.len() == count,
        all_needed(count).pieces.len() == count,
        all_needed(count).needed[p] == p,
        all_needed(count).pieces[p] == PieceState::Needed,
{
}

/// The piece that is taken is the one that has waited longest. It is then being downloaded;
/// the others stay what they are, and wait in the same order.
pub proof fn law_take(queue: PieceQueueView, p: int, i: int)
    requires
        queue.needed.len() > 0,
        queue.needed[0] < queue.pieces.len(),
        0 <= p < queue.pieces.len(),
    ensures
        after_take(queue).pieces.len() == queue.pieces.len(),
        after_take(queue).pieces[p] == if p == queue.needed[0] {
            PieceState::InFlight
        } else {
            queue.pieces[p]
        },
        after_take(queue).needed.len() == queue.needed.len() - 1,
        0 <= i < queue.needed.len() - 1 ==> after_take(queue).needed[i] == queue.needed[i + 1],
{
}

/// A downloaded piece is downloaded; the others stay what they are, and wait as before.
pub proof fn law_download(queue: PieceQueueView, piece: nat, p: int)
    requires
        piece < queue.pieces.len(),
        0 <= p < queue.pieces.len(),
    ensures
        after_download(queue, piece).pieces.len() == queue.pieces.len(),
        after_download(queue, piece).pieces[p] == if p == piece {
            PieceState::Downloaded
        } else {
            queue.pieces[p]
        },
        after_download(queue, piece).needed == queue.needed,
{
}

/// A piece that failed is needed again, and waits behind all others; the others stay what
/// they are.
pub proof fn law_failure(queue: PieceQueueView, piece: nat, p: int)
    requires
        piece < queue.pieces.len(),
        0 <= p < queue.pieces.len(),
    ensures
        after_failure(queue, piece).pieces.len() == queue.pieces.len(),
        after_failure(queue, piece).pieces[p] == if p == piece {
            PieceState::Needed
        } else {
            queue.pieces[p]
        },
        after_failure(queue, piece).needed == queue.needed + seq![piece],
{
    assert(after_failure(queue, piece).needed =~= queue.needed + seq![piece]);
}

/// A file is finished when no piece is left that is not downloaded, and a piece is in
/// flight when it is neither needed nor downloaded.
pub proof fn law_states(queue: PieceQueueView, p: nat)
    ensures
        is_finished(queue) && p < queue.pieces.len() ==> queue.pieces[p as int]
            == PieceState::Downloaded,
        !is_finished(queue) ==> exists|q: int|
            0 <= q < queue.pieces.len() && #[trigger] queue.pieces[q] != PieceState::Downloaded,
        is_in_flight(queue, p) <==> p < queue.pieces.len() && queue.pieces[p as int]
            != PieceState::Needed && queue.pieces[p as int] != PieceState::Downloaded,
{
}

/// What was downloaded stays downloaded, whatever happens to other pieces, and a piece is
/// not downloaded before it has been taken.
pub proof fn law_downloaded_stays(queue: PieceQueue, piece: nat, p: int)
    requires
        queue.wf(),
        0 <= p < queue@.pieces.len(),
        queue@.pieces[p] == PieceState::Downloaded,
        is_in_flight(queue@, piece),
    ensures
        after_download(queue@, piece).pieces[p] == PieceState::Downloaded,
        after_failure(queue@, piece).pieces[p] == PieceState::Downloaded,
        queue@.needed.len() > 0 ==> after_take(queue@).pieces[p] == PieceState::Downloaded,
{
    if queue@.needed.len() > 0 {
        assert(queue@.pieces[queue@.needed[0] as int] == PieceState::Needed);
    }
}

/// Pieces are counted by their state, one by one, so every piece is counted once.
pub proof fn law_count(pieces: Seq<PieceState>, piece: PieceState, state: PieceState)
    ensures
        count_of(Seq::<PieceState>::empty(), state) == 0,
        count_of(pieces.push(piece), state) == count_of(pieces, state) + if piece == state {
            1nat
        } else {
            0nat
        },
        count_of(pieces, PieceState::Needed) + count_of(pieces, PieceState::InFlight) + count_of(
            pieces,
            PieceState::Downloaded,
        ) == pieces.len(),
    decreases pieces.len(),
{
    assert(pieces.push(piece).drop_last() =~= pieces);
    if pieces.len() > 0 {
        law_count(pieces.drop_last(), piece, state);
    }
}

} // verus!
