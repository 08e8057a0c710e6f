//! How a whole file is downloaded from several peers at once: which peers to connect
//! to, and which piece to give to which connection.

use vstd::prelude::*;

use super::queue::{
    after_download, after_failure, after_take, all_needed, count_of, is_finished, is_in_flight,
    lemma_count_of_all, lemma_count_of_update, NoPeers, PeerList, PeerListView,
    PieceQueue, PieceQueueView, PieceState, MAX_CONNECTED_PEERS,
};
use crate::peers::{PeerAddr, PeerAddrView, Peers};

verus! {

/// The download of a file.
#[derive(Debug)]
pub struct FileDownload {
    peers: PeerList,
    queue: PieceQueue,
    connecting: usize,
    idle: usize,
    busy: usize,
}

/// What is known of the download of a file.
#[verifier::ext_equal]
pub struct FileDownloadView {
    pub peers: PeerListView,
    pub queue: PieceQueueView,
    /// How many peers are being connected to.
    pub connecting: nat,
    /// How many connections wait for a piece.
    pub idle: nat,
    /// How many connections download a piece.
    pub busy: nat,
}

impl View for FileDownload {
    type V = FileDownloadView;

    closed spec fn view(&self) -> FileDownloadView {
        FileDownloadView {
            peers: self.peers@,
            queue: self.queue@,
            connecting: self.connecting as nat,
            idle: self.idle as nat,
            busy: self.busy as nat,
        }
    }
}

/// What a connection does after it has downloaded a piece.
#[derive(Debug, Clone, Copy, PartialEq, Eq, Structural)]
pub enum Next {
    /// Nothing more: every piece has been downloaded.
    Finished,
    /// It downloads this piece.
    Piece(usize),
    /// It waits for a piece.
    Wait,
}

/// What is done after the download of a piece has failed.
#[derive(Debug)]
pub struct Retry {
    /// The piece that a waiting connection downloads now.
    pub piece: Option<usize>,
    /// The peer to connect to in place of the one that failed.
    pub peer: Option<PeerAddr>,
}

/// The download of a file before any peer has been connected to.
pub open spec fn begun(peers: Seq<PeerAddrView>, pieces_count: nat) -> FileDownloadView {
    FileDownloadView {
        peers: PeerListView { peers, next: 0 },
        queue: all_needed(pieces_count),
        connecting: 0,
        idle: 0,
        busy: 0,
    }
}

/// The download with a connection that gets the next piece, or waits if there is none.
pub open spec fn after_assignment(download: FileDownloadView) -> FileDownloadView {
    if download.queue.needed.len() > 0 {
        FileDownloadView {
            queue: after_take(download.queue),
            busy: download.busy + 1,
            ..download
        }
    } else {
        FileDownloadView { idle: download.idle + 1, ..download }
    }
}

/// The download after a peer has been connected to.
pub open spec fn after_connected(download: FileDownloadView) -> FileDownloadView {
    after_assignment(
        FileDownloadView { connecting: (download.connecting - 1) as nat, ..download },
    )
}

/// The download after a peer could not be connected to.
pub open spec fn after_not_connected(download: FileDownloadView) -> FileDownloadView {
    FileDownloadView { connecting: (download.connecting - 1) as nat, ..download }
}

/// The download after a connection has downloaded a piece.
pub open spec fn after_downloaded(download: FileDownloadView, piece: nat) -> FileDownloadView {
    after_assignment(
        FileDownloadView {
            queue: after_download(download.queue, piece),
            busy: (download.busy - 1) as nat,
            ..download
        },
    )
}

/// The download after a connection has failed to download a piece: the connection is
/// given up, and the piece goes back to the queue, from where a waiting connection
/// gets it.
pub open spec fn after_lost(download: FileDownloadView, piece: nat) -> FileDownloadView {
    let lost = FileDownloadView {
        queue: after_failure(download.queue, piece),
        busy: (download.busy - 1) as nat,
        ..download
    };
    if download.idle > 0 {
        after_assignment(FileDownloadView { idle: (download.idle - 1) as nat, ..lost })
    } else {
        lost
    }
}

/// The download after the next peer has been chosen to be connected to, if one is left.
pub open spec fn after_next_peer(download: FileDownloadView) -> FileDownloadView {
    if download.peers.next < download.peers.peers.len() {
        FileDownloadView {
            peers: PeerListView { next: download.peers.next + 1, ..download.peers },
            connecting: download.connecting + 1,
            ..download
        }
    } else {
        download
    }
}

/// Whether no piece can come any more: nobody is connected to, and no connection is
/// being made.
pub open spec fn is_stuck(download: FileDownloadView) -> bool {
    download.connecting == 0 && download.idle == 0 && download.busy == 0
}

impl FileDownload {
    /// Whether the connections have been counted: as many are busy as pieces are being
    /// downloaded, none waits while a piece is needed, and all go back to peers that
    /// were handed out.
    pub closed spec fn wf(&self) -> bool {
        &&& self.peers.wf()
        &&& self.queue.wf()
        &&& self.busy == count_of(self@.queue.pieces, PieceState::InFlight)
        &&& self@.idle > 0 ==> self@.queue.needed.len() == 0
        &&& self@.connecting + self@.idle + self@.busy <= self@.peers.next
    }

    /// The download of a file with some pieces from the given peers.
    pub fn new(peers: Peers, pieces_count: usize) -> (r: Result<Self, NoPeers>)
        ensures
            r is Ok <==> peers@.len() > 0,
            r matches Ok(download) ==> download.wf() && download@ == begun(
                peers@,
                pieces_count as nat,
            ),
    {
        let peers = PeerList::new(peers)?;
        let queue = PieceQueue::new(pieces_count);
        let r = FileDownload { peers, queue, connecting: 0, idle: 0, busy: 0 };
        proof {
            lemma_count_of_all(r@.queue.pieces, PieceState::InFlight);
        }
        Ok(r)
    }

    /// The peers to connect to at first.
    pub fn start(&mut self) -> (r: Vec<PeerAddr>)
        requires
            old(self).wf(),
            is_stuck(old(self)@),
        ensures
            final(self).wf(),
            final(self)@ == (FileDownloadView {
                peers: PeerListView { next: final(self)@.peers.next, ..old(self)@.peers },
                connecting: r@.len(),
                ..old(self)@
            }),
            final(self)@.peers.next == if old(self)@.peers.next + MAX_CONNECTED_PEERS <= old(
                self,
            )@.peers.peers.len() {
                old(self)@.peers.next + MAX_CONNECTED_PEERS as nat
            } else {
                old(self)@.peers.peers.len()
            },
            r@.len() == final(self)@.peers.next - old(self)@.peers.next,
            forall|i: int|
                0 <= i < r@.len() ==> (#[trigger] r@[i])@ == old(self)@.peers.peers[old(
                    self,
                )@.peers.next + i],
    {
        let group = self.peers.next_group();
        self.connecting = group.len();
        group
    }

    /// Takes note of a new connection, and gives it a piece to download. Without one it
    /// waits.
    pub fn connected(&mut self) -> (r: Option<usize>)
        requires
            old(self).wf(),
            old(self)@.connecting > 0,
        ensures
            final(self).wf(),
            final(self)@ == after_connected(old(self)@),
            if old(self)@.queue.needed.len() > 0 {
                r matches Some(piece) && piece == old(self)@.queue.needed[0]
            } else {
                r is None
            },
    {
        self.connecting = self.connecting - 1;
        self.assign()
    }

    /// Takes note that a peer could not be connected to. No other peer takes its place.
    pub fn not_connected(&mut self)
        requires
            old(self).wf(),
            old(self)@.connecting > 0,
        ensures
            final(self).wf(),
            final(self)@ == after_not_connected(old(self)@),
    {
        self.connecting = self.connecting - 1;
    }

    /// Takes note that a connection has downloaded a piece, and says what the connection
    /// does next.
    pub fn downloaded(&mut self, piece: usize) -> (r: Next)
        requires
            old(self).wf(),
            is_in_flight(old(self)@.queue, piece as nat),
        ensures
            final(self).wf(),
            final(self)@ == after_downloaded(old(self)@, piece as nat),
            if old(self)@.queue.needed.len() > 0 {
                r matches Next::Piece(next) && next == old(self)@.queue.needed[0]
            } else if is_finished(after_download(old(self)@.queue, piece as nat)) {
                r == Next::Finished
            } else {
                r == Next::Wait
            },
    {
        proof {
            lemma_leaves_flight(self@.queue, piece as nat, PieceState::Downloaded);
        }
        let finished = self.queue.piece_downloaded(piece);
        proof {
            self.queue.lemma_consistent();
            if finished && self@.queue.needed.len() > 0 {
                let p = self@.queue.needed[0] as int;
                assert(self@.queue.pieces[p] == PieceState::Needed);
            }
        }
        self.busy = self.busy - 1;
        match self.assign() {
            Some(piece) => Next::Piece(piece),
            None => if finished {
                Next::Finished
            } else {
                Next::Wait
            },
        }
    }

    /// Takes note that a connection has failed to download a piece.
    pub fn failed(&mut self, piece: usize) -> (r: Retry)
        requires
            old(self).wf(),
            is_in_flight(old(self)@.queue, piece as nat),
        ensures
            final(self).wf(),
            final(self)@ == after_next_peer(after_lost(old(self)@, piece as nat)),
            if old(self)@.idle > 0 {
                r.piece == Some(piece)
            } else {
                r.piece is None
            },
            if old(self)@.peers.next < old(self)@.peers.peers.len() {
                &&& r.peer matches Some(peer)
                &&& peer@ == old(self)@.peers.peers[old(self)@.peers.next as int]
            } else {
                r.peer is None
            },
    {
        proof {
            lemma_leaves_flight(self@.queue, piece as nat, PieceState::Needed);
        }
        self.queue.piece_failed(piece);
        self.busy = self.busy - 1;
        let retried = if self.idle > 0 {
            self.idle = self.idle - 1;
            self.assign()
        } else {
            None
        };
        assert(self@ == after_lost(old(self)@, piece as nat));
        let peer = self.peers.next();
        if peer.is_some() {
            self.connecting = self.connecting + 1;
        }
        assert(self@ =~= after_next_peer(after_lost(old(self)@, piece as nat)));
        Retry { piece: retried, peer }
    }

    /// Gives the next piece to a connection, or lets it wait if there is none.
    fn assign(&mut self) -> (r: Option<usize>)
        requires
            old(self).peers.wf(),
            old(self).queue.wf(),
            old(self).busy == count_of(old(self)@.queue.pieces, PieceState::InFlight),
            old(self)@.idle > 0 ==> old(self)@.queue.needed.len() <= 1,
            old(self)@.connecting + old(self)@.idle + old(self)@.busy < old(self)@.peers.next,
        ensures
            final(self).wf(),
            final(self)@ == after_assignment(old(self)@),
            if old(self)@.queue.needed.len() > 0 {
                r matches Some(piece) && piece == old(self)@.queue.needed[0]
            } else {
                r is None
            },
    {
        let ghost before = self@.queue;
        proof {
            self.queue.lemma_consistent();
        }
        match self.queue.take_piece() {
            None => {
                self.idle = self.idle + 1;
                None
            },
            Some(piece) => {
                proof {
                    assert(before.pieces[before.needed[0] as int] == PieceState::Needed);
                    lemma_count_of_update(
                        before.pieces,
                        piece as int,
                        PieceState::InFlight,
                        PieceState::InFlight,
                    );
                }
                self.busy = self.busy + 1;
                Some(piece)
            },
        }
    }

    /// Whether a piece is being downloaded.
    pub fn in_flight(&self, piece: usize) -> (r: bool)
        ensures
            r == is_in_flight(self@.queue, piece as nat),
    {
        self.queue.in_flight(piece)
    }

    /// How many peers are being connected to.
    pub fn connecting(&self) -> (r: usize)
        ensures
            r == self@.connecting,
    {
        self.connecting
    }

    /// Whether no piece can come any more.
    pub fn stuck(&self) -> (r: bool)
        ensures
            r == is_stuck(self@),
    {
        self.connecting == 0 && self.idle == 0 && self.busy == 0
    }

    /// The downloaded pieces, in the order in which they make up the file.
    pub fn downloaded_pieces(&self) -> (r: Vec<usize>)
        ensures
            forall|i: int, j: int| 0 <= i < j < r@.len() ==> r@[i] < r@[j],
            forall|p: usize| #[trigger]
                r@.contains(p) <==> p < self@.queue.pieces.len() && self@.queue.pieces[p as int]
                    == PieceState::Downloaded,
            is_finished(self@.queue) ==> r@ == Seq::new(
                self@.queue.pieces.len(),
                |i: int| i as usize,
            ),
    {
        self.queue.downloaded_pieces()
    }
}

/// A piece that is not downloaded any more is one less of those that are.
proof fn lemma_leaves_flight(queue: PieceQueueView, piece: nat, state: PieceState)
    requires
        is_in_flight(queue, piece),
        state != PieceState::InFlight,
    ensures
        count_of(queue.pieces, PieceState::InFlight) > 0,
        count_of(queue.pieces.update(piece as int, state), PieceState::InFlight) + 1 == count_of(
            queue.pieces,
            PieceState::InFlight,
        ),
{
    lemma_count_of_update(queue.pieces, piece as int, state, PieceState::InFlight);
}

/// The download never comes to a standstill by itself: as long as a piece is missing and
/// somebody is connected to, some piece is being downloaded. A connection waits only
/// while no piece is needed.
pub proof fn law_connections_are_used(download: FileDownload)
    requires
        download.wf(),
    ensures
        !is_finished(download@.queue) && download@.idle + download@.busy > 0 ==> exists|p: nat|
            is_in_flight(download@.queue, p),
        download@.idle > 0 ==> download@.queue.needed.len() == 0,
{
    download.queue.lemma_consistent();
    let pieces = download@.queue.pieces;
    lemma_count_of_all(pieces, PieceState::InFlight);
    if !is_finished(download@.queue) && download@.idle + download@.busy > 0 {
        if download@.busy > 0 {
            let p = choose|p: int|
                0 <= p < pieces.len() && #[trigger] pieces[p] == PieceState::InFlight;
            assert(is_in_flight(download@.queue, p as nat));
        } else {
            let p = choose|p: int|
                0 <= p < pieces.len() && #[trigger] pieces[p] != PieceState::Downloaded;
            if pieces[p] == PieceState::Needed {
                assert(pieces[(p as nat) as int] == PieceState::Needed);
                assert(download@.queue.needed.contains(p as nat));
            }
            assert(is_in_flight(download@.queue, p as nat));
        }
    }
}

/// Every connection downloads at most one piece, and every piece that is being
/// downloaded has a connection. No more connections are made than there are peers.
pub proof fn law_one_connection_for_each_piece(download: FileDownload)
    requires
        download.wf(),
    ensures
        download@.busy == count_of(download@.queue.pieces, PieceState::InFlight),
        download@.connecting + download@.idle + download@.busy <= download@.peers.next
            <= download@.peers.peers.len(),
{
}

/// A piece whose download has failed is not lost: a waiting connection downloads it, or
/// it waits in the queue.
pub proof fn law_failed_piece_is_kept(download: FileDownload, piece: nat)
    requires
        download.wf(),
        is_in_flight(download@.queue, piece),
    ensures
        download@.idle > 0 ==> is_in_flight(
            after_next_peer(after_lost(download@, piece)).queue,
            piece,
        ),
        download@.idle == 0 ==> after_next_peer(
            after_lost(download@, piece),
        ).queue.needed.last() == piece,
{
    let lost = after_failure(download@.queue, piece);
    if download@.idle > 0 {
        assert(lost.needed[0] == piece);
    }
}

/// The download is given up exactly when no piece can come any more: nobody is being
/// connected to, no connection waits, and no piece is being downloaded.
pub proof fn law_stuck(download: FileDownload)
    requires
        download.wf(),
    ensures
        is_stuck(download@) <==> download@.connecting == 0 && download@.idle == 0 && forall|p: int|
            0 <= p < download@.queue.pieces.len() ==> #[trigger] download@.queue.pieces[p]
                != PieceState::InFlight,
        download@.busy > 0 ==> !is_stuck(download@),
        is_stuck(download@) ==> forall|p: nat| !is_in_flight(download@.queue, p),
{
    lemma_count_of_all(download@.queue.pieces, PieceState::InFlight);
}

/// A piece that is being downloaded keeps the download going, whoever else is lost.
pub proof fn law_piece_in_flight_keeps_going(download: FileDownload, piece: nat)
    requires
        download.wf(),
        piece < download@.queue.pieces.len(),
        download@.queue.pieces[piece as int] == PieceState::InFlight,
    ensures
        !is_stuck(download@),
        download@.busy > 0,
        download@.connecting > 0 ==> !is_stuck(after_not_connected(download@)),
        !is_stuck(after_downloaded(download@, piece)),
{
    lemma_count_of_all(download@.queue.pieces, PieceState::InFlight);
}

/// A connection that is lost does not end the download while another one waits, works or
/// is being made, or while a peer is left to connect to.
pub proof fn law_lost_connection(download: FileDownload, piece: nat)
    requires
        download.wf(),
        is_in_flight(download@.queue, piece),
    ensures
        is_stuck(after_next_peer(after_lost(download@, piece))) <==> download@.connecting == 0
            && download@.idle == 0 && download@.busy == 1 && download@.peers.next
            == download@.peers.peers.len(),
{
    lemma_leaves_flight(download@.queue, piece, PieceState::Needed);
}

/// At the beginning no peer has been connected to and every piece is needed, in its order.
pub proof fn law_begun(peers: Seq<PeerAddrView>, pieces_count: nat)
    ensures
        begun(peers, pieces_count).peers.peers == peers,
        begun(peers, pieces_count).peers.next == 0,
        begun(peers, pieces_count).queue == all_needed(pieces_count),
        begun(peers, pieces_count).connecting == 0,
        begun(peers, pieces_count).idle == 0,
        begun(peers, pieces_count).busy == 0,
{
}

/// A peer that is connected to is a connection: one that works if a piece is needed, and
/// one that waits if not. The piece it gets is the one that has waited longest.
pub proof fn law_connected(download: FileDownloadView)
    requires
        download.connecting > 0,
    ensures
        ({
            let after = after_connected(download);
            &&& after.connecting == download.connecting - 1
            &&& after.peers == download.peers
            &&& download.queue.needed.len() > 0 ==> after.busy == download.busy + 1 && after.idle
                == download.idle && after.queue.needed == download.queue.needed.skip(1)
                && after.queue.pieces == download.queue.pieces.update(
                download.queue.needed[0] as int,
                PieceState::InFlight,
            )
            &&& download.queue.needed.len() == 0 ==> after.busy == download.busy && after.idle
                == download.idle + 1 && after.queue == download.queue
        }),
{
}

/// A peer that cannot be connected to is no connection, and changes nothing else.
pub proof fn law_not_connected(download: FileDownloadView)
    requires
        download.connecting > 0,
    ensures
        ({
            let after = after_not_connected(download);
            &&& after.connecting == download.connecting - 1
            &&& after.idle == download.idle
            &&& after.busy == download.busy
            &&& after.peers == download.peers
            &&& after.queue == download.queue
        }),
{
}

/// A connection that has downloaded a piece stays one: it goes on with the piece that has
/// waited longest, or waits. The piece is downloaded.
pub proof fn law_downloaded(download: FileDownload, piece: nat)
    requires
        download.wf(),
        is_in_flight(download@.queue, piece),
    ensures
        ({
            let after = after_downloaded(download@, piece);
            &&& after.queue.pieces[piece as int] == PieceState::Downloaded
            &&& after.connecting == download@.connecting
            &&& after.idle + after.busy == download@.idle + download@.busy
            &&& after.peers == download@.peers
            &&& download@.queue.needed.len() > 0 ==> after.busy == download@.busy
                && after.queue.needed == download@.queue.needed.skip(1)
                && after.queue.pieces[download@.queue.needed[0] as int] == PieceState::InFlight
            &&& download@.queue.needed.len() == 0 ==> after.busy == download@.busy - 1
                && after.queue.needed.len() == 0
        }),
{
    download.queue.lemma_consistent();
    lemma_leaves_flight(download@.queue, piece, PieceState::Downloaded);
    if download@.queue.needed.len() > 0 {
        assert(download@.queue.pieces[download@.queue.needed[0] as int] == PieceState::Needed);
    }
}

/// A connection that has failed is given up. Its piece is downloaded by a connection that
/// waits, if there is one, and is needed again if not; and the next peer is connected to, if
/// one is left.
pub proof fn law_failed(download: FileDownload, piece: nat)
    requires
        download.wf(),
        is_in_flight(download@.queue, piece),
    ensures
        ({
            let after = after_next_peer(after_lost(download@, piece));
            let left = download@.peers.next < download@.peers.peers.len();
            &&& after.idle + after.busy == download@.idle + download@.busy - 1
            &&& after.connecting == download@.connecting + if left {
                1int
            } else {
                0
            }
            &&& after.peers.peers == download@.peers.peers
            &&& after.peers.next == download@.peers.next + if left {
                1int
            } else {
                0
            }
            &&& download@.idle > 0 ==> after.queue.pieces == download@.queue.pieces && after.idle
                == download@.idle - 1
            &&& download@.idle == 0 ==> after.queue.pieces == download@.queue.pieces.update(
                piece as int,
                PieceState::Needed,
            ) && after.queue.needed == download@.queue.needed + seq![piece] && after.busy
                == download@.busy - 1
        }),
{
    lemma_leaves_flight(download@.queue, piece, PieceState::Needed);
    let after = after_next_peer(after_lost(download@, piece));
    if download@.idle > 0 {
        assert(after_failure(download@.queue, piece).needed[0] == piece);
        assert(after.queue.pieces =~= download@.queue.pieces);
    } else {
        assert(after.queue.needed =~= download@.queue.needed + seq![piece]);
    }
}

/// No event takes back a piece that has been downloaded.
pub proof fn law_downloaded_is_kept(download: FileDownload, piece: nat, p: int)
    requires
        download.wf(),
        is_in_flight(download@.queue, piece),
        0 <= p < download@.queue.pieces.len(),
        download@.queue.pieces[p] == PieceState::Downloaded,
    ensures
        after_connected(download@).queue.pieces[p] == PieceState::Downloaded,
        after_downloaded(download@, piece).queue.pieces[p] == PieceState::Downloaded,
        after_next_peer(after_lost(download@, piece)).queue.pieces[p] == PieceState::Downloaded,
{
    download.queue.lemma_consistent();
    if download@.queue.needed.len() > 0 {
        assert(download@.queue.pieces[download@.queue.needed[0] as int] == PieceState::Needed);
    }
    if download@.idle > 0 {
        assert(after_failure(download@.queue, piece).needed[0] == piece);
    }
}

} // verus!
