//! One client connection: the shared state of its two duties, and the
//! reaper's bookkeeping of connections per room.
//!
//! A connection runs a reader duty (inbound frames become Broadcast
//! commands) and a writer duty (queued messages go out on the transport).
//! The duties share one cooperative cancellation flag: whichever duty stops
//! first — transport close, decode error, write failure — raises the flag,
//! the other unwinds at its next step, and the connection's Leave command is
//! issued exactly once between the two.

use vstd::prelude::*;

verus! {

/// Mathematical image of a [`Connection`].
pub ghost struct ConnectionView {
    pub connection_id: u64,
    pub username: Seq<char>,
    pub room_id: Seq<char>,
    pub cancelled: bool,
    pub leave_issued: bool,
    pub reader_done: bool,
    pub writer_done: bool,
}

/// The state both duties of one connection share.
pub struct Connection {
    connection_id: u64,
    username: String,
    room_id: String,
    cancelled: bool,
    leave_issued: bool,
    reader_done: bool,
    writer_done: bool,
}

impl View for Connection {
    type V = ConnectionView;

    closed spec fn view(&self) -> ConnectionView {
        ConnectionView {
            connection_id: self.connection_id,
            username: self.username@,
            room_id: self.room_id@,
            cancelled: self.cancelled,
            leave_issued: self.leave_issued,
            reader_done: self.reader_done,
            writer_done: self.writer_done,
        }
    }
}

/// A connection is disconnected once both its duties have exited.
pub open spec fn disconnected(c: ConnectionView) -> bool {
    c.reader_done && c.writer_done
}

/// One inbound transport frame, as the reader duty sees it: a decoded text
/// frame, one of the frame kinds the reader lets pass, the peer's close, or
/// a frame that would not decode.
pub enum InboundFrame {
    Text(String),
    Binary,
    Ping,
    Pong,
    Continuation,
    Nop,
    Close,
    DecodeError,
}

/// What the reader duty does with one inbound frame.
pub enum ReaderAction {
    /// Submit this text as a Broadcast command to the owning room.
    Forward { content: String },
    /// Exit the duty; [`Connection::finish_reader`] follows.
    Exit,
    /// Let the frame pass.
    Ignore,
}

/// The duty-exit transition: the exiting duty raises the shared
/// cancellation flag and claims the Leave if nobody has.
pub open spec fn duty_exit(c: ConnectionView, reader: bool) -> ConnectionView {
    ConnectionView {
        cancelled: true,
        leave_issued: true,
        reader_done: c.reader_done || reader,
        writer_done: c.writer_done || !reader,
        ..c
    }
}

/// Whichever duty exits first issues the Leave; the exit of the other duty,
/// and any further exit, issues nothing, so the Leave is issued exactly
/// once however the two duties' failures interleave.  After both exits the
/// connection counts as disconnected.
pub proof fn lemma_leave_exactly_once(c: ConnectionView, first_is_reader: bool)
    requires
        !c.leave_issued,
    ensures
        duty_exit(c, first_is_reader).leave_issued,
        duty_exit(c, first_is_reader).cancelled,
        disconnected(duty_exit(duty_exit(c, first_is_reader), !first_is_reader)),
{
}

impl Connection {
    /// A fresh connection, both duties live, nothing cancelled or issued.
    pub fn new(connection_id: u64, username: String, room_id: String) -> (c: Connection)
        ensures
            c@ == (ConnectionView {
                connection_id,
                username: username@,
                room_id: room_id@,
                cancelled: false,
                leave_issued: false,
                reader_done: false,
                writer_done: false,
            }),
    {
        Connection {
            connection_id,
            username,
            room_id,
            cancelled: false,
            leave_issued: false,
            reader_done: false,
            writer_done: false,
        }
    }

    /// The granted connection identifier.
    pub fn connection_id(&self) -> (id: u64)
        ensures
            id == self@.connection_id,
    {
        self.connection_id
    }

    /// The username this connection speaks as.
    pub fn username(&self) -> (u: &String)
        ensures
            u@ == self@.username,
    {
        &self.username
    }

    /// The room this connection joined.
    pub fn room_id(&self) -> (r: &String)
        ensures
            r@ == self@.room_id,
    {
        &self.room_id
    }

    /// Whether the shared cancellation flag is raised.
    pub fn is_cancelled(&self) -> (b: bool)
        ensures
            b == self@.cancelled,
    {
        self.cancelled
    }

    /// Whether both duties have exited.
    pub fn is_disconnected(&self) -> (b: bool)
        ensures
            b == disconnected(self@),
    {
        self.reader_done && self.writer_done
    }

    /// The reader duty's decision on one inbound frame: under a raised
    /// cancellation flag the duty exits; otherwise a text frame is forwarded
    /// as broadcast content, the peer's close and a decode failure end the
    /// duty, and every other frame kind passes.
    pub fn on_inbound(&self, frame: InboundFrame) -> (a: ReaderAction)
        ensures
            self@.cancelled ==> a is Exit,
            !self@.cancelled ==> match frame {
                InboundFrame::Text(t) => a matches ReaderAction::Forward { content } && content
                    == t,
                InboundFrame::Close => a is Exit,
                InboundFrame::DecodeError => a is Exit,
                _ => a is Ignore,
            },
    {
        if self.cancelled {
            return ReaderAction::Exit;
        }
        match frame {
            InboundFrame::Text(t) => ReaderAction::Forward { content: t },
            InboundFrame::Close => ReaderAction::Exit,
            InboundFrame::DecodeError => ReaderAction::Exit,
            _ => ReaderAction::Ignore,
        }
    }

    /// The writer duty's decision before writing one dequeued message: write
    /// it unless the cancellation flag is raised.
    pub fn should_write(&self) -> (b: bool)
        ensures
            b == !self@.cancelled,
    {
        !self.cancelled
    }

    /// The reader duty's exit: raises the shared flag so the writer unwinds
    /// at its next step, and claims the Leave exactly when nobody has yet.
    pub fn finish_reader(&mut self) -> (issue_leave: bool)
        ensures
            final(self)@ == duty_exit(old(self)@, true),
            issue_leave == !old(self)@.leave_issued,
    {
        self.cancelled = true;
        self.reader_done = true;
        let issue_leave = !self.leave_issued;
        self.leave_issued = true;
        issue_leave
    }

    /// The writer duty's exit, on write failure or a drained, closed queue:
    /// raises the shared flag so the reader unwinds at its next step, and
    /// claims the Leave exactly when nobody has yet.
    pub fn finish_writer(&mut self) -> (issue_leave: bool)
        ensures
            final(self)@ == duty_exit(old(self)@, false),
            issue_leave == !old(self)@.leave_issued,
    {
        self.cancelled = true;
        self.writer_done = true;
        let issue_leave = !self.leave_issued;
        self.leave_issued = true;
        issue_leave
    }
}

/// One tracked connection in the reaper's index.
#[derive(Clone, Copy, Debug, PartialEq, Eq, Structural)]
pub struct ConnRecord {
    /// The tracked connection's identifier.
    pub connection_id: u64,
    /// Whether both duties of that connection have exited.
    pub disconnected: bool,
}

/// One room's tracked connections.
pub struct IndexEntry {
    room_id: String,
    connections: Vec<ConnRecord>,
}

/// Mathematical image of an [`IndexEntry`].
pub ghost struct IndexEntryView {
    pub room_id: Seq<char>,
    pub connections: Seq<ConnRecord>,
}

impl View for IndexEntry {
    type V = IndexEntryView;

    closed spec fn view(&self) -> IndexEntryView {
        IndexEntryView { room_id: self.room_id@, connections: self.connections@ }
    }
}

/// Whether the index holds an entry for this room identifier.
pub open spec fn has_entry(entries: Seq<IndexEntryView>, room_id: Seq<char>) -> bool {
    exists|i: int| 0 <= i < entries.len() && (#[trigger] entries[i]).room_id == room_id
}

/// The index of that entry.
pub open spec fn entry_index(entries: Seq<IndexEntryView>, room_id: Seq<char>) -> int {
    choose|i: int| 0 <= i < entries.len() && (#[trigger] entries[i]).room_id == room_id
}

/// Entry room identifiers appear at most once.
pub open spec fn unique_entries(entries: Seq<IndexEntryView>) -> bool {
    forall|i: int, j: int|
        0 <= i < j < entries.len() ==> (#[trigger] entries[i]).room_id != (
        #[trigger] entries[j]).room_id
}

/// One record after a disconnect notice for `connection_id`.
pub open spec fn marked_record(r: ConnRecord, connection_id: u64) -> ConnRecord {
    if r.connection_id == connection_id {
        ConnRecord { connection_id: r.connection_id, disconnected: true }
    } else {
        r
    }
}

/// One entry after a disconnect notice for `connection_id`.
pub open spec fn marked_entry(e: IndexEntryView, connection_id: u64) -> IndexEntryView {
    IndexEntryView {
        room_id: e.room_id,
        connections: e.connections.map_values(|r: ConnRecord| marked_record(r, connection_id)),
    }
}

/// The records that survive one reaper pass: exactly those not
/// disconnected, in order.
pub open spec fn live_records(conns: Seq<ConnRecord>) -> Seq<ConnRecord>
    decreases conns.len(),
{
    if conns.len() == 0 {
        Seq::empty()
    } else {
        let rest = live_records(conns.drop_last());
        if conns.last().disconnected {
            rest
        } else {
            rest.push(conns.last())
        }
    }
}

/// The entries that survive one reaper pass: each entry keeps exactly its
/// live records, and an entry with none left is dropped, in order.
pub open spec fn swept_entries(entries: Seq<IndexEntryView>) -> Seq<IndexEntryView>
    decreases entries.len(),
{
    if entries.len() == 0 {
        Seq::empty()
    } else {
        let rest = swept_entries(entries.drop_last());
        let live = live_records(entries.last().connections);
        if live.len() == 0 {
            rest
        } else {
            rest.push(IndexEntryView { room_id: entries.last().room_id, connections: live })
        }
    }
}

/// Every entry surviving a sweep keeps the room identifier of one of the
/// swept entries.
pub proof fn lemma_swept_sub(entries: Seq<IndexEntryView>)
    ensures
        forall|j: int|
            0 <= j < swept_entries(entries).len() ==> exists|w: int|
                0 <= w < entries.len() && (#[trigger] swept_entries(entries)[j]).room_id
                    == entries[w].room_id,
    decreases entries.len(),
{
    if entries.len() > 0 {
        let s = entries.drop_last();
        lemma_swept_sub(s);
        assert(forall|j: int| 0 <= j < s.len() ==> #[trigger] s[j] == entries[j]);
        assert forall|j: int| 0 <= j < swept_entries(entries).len() implies exists|w: int|
            0 <= w < entries.len() && (#[trigger] swept_entries(entries)[j]).room_id
                == entries[w].room_id by {
            if j < swept_entries(s).len() {
                assert(swept_entries(entries)[j] == swept_entries(s)[j]);
                let w = choose|w: int|
                    0 <= w < s.len() && swept_entries(s)[j].room_id == s[w].room_id;
                assert(swept_entries(entries)[j].room_id == entries[w].room_id);
            } else {
                assert(swept_entries(entries)[j].room_id == entries[entries.len() - 1].room_id);
            }
        }
    }
}

/// A sweep of entries with unique room identifiers leaves unique room
/// identifiers.
pub proof fn lemma_swept_unique(entries: Seq<IndexEntryView>)
    requires
        unique_entries(entries),
    ensures
        unique_entries(swept_entries(entries)),
    decreases entries.len(),
{
    if entries.len() > 0 {
        let s = entries.drop_last();
        assert(forall|j: int| 0 <= j < s.len() ==> #[trigger] s[j] == entries[j]);
        lemma_swept_unique(s);
        lemma_swept_sub(s);
        let live = live_records(entries.last().connections);
        if live.len() != 0 {
            assert forall|i: int, j: int|
                0 <= i < j < swept_entries(entries).len() implies (
            #[trigger] swept_entries(entries)[i]).room_id != (
            #[trigger] swept_entries(entries)[j]).room_id by {
                if j == swept_entries(entries).len() - 1 {
                    assert(swept_entries(entries)[i] == swept_entries(s)[i]);
                    let w = choose|w: int|
                        0 <= w < s.len() && swept_entries(s)[i].room_id == s[w].room_id;
                    assert(entries[w].room_id != entries[entries.len() - 1].room_id);
                } else {
                    assert(swept_entries(entries)[i] == swept_entries(s)[i]);
                    assert(swept_entries(entries)[j] == swept_entries(s)[j]);
                }
            }
        }
    }
}

/// Every record surviving a record sweep is live.
pub proof fn lemma_live_records_live(conns: Seq<ConnRecord>)
    ensures
        forall|j: int|
            0 <= j < live_records(conns).len() ==> !(#[trigger] live_records(conns)[j]).disconnected,
    decreases conns.len(),
{
    if conns.len() > 0 {
        let s = conns.drop_last();
        lemma_live_records_live(s);
        assert forall|j: int| 0 <= j < live_records(conns).len() implies !(
        #[trigger] live_records(conns)[j]).disconnected by {
            if j < live_records(s).len() {
                assert(live_records(conns)[j] == live_records(s)[j]);
            } else {
                assert(live_records(conns)[j] == conns.last());
            }
        }
    }
}

/// A sweep of records all of which are live keeps every record.
pub proof fn lemma_live_records_fixed(conns: Seq<ConnRecord>)
    requires
        forall|j: int| 0 <= j < conns.len() ==> !(#[trigger] conns[j]).disconnected,
    ensures
        live_records(conns) == conns,
    decreases conns.len(),
{
    if conns.len() > 0 {
        let s = conns.drop_last();
        assert(forall|j: int| 0 <= j < s.len() ==> #[trigger] s[j] == conns[j]);
        lemma_live_records_fixed(s);
        assert(!conns[conns.len() - 1].disconnected);
        assert(s.push(conns.last()) =~= conns);
    }
}

/// Every entry surviving an entry sweep holds live records only, and at
/// least one.
pub proof fn lemma_swept_entries_live(entries: Seq<IndexEntryView>)
    ensures
        forall|j: int|
            0 <= j < swept_entries(entries).len() ==> {
                let e = #[trigger] swept_entries(entries)[j];
                e.connections.len() > 0 && forall|r: int|
                    0 <= r < e.connections.len() ==> !(#[trigger] e.connections[r]).disconnected
            },
    decreases entries.len(),
{
    if entries.len() > 0 {
        let s = entries.drop_last();
        lemma_swept_entries_live(s);
        lemma_live_records_live(entries.last().connections);
        assert forall|j: int| 0 <= j < swept_entries(entries).len() implies {
            let e = #[trigger] swept_entries(entries)[j];
            e.connections.len() > 0 && forall|r: int|
                0 <= r < e.connections.len() ==> !(#[trigger] e.connections[r]).disconnected
        } by {
            if j < swept_entries(s).len() {
                assert(swept_entries(entries)[j] == swept_entries(s)[j]);
            }
        }
    }
}

/// A sweep of entries whose records are all live keeps every entry whole.
pub proof fn lemma_swept_entries_fixed(entries: Seq<IndexEntryView>)
    requires
        forall|j: int|
            0 <= j < entries.len() ==> {
                let e = #[trigger] entries[j];
                e.connections.len() > 0 && forall|r: int|
                    0 <= r < e.connections.len() ==> !(#[trigger] e.connections[r]).disconnected
            },
    ensures
        swept_entries(entries) == entries,
    decreases entries.len(),
{
    if entries.len() > 0 {
        let s = entries.drop_last();
        assert(forall|j: int| 0 <= j < s.len() ==> #[trigger] s[j] == entries[j]);
        lemma_swept_entries_fixed(s);
        let e = entries[entries.len() - 1];
        lemma_live_records_fixed(e.connections);
        assert(entries.last() == e);
        assert((IndexEntryView { room_id: e.room_id, connections: live_records(e.connections) })
            == e);
        assert(s.push(entries.last()) =~= entries);
    }
}

/// The connection pass is idempotent: a second sweep changes nothing.
pub proof fn lemma_swept_entries_idempotent(entries: Seq<IndexEntryView>)
    ensures
        swept_entries(swept_entries(entries)) == swept_entries(entries),
{
    lemma_swept_entries_live(entries);
    lemma_swept_entries_fixed(swept_entries(entries));
}

/// The reaper's per-room bookkeeping of connections, used only for
/// sweeping, never for business logic.
pub struct ConnectionIndex {
    entries: Vec<IndexEntry>,
}

impl View for ConnectionIndex {
    type V = Seq<IndexEntryView>;

    closed spec fn view(&self) -> Seq<IndexEntryView> {
        self.entries@.map_values(|e: IndexEntry| e@)
    }
}

impl ConnectionIndex {
    /// The index invariant: one entry per room identifier.
    pub closed spec fn wf(&self) -> bool {
        unique_entries(self@)
    }

    /// An empty index.
    pub fn new() -> (idx: ConnectionIndex)
        ensures
            idx.wf(),
            idx@ == Seq::<IndexEntryView>::empty(),
    {
        let idx = ConnectionIndex { entries: Vec::new() };
        proof {
            assert(idx@ =~= Seq::<IndexEntryView>::empty());
        }
        idx
    }

    /// The position of the entry for this room identifier, if any.
    fn find_entry(&self, room_id: &String) -> (r: Option<usize>)
        requires
            self.wf(),
        ensures
            match r {
                Some(i) => i < self@.len() && self@[i as int].room_id == room_id@ && i as int
                    == entry_index(self@, room_id@),
                None => !has_entry(self@, room_id@),
            },
    {
        let ghost entries = self@;
        let n = self.entries.len();
        let mut i: usize = 0;
        while i < n
            invariant
                n == entries.len(),
                i <= n,
                self.wf(),
                entries == self@,
                forall|j: int| 0 <= j < i ==> (#[trigger] entries[j]).room_id != room_id@,
            decreases n - i,
        {
            if self.entries[i].room_id.eq(room_id) {
                proof {
                    assert(entries[i as int].room_id == room_id@);
                    let k = entry_index(entries, room_id@);
                    assert(0 <= k < entries.len() && entries[k].room_id == room_id@);
                    assert(k == i as int);
                }
                return Some(i);
            }
            i += 1;
        }
        None
    }

    /// Tracks one connection under its room: appended to the room's entry,
    /// or opening a fresh entry for a room not yet tracked.
    pub fn track(&mut self, room_id: String, connection_id: u64)
        requires
            old(self).wf(),
        ensures
            final(self).wf(),
            has_entry(old(self)@, room_id@) ==> final(self)@ == old(self)@.update(
                entry_index(old(self)@, room_id@),
                IndexEntryView {
                    room_id: room_id@,
                    connections: old(self)@[entry_index(old(self)@, room_id@)].connections.push(
                        ConnRecord { connection_id, disconnected: false },
                    ),
                },
            ),
            !has_entry(old(self)@, room_id@) ==> final(self)@ == old(self)@.push(
                IndexEntryView {
                    room_id: room_id@,
                    connections: seq![ConnRecord { connection_id, disconnected: false }],
                },
            ),
    {
        let ghost entries0 = self@;
        let record = ConnRecord { connection_id, disconnected: false };
        match self.find_entry(&room_id) {
            Some(i) => {
                let ghost k = i as int;
                let mut entry = self.entries.remove(i);
                proof {
                    assert(entry@ == entries0[k]);
                }
                entry.connections.push(record);
                self.entries.insert(i, entry);
                proof {
                    assert(forall|j: int|
                        0 <= j < entries0.len() && j != k ==> #[trigger] self.entries@[j]@
                            == entries0[j]);
                    assert(self@ =~= entries0.update(
                        k,
                        IndexEntryView {
                            room_id: room_id@,
                            connections: entries0[k].connections.push(record),
                        },
                    ));
                }
            },
            None => {
                let entry = IndexEntry { room_id, connections: vec![record] };
                self.entries.push(entry);
                proof {
                    assert(forall|j: int|
                        0 <= j < entries0.len() ==> #[trigger] self.entries@[j]@ == entries0[j]);
                    assert(self@[entries0.len() as int].connections =~= seq![record]);
                    assert(self@ =~= entries0.push(
                        IndexEntryView {
                            room_id: self@[entries0.len() as int].room_id,
                            connections: seq![record],
                        },
                    ));
                }
            },
        }
    }

    /// Notes that a connection has fully disconnected: every record of that
    /// identifier, in whatever entry, is marked; nothing is removed yet —
    /// removal is the reaper's.
    pub fn mark_disconnected(&mut self, connection_id: u64)
        requires
            old(self).wf(),
        ensures
            final(self).wf(),
            final(self)@ == old(self)@.map_values(
                |e: IndexEntryView| marked_entry(e, connection_id),
            ),
    {
        let ghost entries0 = self@;
        let ghost markf = |e: IndexEntryView| marked_entry(e, connection_id);
        let mut done: Vec<IndexEntry> = Vec::new();
        proof {
            assert(done@.map_values(|e: IndexEntry| e@) =~= entries0.take(0).map_values(markf));
        }
        while self.entries.len() > 0
            invariant
                done@.len() + self.entries@.len() == entries0.len(),
                self.entries@.map_values(|e: IndexEntry| e@) =~= entries0.skip(done@.len() as int),
                done@.map_values(|e: IndexEntry| e@) =~= entries0.take(done@.len() as int).map_values(
                    markf,
                ),
                forall|e: IndexEntryView| #[trigger] markf(e) == marked_entry(e, connection_id),
            decreases self.entries@.len(),
        {
            let ghost k = done@.len() as int;
            let ghost before = self.entries@;
            proof {
                assert(before.map_values(|e: IndexEntry| e@)[0] == entries0.skip(k)[0]);
                assert(entries0.skip(k)[0] == entries0[k]);
            }
            let mut entry = self.entries.remove(0);
            assert(entry@ == entries0[k]);
            let ghost conns0 = entry@.connections;
            let mut marked: Vec<ConnRecord> = Vec::new();
            let ghost recf = |r: ConnRecord| marked_record(r, connection_id);
            let n = entry.connections.len();
            let mut i: usize = 0;
            proof {
                assert(marked@ =~= conns0.take(0).map_values(recf));
            }
            while i < n
                invariant
                    n == entry.connections@.len(),
                    i <= n,
                    i == marked@.len(),
                    entry.connections@ == conns0,
                    marked@ =~= conns0.take(i as int).map_values(recf),
                    forall|r: ConnRecord| #[trigger] recf(r) == marked_record(r, connection_id),
                decreases n - i,
            {
                let r = entry.connections[i];
                if r.connection_id == connection_id {
                    marked.push(ConnRecord { connection_id: r.connection_id, disconnected: true });
                } else {
                    marked.push(r);
                }
                proof {
                    assert(marked@[i as int] == recf(conns0[i as int]));
                    assert(marked@ =~= conns0.take(i + 1).map_values(recf));
                }
                i += 1;
            }
            proof {
                assert(conns0.take(n as int) =~= conns0);
            }
            entry.connections = marked;
            proof {
                assert(entry@.connections =~= conns0.map_values(recf));
                assert(entry@ == markf(entries0[k]));
            }
            done.push(entry);
            proof {
                assert(done@.map_values(|e: IndexEntry| e@) =~= entries0.take(k + 1).map_values(
                    markf,
                )) by {
                    assert(done@[k]@ == markf(entries0[k]));
                    assert(forall|j: int|
                        0 <= j < k ==> #[trigger] done@[j]@ == entries0.take(k).map_values(
                            markf,
                        )[j]);
                }
                assert forall|w: int| 0 <= w < self.entries@.len() implies (
                #[trigger] self.entries@[w])@ == entries0.skip(k + 1)[w] by {
                    assert(self.entries@[w] == before[w + 1]);
                    assert(before.map_values(|e: IndexEntry| e@)[w + 1] == before[w + 1]@);
                    assert(before.map_values(|e: IndexEntry| e@)[w + 1] == entries0.skip(k)[w + 1]);
                }
                assert(self.entries@.map_values(|e: IndexEntry| e@) =~= entries0.skip(k + 1));
            }
        }
        proof {
            assert(entries0.take(entries0.len() as int) =~= entries0);
        }
        self.entries = done;
        proof {
            assert(self@ =~= entries0.map_values(markf));
            assert forall|i: int, j: int|
                0 <= i < j < self@.len() implies (#[trigger] self@[i]).room_id != (
            #[trigger] self@[j]).room_id by {
                assert(self@[i] == markf(entries0[i]));
                assert(self@[j] == markf(entries0[j]));
            }
        }
    }

    /// The reaper's connection pass: drops every disconnected record, and a
    /// room's whole entry once no record is left — exactly that, nothing
    /// else, so running it twice is the same as running it once.
    pub fn remove_disconnected(&mut self)
        requires
            old(self).wf(),
        ensures
            final(self).wf(),
            final(self)@ == swept_entries(old(self)@),
    {
        let ghost entries0 = self@;
        let mut kept: Vec<IndexEntry> = Vec::new();
        proof {
            assert(entries0.take(0) =~= Seq::<IndexEntryView>::empty());
            assert(kept@.map_values(|e: IndexEntry| e@) =~= swept_entries(entries0.take(0)));
        }
        while self.entries.len() > 0
            invariant
                kept@.len() + self.entries@.len() <= entries0.len() + entries0.len(),
                self.entries@.len() <= entries0.len(),
                self.entries@.map_values(|e: IndexEntry| e@) =~= entries0.skip(
                    entries0.len() - self.entries@.len(),
                ),
                kept@.map_values(|e: IndexEntry| e@) =~= swept_entries(
                    entries0.take(entries0.len() - self.entries@.len()),
                ),
            decreases self.entries@.len(),
        {
            let ghost k = entries0.len() - self.entries@.len();
            let ghost before = self.entries@;
            proof {
                assert(before.map_values(|e: IndexEntry| e@)[0] == entries0.skip(k)[0]);
                assert(entries0.skip(k)[0] == entries0[k]);
            }
            let mut entry = self.entries.remove(0);
            assert(entry@ == entries0[k]);
            let ghost conns0 = entry@.connections;
            let mut live: Vec<ConnRecord> = Vec::new();
            let n = entry.connections.len();
            let mut i: usize = 0;
            proof {
                assert(conns0.take(0) =~= Seq::<ConnRecord>::empty());
                assert(live@ =~= live_records(conns0.take(0)));
            }
            while i < n
                invariant
                    n == entry.connections@.len(),
                    i <= n,
                    entry.connections@ == conns0,
                    live@ =~= live_records(conns0.take(i as int)),
                decreases n - i,
            {
                proof {
                    assert(conns0.take(i + 1).drop_last() =~= conns0.take(i as int));
                    assert(conns0.take(i + 1).last() == conns0[i as int]);
                }
                let r = entry.connections[i];
                if !r.disconnected {
                    live.push(r);
                }
                proof {
                    assert(live@ =~= live_records(conns0.take(i + 1)));
                }
                i += 1;
            }
            proof {
                assert(conns0.take(n as int) =~= conns0);
                assert(entries0.take(k + 1).drop_last() =~= entries0.take(k));
                assert(entries0.take(k + 1).last() == entries0[k]);
            }
            proof {
                assert forall|w: int| 0 <= w < self.entries@.len() implies (
                #[trigger] self.entries@[w])@ == entries0.skip(k + 1)[w] by {
                    assert(self.entries@[w] == before[w + 1]);
                    assert(before.map_values(|e: IndexEntry| e@)[w + 1] == before[w + 1]@);
                    assert(before.map_values(|e: IndexEntry| e@)[w + 1] == entries0.skip(k)[w + 1]);
                }
                assert(self.entries@.map_values(|e: IndexEntry| e@) =~= entries0.skip(k + 1));
            }
            if live.len() > 0 {
                entry.connections = live;
                proof {
                    assert(entry@ == (IndexEntryView {
                        room_id: entries0[k].room_id,
                        connections: live_records(entries0[k].connections),
                    }));
                }
                kept.push(entry);
                proof {
                    assert(kept@.map_values(|e: IndexEntry| e@) =~= swept_entries(
                        entries0.take(k + 1),
                    ));
                }
            } else {
                proof {
                    assert(live_records(entries0[k].connections).len() == 0);
                    assert(kept@.map_values(|e: IndexEntry| e@) =~= swept_entries(
                        entries0.take(k + 1),
                    ));
                }
            }
        }
        proof {
            assert(entries0.take(entries0.len() as int) =~= entries0);
        }
        self.entries = kept;
        proof {
            lemma_swept_unique(entries0);
        }
    }
}

} // verus!
