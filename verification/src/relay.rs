//! The broadcast relay core: a connection table owned by a single broadcast
//! engine, which registers newly handed-off connections, validates datagrams
//! as UTF-8 text, fans each valid message out to every live connection, and
//! prunes the connections whose send failed.

use vstd::prelude::*;

verus! {

// ----------------------------------------------------------------------
// Model
// ----------------------------------------------------------------------

/// The connection ids of a table's entries, in entry order.
pub open spec fn ids_of<W>(entries: Seq<(u32, W)>) -> Seq<u32> {
    entries.map_values(|e: (u32, W)| e.0)
}

/// The entries whose id differs from `id`, in order.
pub open spec fn without_id<W>(entries: Seq<(u32, W)>, id: u32) -> Seq<(u32, W)> {
    entries.filter(|e: (u32, W)| e.0 != id)
}

/// The ids other than `id`, in order.
pub open spec fn remove_one(ids: Seq<u32>, id: u32) -> Seq<u32> {
    ids.filter(|x: u32| x != id)
}

/// The ids picked out by a sequence of per-connection send outcomes:
/// `ids[i]` is kept exactly when `keep[i]` holds.
pub open spec fn select(ids: Seq<u32>, keep: Seq<bool>) -> Seq<u32>
    decreases ids.len(),
{
    if ids.len() == 0 {
        Seq::empty()
    } else if keep.len() == ids.len() && keep.last() {
        select(ids.drop_last(), keep.drop_last()).push(ids.last())
    } else {
        select(ids.drop_last(), keep.drop_last())
    }
}

/// What remains of `ids` after removing every queued id, from the back of
/// the queue forward, as the disconnect pass at the end of a broadcast does.
pub open spec fn remove_queued(ids: Seq<u32>, queued: Seq<u32>) -> Seq<u32>
    decreases queued.len(),
{
    if queued.len() == 0 {
        ids
    } else {
        remove_queued(remove_one(ids, queued.last()), queued.drop_last())
    }
}

/// The ids a cycle assigns to `k` handoffs when the counter stands at `c`.
pub open spec fn fresh_ids(c: u32, k: nat) -> Seq<u32> {
    Seq::new(k, |i: int| (c + i) as u32)
}

// ----------------------------------------------------------------------
// Lemmas about removal
// ----------------------------------------------------------------------

/// Removing an id that is not present leaves the ids unchanged.
pub proof fn lemma_remove_one_absent(ids: Seq<u32>, id: u32)
    requires
        !ids.contains(id),
    ensures
        remove_one(ids, id) == ids,
    decreases ids.len(),
{
    reveal(Seq::filter);
    if ids.len() > 0 {
        let dl = ids.drop_last();
        assert(!dl.contains(id)) by {
            if dl.contains(id) {
                let i = choose|i: int| 0 <= i < dl.len() && dl[i] == id;
                assert(ids[i] == id);
            }
        }
        lemma_remove_one_absent(dl, id);
        assert(ids.last() != id) by {
            assert(ids[ids.len() - 1] == ids.last());
        }
        assert(dl.push(ids.last()) =~= ids);
    }
}

proof fn lemma_remove_one_push(ids: Seq<u32>, id: u32, a: u32)
    ensures
        a != id ==> remove_one(ids.push(a), id) == remove_one(ids, id).push(a),
        a == id ==> remove_one(ids.push(a), id) == remove_one(ids, id),
{
    reveal(Seq::filter);
    assert(ids.push(a).drop_last() =~= ids);
}

proof fn lemma_remove_one_no_dup(ids: Seq<u32>, id: u32)
    requires
        ids.no_duplicates(),
    ensures
        remove_one(ids, id).no_duplicates(),
        forall|x: u32| #[trigger] remove_one(ids, id).contains(x) ==> ids.contains(x),
    decreases ids.len(),
{
    reveal(Seq::filter);
    if ids.len() > 0 {
        let dl = ids.drop_last();
        lemma_remove_one_no_dup(dl, id);
        let rest = remove_one(dl, id);
        assert forall|x: u32| dl.contains(x) implies ids.contains(x) by {
            let i = choose|i: int| 0 <= i < dl.len() && dl[i] == x;
            assert(ids[i] == x);
        }
        if ids.last() != id {
            assert(!rest.contains(ids.last())) by {
                if rest.contains(ids.last()) {
                    assert(dl.contains(ids.last()));
                    let i = choose|i: int| 0 <= i < dl.len() && dl[i] == ids.last();
                    assert(ids[i] == ids[ids.len() - 1]);
                }
            }
            assert forall|x: u32| rest.push(ids.last()).contains(x) implies ids.contains(x) by {
                if x == ids.last() {
                    assert(ids.contains(ids[ids.len() - 1]));
                } else {
                    assert(rest.contains(x));
                }
            }
            assert(rest.push(ids.last()).no_duplicates()) by {
                assert(forall|i: int|
                    0 <= i < rest.len() ==> rest.push(ids.last())[i] == rest[i]);
            }
            assert(remove_one(ids, id) == rest.push(ids.last()));
        } else {
            assert(remove_one(ids, id) == rest);
        }
    }
}

proof fn lemma_without_id_all_pass<W>(entries: Seq<(u32, W)>, id: u32)
    requires
        forall|j: int| 0 <= j < entries.len() ==> (#[trigger] entries[j]).0 != id,
    ensures
        without_id(entries, id) == entries,
    decreases entries.len(),
{
    reveal(Seq::filter);
    if entries.len() > 0 {
        let dl = entries.drop_last();
        assert(forall|j: int| 0 <= j < dl.len() ==> dl[j] == entries[j]);
        lemma_without_id_all_pass(dl, id);
        assert(entries.last() == entries[entries.len() - 1]);
        assert(dl.push(entries.last()) =~= entries);
    }
}

proof fn lemma_ids_of_without_id<W>(entries: Seq<(u32, W)>, id: u32)
    ensures
        ids_of(without_id(entries, id)) == remove_one(ids_of(entries), id),
    decreases entries.len(),
{
    reveal(Seq::filter);
    if entries.len() == 0 {
        assert(ids_of(without_id(entries, id)) =~= remove_one(ids_of(entries), id));
    } else {
        let dl = entries.drop_last();
        lemma_ids_of_without_id(dl, id);
        assert(ids_of(entries).drop_last() =~= ids_of(dl));
        assert(ids_of(entries).last() == entries.last().0);
        if entries.last().0 != id {
            assert(ids_of(without_id(dl, id).push(entries.last()))
                =~= ids_of(without_id(dl, id)).push(entries.last().0));
        }
    }
}

proof fn lemma_remove_queued_push(ids: Seq<u32>, queued: Seq<u32>, id: u32)
    requires
        !queued.contains(id),
    ensures
        remove_queued(ids.push(id), queued) == remove_queued(ids, queued).push(id),
    decreases queued.len(),
{
    if queued.len() > 0 {
        assert(id != queued.last()) by {
            assert(queued[queued.len() - 1] == queued.last());
        }
        lemma_remove_one_push(ids, queued.last(), id);
        assert(!queued.drop_last().contains(id)) by {
            if queued.drop_last().contains(id) {
                let i = choose|i: int|
                    0 <= i < queued.drop_last().len() && queued.drop_last()[i] == id;
                assert(queued[i] == id);
            }
        }
        lemma_remove_queued_push(remove_one(ids, queued.last()), queued.drop_last(), id);
    }
}

// ----------------------------------------------------------------------
// Laws about the send-outcome selection
// ----------------------------------------------------------------------

/// A broadcast in which every send succeeds keeps every connection, in
/// order, and removes none.
pub proof fn lemma_select_all_ok(ids: Seq<u32>, keep: Seq<bool>)
    requires
        keep.len() == ids.len(),
        forall|i: int| 0 <= i < keep.len() ==> keep[i],
    ensures
        select(ids, keep) == ids,
    decreases ids.len(),
{
    if ids.len() > 0 {
        assert(keep.last() == keep[keep.len() - 1]);
        lemma_select_all_ok(ids.drop_last(), keep.drop_last());
        assert(ids.drop_last().push(ids.last()) =~= ids);
    }
}

/// A broadcast in which exactly the send to `ids[j]` fails removes that
/// connection alone: every other connection stays, in order.
pub proof fn lemma_select_one_failure(ids: Seq<u32>, keep: Seq<bool>, j: int)
    requires
        keep.len() == ids.len(),
        0 <= j < keep.len(),
        !keep[j],
        forall|i: int| 0 <= i < keep.len() && i != j ==> keep[i],
    ensures
        select(ids, keep) == ids.subrange(0, j) + ids.subrange(j + 1, ids.len() as int),
    decreases ids.len(),
{
    if j == ids.len() - 1 {
        lemma_select_all_ok(ids.drop_last(), keep.drop_last());
        assert(select(ids, keep) =~= ids.subrange(0, j) + ids.subrange(j + 1, ids.len() as int));
    } else {
        assert(keep.last() == keep[keep.len() - 1]);
        lemma_select_one_failure(ids.drop_last(), keep.drop_last(), j);
        assert(select(ids.drop_last(), keep.drop_last()).push(ids.last())
            =~= ids.subrange(0, j) + ids.subrange(j + 1, ids.len() as int));
    }
}

/// Every id a broadcast keeps was in the table when the broadcast began,
/// and the kept ids stay free of duplicates.
pub proof fn lemma_select_subset(ids: Seq<u32>, keep: Seq<bool>)
    ensures
        forall|x: u32| #[trigger] select(ids, keep).contains(x) ==> ids.contains(x),
        ids.no_duplicates() ==> select(ids, keep).no_duplicates(),
    decreases ids.len(),
{
    if ids.len() > 0 {
        let dl = ids.drop_last();
        lemma_select_subset(dl, keep.drop_last());
        assert forall|x: u32| dl.contains(x) implies ids.contains(x) by {
            let i = choose|i: int| 0 <= i < dl.len() && dl[i] == x;
            assert(ids[i] == x);
        }
        let rest = select(dl, keep.drop_last());
        if keep.len() == ids.len() && keep.last() {
            assert forall|x: u32| rest.push(ids.last()).contains(x) implies ids.contains(x) by {
                if x == ids.last() {
                    assert(ids.contains(ids[ids.len() - 1]));
                } else {
                    assert(rest.contains(x));
                }
            }
            if ids.no_duplicates() {
                assert(dl.no_duplicates());
                assert(!rest.contains(ids.last())) by {
                    if rest.contains(ids.last()) {
                        assert(dl.contains(ids.last()));
                        let i = choose|i: int| 0 <= i < dl.len() && dl[i] == ids.last();
                        assert(ids[i] == ids[ids.len() - 1]);
                    }
                }
                assert(forall|i: int|
                    0 <= i < rest.len() ==> rest.push(ids.last())[i] == rest[i]);
            }
        } else {
            assert forall|x: u32| rest.contains(x) implies ids.contains(x) by {
                assert(dl.contains(x));
            }
        }
    }
}

// ----------------------------------------------------------------------
// Trusted boundary: the websocket handles and the datagram decoder
// ----------------------------------------------------------------------

#[verifier::external_type_specification]
#[verifier::external_body]
#[verifier::reject_recursive_types(Stream)]
pub struct ExWebSocket<Stream>(tungstenite::WebSocket<Stream>);

/// The text a datagram's bytes decode to, when they are well-formed UTF-8.
pub uninterp spec fn utf8_text(bytes: Seq<u8>) -> Option<Seq<char>>;

/// Relies on tungstenite::Utf8Bytes::try_from, which accepts a byte string
/// exactly when it is well-formed UTF-8; the decoded text is a function of
/// the bytes alone.
#[verifier::external_body]
fn decode_datagram(bytes: &[u8]) -> (r: Option<String>)
    ensures
        r is Some <==> utf8_text(bytes@) is Some,
        r matches Some(s) ==> s@ == utf8_text(bytes@).unwrap(),
{
    match tungstenite::Utf8Bytes::try_from(tungstenite::Bytes::copy_from_slice(bytes)) {
        Ok(text) => Some(text.as_str().to_string()),
        Err(_) => None,
    }
}

/// Relies on tungstenite::WebSocket::send to write and flush one text frame.
/// Whether it succeeds depends on the peer and the transport, so only the
/// reported outcome is stated.
#[verifier::external_body]
fn ws_send<S: std::io::Read + std::io::Write>(
    ws: &mut tungstenite::WebSocket<S>,
    message: &str,
) -> (ok: bool) {
    ws.send(tungstenite::Message::Text(tungstenite::Utf8Bytes::from(message))).is_ok()
}

/// Relies on tungstenite::WebSocket::close; the close is best-effort and its
/// error, if any, is discarded, because the connection is being torn down.
#[verifier::external_body]
fn ws_close<S: std::io::Read + std::io::Write>(ws: &mut tungstenite::WebSocket<S>) {
    let _ = ws.close(None);
}

/// Relies on tungstenite::WebSocket::flush to drive a best-effort close to
/// completion; its error, if any, is discarded.
#[verifier::external_body]
fn ws_flush<S: std::io::Read + std::io::Write>(ws: &mut tungstenite::WebSocket<S>) {
    let _ = ws.flush();
}

// ----------------------------------------------------------------------
// The connection table and broadcast engine
// ----------------------------------------------------------------------

/// Tracks websocket streams and broadcasts messages.
///
/// The table maps each connection id to its live websocket handle; the
/// counter assigns strictly increasing ids; the disconnect queue is filled
/// and drained within one `broadcast` call and is empty at rest.
#[verifier::reject_recursive_types(S)]
pub struct WebsocketManager<S> {
    websocket_streams: Vec<(u32, tungstenite::WebSocket<S>)>,
    disconnect_queue: Vec<u32>,
    counter: u32,
}

impl<S> WebsocketManager<S> {
    /// The ids of the currently connected clients, in insertion order.
    pub closed spec fn ids(&self) -> Seq<u32> {
        ids_of(self.websocket_streams@)
    }

    /// The id the next registered connection will receive.
    pub closed spec fn next_id(&self) -> u32 {
        self.counter
    }

    /// Well-formedness: ids are unique, every id is below the counter, and
    /// the disconnect queue is empty between broadcasts.
    pub closed spec fn wf(&self) -> bool {
        &&& self.ids().no_duplicates()
        &&& forall|i: int| 0 <= i < self.ids().len() ==> self.ids()[i] < self.counter
        &&& self.disconnect_queue@ == Seq::<u32>::empty()
    }

    /// An empty table: no connections, ids start at 0.
    pub fn new() -> (m: Self)
        ensures
            m.wf(),
            m.ids() == Seq::<u32>::empty(),
            m.next_id() == 0,
    {
        let m = WebsocketManager {
            websocket_streams: Vec::new(),
            disconnect_queue: Vec::new(),
            counter: 0,
        };
        proof {
            assert(m.ids() =~= Seq::<u32>::empty());
        }
        m
    }

    /// Inserts a newly accepted connection under the next counter value and
    /// returns its id. The id is fresh: it exceeds every id ever assigned,
    /// so successive registrations return strictly increasing ids, however
    /// they interleave with disconnects and broadcasts.
    pub fn register(&mut self, stream: tungstenite::WebSocket<S>) -> (id: u32)
        requires
            old(self).wf(),
            old(self).next_id() < u32::MAX,
        ensures
            final(self).wf(),
            id == old(self).next_id(),
            final(self).next_id() == old(self).next_id() + 1,
            final(self).ids() == old(self).ids().push(id),
            !old(self).ids().contains(id),
            forall|i: int| 0 <= i < old(self).ids().len() ==> old(self).ids()[i] < id,
    {
        let id = self.counter;
        self.websocket_streams.push((id, stream));
        self.counter = self.counter + 1;
        proof {
            assert(self.ids() =~= old(self).ids().push(id));
            assert(!old(self).ids().contains(id));
            assert(self.ids().no_duplicates()) by {
                assert(forall|i: int|
                    0 <= i < old(self).ids().len() ==> self.ids()[i] == old(self).ids()[i]);
            }
        }
        id
    }

    /// The id the next registered connection will receive; ids are never
    /// reused, so a caller can tell when the id space is running out.
    pub fn next_connection_id(&self) -> (id: u32)
        ensures
            id == self.next_id(),
    {
        self.counter
    }

    /// The ids of the currently connected clients, in insertion order.
    pub fn connected_ids(&self) -> (ids: Vec<u32>)
        ensures
            ids@ == self.ids(),
    {
        let mut ids: Vec<u32> = Vec::new();
        let mut i: usize = 0;
        proof {
            assert(ids@ =~= self.ids().take(0));
        }
        while i < self.websocket_streams.len()
            invariant
                0 <= i <= self.websocket_streams@.len(),
                ids@ == self.ids().take(i as int),
            decreases self.websocket_streams@.len() - i,
        {
            ids.push(self.websocket_streams[i].0);
            proof {
                assert(self.ids()[i as int] == self.websocket_streams@[i as int].0);
                assert(ids@ =~= self.ids().take(i as int + 1));
            }
            i = i + 1;
        }
        proof {
            assert(self.ids().take(self.ids().len() as int) =~= self.ids());
        }
        ids
    }

    /// Removal core shared by `disconnect` and the purge at the end of a
    /// broadcast pass, where the disconnect queue is still full.
    fn remove_entry(&mut self, id: u32)
        requires
            old(self).ids().no_duplicates(),
        ensures
            final(self).ids() == remove_one(old(self).ids(), id),
            final(self).ids().no_duplicates(),
            final(self).next_id() == old(self).next_id(),
            final(self).disconnect_queue@ == old(self).disconnect_queue@,
            forall|x: u32| #[trigger] final(self).ids().contains(x) ==> old(self).ids().contains(x),
    {
        let ghost old_entries = self.websocket_streams@;
        let mut i: usize = 0;
        let n = self.websocket_streams.len();
        while i < n
            invariant
                0 <= i <= n,
                n == self.websocket_streams@.len(),
                self.websocket_streams@ == old_entries,
                old_entries == old(self).websocket_streams@,
                ids_of(old_entries).no_duplicates(),
                self.counter == old(self).counter,
                self.disconnect_queue@ == old(self).disconnect_queue@,
                forall|j: int| 0 <= j < i ==> ids_of(old_entries)[j] != id,
            decreases n - i,
        {
            if self.websocket_streams[i].0 == id {
                self.websocket_streams.remove(i);
                proof {
                    lemma_disconnect_hit(old_entries, id, i as int);
                    assert(self.websocket_streams@
                        == old_entries.subrange(0, i as int)
                            + old_entries.subrange(i as int + 1, old_entries.len() as int)) by {
                        assert(old_entries.remove(i as int)
                            =~= old_entries.subrange(0, i as int)
                                + old_entries.subrange(i as int + 1, old_entries.len() as int));
                    }
                    lemma_ids_of_without_id(old_entries, id);
                    lemma_remove_one_no_dup(ids_of(old_entries), id);
                }
                return;
            }
            i = i + 1;
        }
        proof {
            assert(!self.ids().contains(id)) by {
                if self.ids().contains(id) {
                    let j = choose|j: int| 0 <= j < self.ids().len() && self.ids()[j] == id;
                }
            }
            lemma_remove_one_absent(self.ids(), id);
        }
    }

    /// Removes the entry with this id, if present. Disconnecting an id that
    /// is absent from the table leaves the table unchanged and is no error.
    pub fn disconnect(&mut self, id: u32)
        requires
            old(self).wf(),
        ensures
            final(self).wf(),
            final(self).ids() == remove_one(old(self).ids(), id),
            final(self).next_id() == old(self).next_id(),
    {
        self.remove_entry(id);
        proof {
            assert forall|i: int| 0 <= i < self.ids().len()
                implies self.ids()[i] < self.counter by {
                assert(self.ids().contains(self.ids()[i]));
                assert(old(self).ids().contains(self.ids()[i]));
                let j = choose|j: int|
                    0 <= j < old(self).ids().len() && old(self).ids()[j] == self.ids()[i];
            }
        }
    }
}

impl<S: std::io::Read + std::io::Write> WebsocketManager<S> {
    /// Attempts to send `message` to every current connection. A connection
    /// whose send fails is closed best-effort, queued on the disconnect
    /// queue, and removed from the table before the call returns; every
    /// other connection received the message. The returned vector holds the
    /// ids that received the message, in table order; they are exactly the
    /// ids still connected afterwards. Which sends succeed depends on the
    /// peers and the transport, so the contract covers every pattern of
    /// send outcomes at once.
    pub fn broadcast(&mut self, message: &str) -> (delivered: Vec<u32>)
        requires
            old(self).wf(),
        ensures
            final(self).wf(),
            final(self).next_id() == old(self).next_id(),
            final(self).ids() == delivered@,
            exists|keep: Seq<bool>|
                keep.len() == old(self).ids().len() && delivered@ == #[trigger] select(
                    old(self).ids(),
                    keep,
                ),
    {
        let ghost all_ids = self.ids();
        let mut pending: Vec<(u32, tungstenite::WebSocket<S>)> = Vec::new();
        core::mem::swap(&mut pending, &mut self.websocket_streams);
        let mut delivered: Vec<u32> = Vec::new();
        let ghost mut keep: Seq<bool> = Seq::empty();
        proof {
            assert(self.ids() =~= Seq::<u32>::empty());
            assert(self.ids() + ids_of(pending@) =~= all_ids);
        }
        while pending.len() > 0
            invariant
                self.ids() + ids_of(pending@) == all_ids,
                all_ids == old(self).ids(),
                all_ids.no_duplicates(),
                forall|i: int| 0 <= i < all_ids.len() ==> all_ids[i] < self.counter,
                self.counter == old(self).counter,
                keep.len() == self.ids().len(),
                delivered@ == select(self.ids(), keep),
                remove_queued(self.ids(), self.disconnect_queue@) == select(self.ids(), keep),
                forall|k: int|
                    0 <= k < self.disconnect_queue@.len() ==> self.ids().contains(
                        #[trigger] self.disconnect_queue@[k],
                    ),
            decreases pending@.len(),
        {
            let ghost prev_ids = self.ids();
            let ghost prev_pending = pending@;
            let ghost prev_queue = self.disconnect_queue@;
            let mut entry = pending.remove(0);
            let id = entry.0;
            proof {
                assert(id == ids_of(prev_pending)[0]);
                assert(id == all_ids[prev_ids.len() as int]);
                assert(!prev_ids.contains(id)) by {
                    if prev_ids.contains(id) {
                        let i = choose|i: int|
                            0 <= i < prev_ids.len() && prev_ids[i] == id;
                        assert(all_ids[i] == all_ids[prev_ids.len() as int]);
                    }
                }
                assert(!prev_queue.contains(id)) by {
                    if prev_queue.contains(id) {
                        let k = choose|k: int|
                            0 <= k < prev_queue.len() && prev_queue[k] == id;
                        assert(prev_ids.contains(prev_queue[k]));
                    }
                }
            }
            let ok = ws_send(&mut entry.1, message);
            if ok {
                delivered.push(id);
            } else {
                ws_close(&mut entry.1);
                ws_flush(&mut entry.1);
                self.disconnect_queue.push(id);
            }
            self.websocket_streams.push(entry);
            proof {
                let next_ids = prev_ids.push(id);
                assert(self.ids() =~= next_ids);
                assert(ids_of(pending@) =~= ids_of(prev_pending).subrange(
                    1,
                    ids_of(prev_pending).len() as int,
                ));
                assert(self.ids() + ids_of(pending@) =~= all_ids);
                assert(next_ids.drop_last() =~= prev_ids);
                let next_keep = keep.push(ok);
                assert(next_keep.drop_last() =~= keep);
                if ok {
                    assert(select(next_ids, next_keep) == select(prev_ids, keep).push(id));
                    lemma_remove_queued_push(prev_ids, prev_queue, id);
                } else {
                    assert(select(next_ids, next_keep) == select(prev_ids, keep));
                    assert(self.disconnect_queue@.drop_last() =~= prev_queue);
                    assert(self.disconnect_queue@.last() == id);
                    assert(remove_queued(next_ids, self.disconnect_queue@) == remove_queued(
                        remove_one(next_ids, id),
                        prev_queue,
                    ));
                    lemma_remove_one_push(prev_ids, id, id);
                    lemma_remove_one_absent(prev_ids, id);
                    assert(remove_one(next_ids, id) == prev_ids);
                }
                keep = next_keep;
                assert forall|k: int|
                    0 <= k < self.disconnect_queue@.len() implies self.ids().contains(
                        #[trigger] self.disconnect_queue@[k],
                    ) by {
                    if k < prev_queue.len() {
                        assert(prev_queue[k] == self.disconnect_queue@[k]);
                        assert(prev_ids.contains(prev_queue[k]));
                        let i = choose|i: int|
                            0 <= i < prev_ids.len() && prev_ids[i] == prev_queue[k];
                        assert(next_ids[i] == prev_queue[k]);
                    } else {
                        assert(self.disconnect_queue@[k] == id);
                        assert(next_ids[next_ids.len() - 1] == id);
                    }
                }
            }
        }
        proof {
            assert(ids_of(pending@).len() == 0);
            assert(self.ids() =~= all_ids);
        }
        loop
            invariant
                self.ids().no_duplicates(),
                self.counter == old(self).counter,
                all_ids == old(self).ids(),
                keep.len() == all_ids.len(),
                delivered@ == select(all_ids, keep),
                remove_queued(self.ids(), self.disconnect_queue@) == select(all_ids, keep),
                forall|x: u32| #[trigger] self.ids().contains(x) ==> all_ids.contains(x),
                forall|i: int| 0 <= i < all_ids.len() ==> all_ids[i] < self.counter,
            ensures
                self.ids().no_duplicates(),
                self.counter == old(self).counter,
                self.disconnect_queue@ == Seq::<u32>::empty(),
                delivered@ == select(all_ids, keep),
                keep.len() == all_ids.len(),
                self.ids() == select(all_ids, keep),
                forall|x: u32| #[trigger] self.ids().contains(x) ==> all_ids.contains(x),
            decreases self.disconnect_queue@.len(),
        {
            let ghost prev_ids = self.ids();
            let ghost prev_queue = self.disconnect_queue@;
            let next = self.disconnect_queue.pop();
            match next {
                Some(id) => {
                    proof {
                        assert(prev_queue.last() == id);
                        assert(self.disconnect_queue@ =~= prev_queue.drop_last());
                    }
                    let ghost mid_queue = self.disconnect_queue@;
                    self.remove_entry(id);
                    proof {
                        assert(remove_queued(prev_ids, prev_queue) == remove_queued(
                            remove_one(prev_ids, id),
                            prev_queue.drop_last(),
                        ));
                        assert(self.ids() == remove_one(prev_ids, id));
                        assert(self.disconnect_queue@ == mid_queue);
                    }
                },
                None => {
                    proof {
                        assert(self.disconnect_queue@ =~= Seq::<u32>::empty());
                        assert(remove_queued(self.ids(), self.disconnect_queue@) == self.ids());
                    }
                    break;
                },
            }
        }
        proof {
            assert forall|i: int| 0 <= i < self.ids().len() implies self.ids()[i]
                < self.counter by {
                assert(self.ids().contains(self.ids()[i]));
                assert(all_ids.contains(self.ids()[i]));
                let j = choose|j: int| 0 <= j < all_ids.len() && all_ids[j] == self.ids()[i];
            }
            assert(keep.len() == old(self).ids().len() && delivered@ == select(
                old(self).ids(),
                keep,
            ));
        }
        delivered
    }

    /// One broadcast-engine cycle after the blocking wait for a datagram:
    /// registers the handoffs drained at cycle start, in arrival order and
    /// under sequential ids, then validates the datagram and, when it is
    /// well-formed UTF-8 text, broadcasts it. A malformed datagram is
    /// dropped silently: no send is attempted, nothing is delivered, and the
    /// table keeps exactly the registered connections. A handle enqueued
    /// after the drain is not among `handoffs`, so it takes no part in this
    /// cycle's broadcast and is picked up by the next cycle's drain.
    pub fn run_cycle(
        &mut self,
        handoffs: Vec<tungstenite::WebSocket<S>>,
        datagram: &[u8],
    ) -> (delivered: Option<Vec<u32>>)
        requires
            old(self).wf(),
            old(self).next_id() + handoffs@.len() <= u32::MAX,
        ensures
            final(self).wf(),
            final(self).next_id() == old(self).next_id() + handoffs@.len(),
            delivered is None <==> utf8_text(datagram@) is None,
            delivered is None ==> final(self).ids() == old(self).ids() + fresh_ids(
                old(self).next_id(),
                handoffs@.len(),
            ),
            delivered matches Some(d) ==> final(self).ids() == d@ && exists|keep: Seq<bool>|
                keep.len() == old(self).ids().len() + handoffs@.len() && d@ == #[trigger] select(
                    old(self).ids() + fresh_ids(old(self).next_id(), handoffs@.len()),
                    keep,
                ),
    {
        let ghost k = handoffs@.len();
        let ghost start_ids = self.ids();
        let ghost start_counter = self.next_id();
        let mut pending = handoffs;
        proof {
            assert(self.ids() =~= start_ids + fresh_ids(start_counter, 0));
        }
        while pending.len() > 0
            invariant
                self.wf(),
                pending@.len() <= k,
                start_counter + k <= u32::MAX,
                self.next_id() == start_counter + k - pending@.len(),
                self.ids() == start_ids + fresh_ids(start_counter, (k - pending@.len()) as nat),
            decreases pending@.len(),
        {
            let ghost j = (k - pending@.len()) as nat;
            let h = pending.remove(0);
            let id = self.register(h);
            proof {
                assert(fresh_ids(start_counter, j + 1) =~= fresh_ids(start_counter, j).push(id));
                assert(start_ids + fresh_ids(start_counter, j + 1) =~= (start_ids + fresh_ids(
                    start_counter,
                    j,
                )).push(id));
            }
        }
        proof {
            assert(self.ids() == start_ids + fresh_ids(start_counter, k));
        }
        match decode_datagram(datagram) {
            Some(text) => Some(self.broadcast(text.as_str())),
            None => None,
        }
    }
}

/// Helper for `remove_entry`: removing the unique entry whose id matches is
/// the same as filtering that id out.
proof fn lemma_disconnect_hit<W>(entries: Seq<(u32, W)>, id: u32, i: int)
    requires
        ids_of(entries).no_duplicates(),
        0 <= i < entries.len(),
        entries[i].0 == id,
        forall|j: int| 0 <= j < i ==> ids_of(entries)[j] != id,
    ensures
        without_id(entries, id)
            == entries.subrange(0, i) + entries.subrange(i + 1, entries.len() as int),
    decreases entries.len(),
{
    reveal(Seq::filter);
    let dl = entries.drop_last();
    assert forall|j: int| 0 <= j < dl.len() implies #[trigger] ids_of(dl)[j]
        == ids_of(entries)[j] by {
        assert(ids_of(dl)[j] == dl[j].0);
        assert(dl[j] == entries[j]);
        assert(ids_of(entries)[j] == entries[j].0);
    }
    if i == entries.len() - 1 {
        assert(entries.last() == entries[i]);
        assert forall|j: int| 0 <= j < dl.len() implies (#[trigger] dl[j]).0 != id by {
            assert(dl[j] == entries[j]);
            assert(ids_of(entries)[j] == entries[j].0);
        }
        lemma_without_id_all_pass(dl, id);
        assert(without_id(entries, id) == without_id(dl, id));
        assert(dl =~= entries.subrange(0, i) + entries.subrange(i + 1, entries.len() as int));
    } else {
        assert(dl[i] == entries[i]);
        assert(dl[i].0 == id);
        assert(ids_of(dl).no_duplicates());
        lemma_disconnect_hit(dl, id, i);
        assert(entries.last().0 != id) by {
            assert(ids_of(entries)[entries.len() - 1] == entries.last().0);
            assert(ids_of(entries)[i] == id);
        }
        assert(without_id(entries, id) == without_id(dl, id).push(entries.last()));
        assert(without_id(dl, id).push(entries.last())
            =~= entries.subrange(0, i) + entries.subrange(i + 1, entries.len() as int));
    }
}

} // verus!
