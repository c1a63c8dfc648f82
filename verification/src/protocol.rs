//! The protocol engine: a role-aware, message-driven dispatcher over the
//! chunk store that queues outbound messages for the transport layer, and
//! the session state machine it drives.

use vstd::prelude::*;
use crate::digest::hex_digest;
use crate::error::ProtocolError;
use crate::messages::{msg_wf, Message, MessageView};
use crate::storage::{
    chunk_count, file_complete, gap_report, import_chunks, known_count, ChunkStore, StoreModel,
};
use crate::util::str_eq;

verus! {

/// File transfer roles.
#[derive(PartialEq, Eq, Structural, Clone, Copy, Debug)]
pub enum Role {
    /// Sends operation requests.
    Client,
    /// Listens for and fulfills operation requests.
    Server,
}

/// Session state of one transfer.
pub enum State {
    /// Idle, awaiting an operation; remembers one level of fallback state
    /// and a consecutive-no-progress count.
    Holding { count: u32, prev_state: Box<State> },
    /// Receiving the chunks of the file with this hash.
    Receiving { hash: String, num_chunks: Option<u32> },
    /// Serving chunk requests for the file with this hash.
    Transmitting { hash: String },
    /// Terminal: the transfer succeeded or its failure was reported.
    Done,
}

impl State {
    /// The state a fresh session starts in.
    pub fn initial() -> (s: State)
        ensures
            (s matches State::Holding { count, prev_state } && count == 0 && *prev_state is Done),
    {
        State::Holding { count: 0, prev_state: Box::new(State::Done) }
    }
}

/// The views of a sequence of messages, in order.
pub open spec fn msgs_view(s: Seq<Message>) -> Seq<MessageView> {
    s.map_values(|m: Message| m@)
}

/// Whether a message closes a pumped receive loop: a positive
/// acknowledgment or a terminal success report.
pub open spec fn spec_is_terminal(m: MessageView) -> bool {
    match m {
        MessageView::ACK(_) => true,
        MessageView::SuccessReceive(_) => true,
        MessageView::SuccessTransmit(_, _, _, _) => true,
        _ => false,
    }
}

/// Reports whether a message is of a terminal class.
pub fn is_terminal(msg: &Message) -> (b: bool)
    ensures
        b == spec_is_terminal(msg@),
{
    match msg {
        Message::ACK(_) => true,
        Message::SuccessReceive(_) => true,
        Message::SuccessTransmit(_, _, _, _) => true,
        _ => false,
    }
}

/// The state machine's transition on one observed message.
///
/// `complete` reports whether the file being received is complete after the
/// message's side effects; `import_hash` carries the hash of the file a
/// transmit request caused to be imported, or `None` when that import
/// failed (the caller has then already queued a failure reply).
pub fn transition(state: State, msg: &Message, complete: bool, import_hash: Option<&String>) -> (next: State)
    ensures
        ({
            let m = msg@;
            match m {
                MessageView::Failure(_, _) => next is Done,
                MessageView::ReqReceive(_, h, _, _) => match state {
                    State::Holding { .. } => (next matches State::Receiving { hash, num_chunks }
                        && hash@ == h && num_chunks is None),
                    _ => next == state,
                },
                MessageView::ReqTransmit(_, _) => match state {
                    State::Holding { .. } => match import_hash {
                        Some(h) => (next matches State::Transmitting { hash } && hash@ == h@),
                        None => next is Done,
                    },
                    _ => next == state,
                },
                MessageView::ReceiveChunk(_, _, _) => match state {
                    State::Receiving { .. } => if complete {
                        next is Done
                    } else {
                        next == state
                    },
                    _ => next == state,
                },
                MessageView::ACK(h) => match state {
                    State::Transmitting { hash } => if hash@ == h {
                        next is Done
                    } else {
                        next == state
                    },
                    _ => next == state,
                },
                _ => next == state,
            }
        }),
{
    match msg {
        Message::Failure(_, _) => State::Done,
        Message::ReqReceive(_, h, _, _) => match state {
            State::Holding { .. } => State::Receiving { hash: h.clone(), num_chunks: None },
            other => other,
        },
        Message::ReqTransmit(_, _) => match state {
            State::Holding { .. } => match import_hash {
                Some(h) => State::Transmitting { hash: h.clone() },
                None => State::Done,
            },
            other => other,
        },
        Message::ReceiveChunk(_, _, _) => match state {
            State::Receiving { hash, num_chunks } => {
                if complete {
                    State::Done
                } else {
                    State::Receiving { hash, num_chunks }
                }
            }
            other => other,
        },
        Message::ACK(h) => match state {
            State::Transmitting { hash } => {
                if str_eq(hash.as_str(), h.as_str()) {
                    State::Done
                } else {
                    State::Transmitting { hash }
                }
            }
            other => other,
        },
        _ => state,
    }
}

/// `out` is the status message the sync engine owes for `h` against the
/// expected count: `ACK` when complete, else a `NAK` carrying exactly the
/// missing ranges (empty when no count is known).
pub open spec fn is_status(
    m: StoreModel,
    h: Seq<char>,
    num_chunks: Option<u32>,
    out: MessageView,
) -> bool {
    match known_count(m, h, num_chunks) {
        Some(n) => if file_complete(m, h, n as int) {
            out == MessageView::ACK(h)
        } else {
            (out matches MessageView::NAK(h2, Some(rs)) && h2 == h && gap_report(
                m,
                h,
                n as int,
                rs,
            ))
        },
        None => out == MessageView::NAK(h, Some(Seq::<(u32, u32)>::empty())),
    }
}

/// The chunk messages owed for the stored chunks of `h` with indices in
/// the closed range `lo..=hi`, in index order; absent indices are skipped.
pub open spec fn range_msgs(m: StoreModel, h: Seq<char>, lo: int, hi: int) -> Seq<MessageView>
    decreases hi + 1 - lo,
{
    if lo > hi {
        Seq::empty()
    } else {
        (if m.chunks.contains_key((h, lo)) {
            seq![MessageView::ReceiveChunk(h, lo as u32, m.chunks[(h, lo)])]
        } else {
            Seq::empty()
        }) + range_msgs(m, h, lo + 1, hi)
    }
}

/// The chunk messages owed for a list of closed ranges, in order.
pub open spec fn ranges_msgs(m: StoreModel, h: Seq<char>, rs: Seq<(u32, u32)>) -> Seq<MessageView>
    decreases rs.len(),
{
    if rs.len() == 0 {
        Seq::empty()
    } else {
        range_msgs(m, h, rs[0].0 as int, rs[0].1 as int) + ranges_msgs(m, h, rs.drop_first())
    }
}

/// Relies on `std::time::SystemTime::now` and the duration conversions on
/// its result: the milliseconds since the Unix epoch, or 0 when the clock
/// sits before it. Nothing is assumed of the value.
#[verifier::external_body]
fn now_millis() -> u64 {
    match std::time::SystemTime::now().duration_since(std::time::UNIX_EPOCH) {
        Ok(d) => d.as_millis() as u64,
        Err(_) => 0,
    }
}

/// A fresh channel id: the current time in milliseconds reduced modulo
/// 100000 — a correlation hint, not a uniqueness guarantee.
pub fn gen_channel_id() -> (r: u64)
    ensures
        r < 100000,
{
    now_millis() % 100000
}

/// One peer's protocol engine: the connection data, its role, the chunk
/// store, and the queue of outbound messages that the surrounding
/// transport layer encodes and sends.
pub struct Protocol {
    /// Peer host name or address text.
    pub host: String,
    /// Peer port replies go to; updated as the peer's source port moves.
    pub dest_port: u16,
    /// This endpoint's role.
    pub role: Role,
    /// The content-addressed chunk store this engine reads and writes.
    pub store: ChunkStore,
    /// Messages produced and not yet handed to the transport, oldest first.
    pub outbox: Vec<Message>,
}

/// The two engines agree on host, port and role.
pub open spec fn same_config(a: Protocol, b: Protocol) -> bool {
    a.host == b.host && a.dest_port == b.dest_port && a.role == b.role
}

/// How one processed message relates the engine afterwards (`post`) and
/// the call's result to the engine before (`pre`): the store mutation, the
/// owed replies, and the returned message, case by case.
pub open spec fn process_effect(
    pre: Protocol,
    post: Protocol,
    m: MessageView,
    r: Result<Option<Message>, ProtocolError>,
) -> bool {
    match m {
        MessageView::Sync(_) | MessageView::ACK(_) | MessageView::ReqTransmit(_, _)
            | MessageView::SuccessReceive(_) => {
            &&& (r matches Ok(Some(m2)) && m2@ == m)
            &&& post.model() == pre.model()
            &&& post.outbox@ == pre.outbox@
        },
        MessageView::Metadata(h, n) => {
            &&& (r matches Ok(Some(m2)) && m2@ == m)
            &&& post.model().metas == pre.model().metas.insert(h, n)
            &&& post.model().chunks == pre.model().chunks
            &&& post.outbox@ == pre.outbox@
        },
        MessageView::ReceiveChunk(h, i, d) => {
            &&& (r matches Ok(Some(m2)) && m2@ == m)
            &&& post.model().chunks == pre.model().chunks.insert((h, i as int), d)
            &&& post.model().metas == pre.model().metas
            &&& post.outbox@ == pre.outbox@
        },
        MessageView::NAK(h, o) => {
            &&& (r matches Ok(Some(m2)) && m2@ == m)
            &&& post.model() == pre.model()
            &&& match o {
                Some(rs) => msgs_view(post.outbox@) == msgs_view(pre.outbox@) + ranges_msgs(
                    pre.model(),
                    h,
                    rs,
                ),
                None => post.outbox@ == pre.outbox@,
            }
        },
        MessageView::ReqReceive(_, h, _, mo) => {
            &&& (r matches Ok(Some(m2)) && m2@ == m)
            &&& post.model() == pre.model()
            &&& match mo {
                Some(_) => {
                    &&& post.outbox@.len() == pre.outbox@.len() + 1
                    &&& post.outbox@.drop_last() == pre.outbox@
                    &&& is_status(pre.model(), h, None, post.outbox@.last()@)
                },
                None => post.outbox@ == pre.outbox@,
            }
        },
        MessageView::SuccessTransmit(_, h, n, _) => {
            &&& (r matches Ok(Some(m2)) && m2@ == m)
            &&& post.model() == pre.model()
            &&& post.outbox@.len() == pre.outbox@.len() + 1
            &&& post.outbox@.drop_last() == pre.outbox@
            &&& is_status(pre.model(), h, Some(n), post.outbox@.last()@)
        },
        MessageView::Failure(c, e) => {
            &&& post.model() == pre.model()
            &&& post.outbox@ == pre.outbox@
            &&& (r matches Err(er) && er matches ProtocolError::RemoteFailure(c2, s) && c2 == c
                && s@ == e)
        },
    }
}

proof fn lemma_msgs_view_push(s: Seq<Message>, m: Message)
    ensures
        msgs_view(s.push(m)) == msgs_view(s).push(m@),
{
    assert(msgs_view(s.push(m)) =~= msgs_view(s).push(m@));
}

impl Protocol {
    /// The store's well-formedness.
    pub closed spec fn wf(self) -> bool {
        self.store.wf()
    }

    /// The ghost model of this engine's chunk store.
    pub closed spec fn model(self) -> StoreModel {
        self.store@
    }

    /// Creates a protocol engine for a destination and role, with an empty
    /// store and an empty outbox.
    pub fn new(host: String, dest_port: u16, role: Role) -> (p: Protocol)
        ensures
            p.wf(),
            p.host@ == host@,
            p.dest_port == dest_port,
            p.role == role,
            p.model().chunks == Map::<(Seq<char>, int), Seq<u8>>::empty(),
            p.model().metas == Map::<Seq<char>, u32>::empty(),
            p.outbox@.len() == 0,
    {
        Protocol { host, dest_port, role, store: ChunkStore::new(), outbox: Vec::new() }
    }

    /// Records the peer's most recently observed source port as the reply
    /// destination; everything else stays as it was.
    pub fn set_dest_port(&mut self, port: u16)
        ensures
            final(self).dest_port == port,
            final(self).host == old(self).host,
            final(self).role == old(self).role,
            final(self).outbox == old(self).outbox,
            final(self).model() == old(self).model(),
            final(self).wf() == old(self).wf(),
    {
        self.dest_port = port;
    }

    /// Queues one message for the transport layer to deliver.
    pub fn send(&mut self, msg: Message) -> (r: Result<(), ProtocolError>)
        ensures
            r is Ok,
            same_config(*old(self), *final(self)),
            final(self).outbox@ == old(self).outbox@.push(msg),
            final(self).model() == old(self).model(),
            final(self).wf() == old(self).wf(),
    {
        self.outbox.push(msg);
        Ok(())
    }

    /// Reports to the requestor that a receive completed: queues
    /// `SuccessReceive` for the channel.
    pub fn send_success(&mut self, channel_id: u64) -> (r: Result<(), ProtocolError>)
        ensures
            r is Ok,
            same_config(*old(self), *final(self)),
            final(self).outbox@ == old(self).outbox@.push(Message::SuccessReceive(channel_id)),
            final(self).model() == old(self).model(),
            final(self).wf() == old(self).wf(),
    {
        self.outbox.push(Message::SuccessReceive(channel_id));
        Ok(())
    }

    /// Reports to the requestor that an operation failed: queues `Failure`
    /// for the channel with the reason.
    pub fn send_failure(&mut self, channel_id: u64, error: &str) -> (r: Result<(), ProtocolError>)
        ensures
            r is Ok,
            same_config(*old(self), *final(self)),
            final(self).outbox@.len() == old(self).outbox@.len() + 1,
            final(self).outbox@.drop_last() == old(self).outbox@,
            final(self).outbox@.last()@ == MessageView::Failure(channel_id, error@),
            final(self).model() == old(self).model(),
            final(self).wf() == old(self).wf(),
    {
        self.outbox.push(Message::Failure(channel_id, error.to_owned()));
        proof {
            assert(self.outbox@.drop_last() =~= old(self).outbox@);
        }
        Ok(())
    }

    /// Announces a file to the peer: queues a `Sync` for the hash followed
    /// by its `Metadata`.
    pub fn send_sync(&mut self, hash: &str, num_chunks: u32) -> (r: Result<(), ProtocolError>)
        ensures
            r is Ok,
            same_config(*old(self), *final(self)),
            msgs_view(final(self).outbox@) == msgs_view(old(self).outbox@) + seq![
                MessageView::Sync(hash@),
                MessageView::Metadata(hash@, num_chunks),
            ],
            final(self).model() == old(self).model(),
            final(self).wf() == old(self).wf(),
    {
        self.outbox.push(Message::Sync(hash.to_owned()));
        self.outbox.push(Message::Metadata(hash.to_owned(), num_chunks));
        proof {
            assert(msgs_view(self.outbox@) =~= msgs_view(old(self).outbox@) + seq![
                MessageView::Sync(hash@),
                MessageView::Metadata(hash@, num_chunks),
            ]);
        }
        Ok(())
    }

    /// Asks the peer to receive the file stored under `hash` into
    /// `target_path` with the given mode; the channel id is derived from
    /// the current time.
    pub fn send_export(&mut self, hash: &str, target_path: &str, mode: u32) -> (r: Result<
        (),
        ProtocolError,
    >)
        ensures
            r is Ok,
            same_config(*old(self), *final(self)),
            final(self).outbox@.len() == old(self).outbox@.len() + 1,
            final(self).outbox@.drop_last() == old(self).outbox@,
            (final(self).outbox@.last()@ matches MessageView::ReqReceive(c, h, p, m) && c < 100000
                && h == hash@ && p == target_path@ && m == Some(mode)),
            final(self).model() == old(self).model(),
            final(self).wf() == old(self).wf(),
    {
        let channel_id = gen_channel_id();
        self.outbox.push(
            Message::ReqReceive(channel_id, hash.to_owned(), target_path.to_owned(), Some(mode)),
        );
        proof {
            assert(self.outbox@.drop_last() =~= old(self).outbox@);
        }
        Ok(())
    }

    /// Asks the peer to transmit the file at `source_path`; the channel id
    /// is derived from the current time.
    pub fn send_import(&mut self, source_path: &str) -> (r: Result<(), ProtocolError>)
        ensures
            r is Ok,
            same_config(*old(self), *final(self)),
            final(self).outbox@.len() == old(self).outbox@.len() + 1,
            final(self).outbox@.drop_last() == old(self).outbox@,
            (final(self).outbox@.last()@ matches MessageView::ReqTransmit(c, p) && c < 100000
                && p == source_path@),
            final(self).model() == old(self).model(),
            final(self).wf() == old(self).wf(),
    {
        let channel_id = gen_channel_id();
        self.outbox.push(Message::ReqTransmit(channel_id, source_path.to_owned()));
        proof {
            assert(self.outbox@.drop_last() =~= old(self).outbox@);
        }
        Ok(())
    }

    /// Records the expected chunk count for `hash` in the store.
    pub fn store_meta(&mut self, hash: &str, num_chunks: u32) -> (r: Result<(), ProtocolError>)
        requires
            old(self).wf(),
        ensures
            r is Ok,
            final(self).wf(),
            same_config(*old(self), *final(self)),
            final(self).outbox@ == old(self).outbox@,
            final(self).model().metas == old(self).model().metas.insert(hash@, num_chunks),
            final(self).model().chunks == old(self).model().chunks,
    {
        self.store.store_meta(hash, num_chunks);
        Ok(())
    }

    /// Verifies that the store holds every expected chunk of `hash` and
    /// that the digest of the reassembled bytes matches the hash, and
    /// returns the reassembled content; the surrounding layer writes it to
    /// its target path.
    pub fn finalize_file(&self, hash: &str) -> (r: Result<Vec<u8>, ProtocolError>)
        requires
            self.wf(),
        ensures
            ({
                let n = self.model().metas[hash@] as int;
                let ok = self.model().metas.contains_key(hash@) && file_complete(
                    self.model(),
                    hash@,
                    n,
                ) && crate::digest::hex_of(
                    crate::digest::digest_of(crate::storage::assemble(self.model(), hash@, n)),
                ) == hash@;
                &&& r is Ok <==> ok
                &&& (r matches Ok(bytes) ==> bytes@ == crate::storage::assemble(
                    self.model(),
                    hash@,
                    n,
                ))
                &&& (r matches Err(e) ==> e is Integrity)
            }),
    {
        self.store.finalize_file(hash)
    }

    /// Audits `hash` against the expected count and queues the status
    /// message the peer is owed: `ACK` when complete, else a `NAK`
    /// carrying exactly the missing ranges. Returns completeness.
    fn push_status(&mut self, hash: &str, num_chunks: Option<u32>) -> (complete: bool)
        requires
            old(self).wf(),
        ensures
            final(self).wf(),
            same_config(*old(self), *final(self)),
            final(self).model() == old(self).model(),
            final(self).outbox@.len() == old(self).outbox@.len() + 1,
            final(self).outbox@.drop_last() == old(self).outbox@,
            is_status(old(self).model(), hash@, num_chunks, final(self).outbox@.last()@),
            complete == match known_count(old(self).model(), hash@, num_chunks) {
                Some(n) => file_complete(old(self).model(), hash@, n as int),
                None => false,
            },
    {
        let (complete, missing) = self.store.validate_file(hash, num_chunks);
        if complete {
            self.outbox.push(Message::ACK(hash.to_owned()));
        } else {
            proof {
                if known_count(self.model(), hash@, num_chunks) is None {
                    assert(missing@ =~= Seq::<(u32, u32)>::empty());
                }
            }
            self.outbox.push(Message::NAK(hash.to_owned(), Some(missing)));
        }
        proof {
            assert(self.outbox@.drop_last() =~= old(self).outbox@);
        }
        complete
    }

    /// One round of the sync engine for `hash`: audits the store and
    /// queues the status message, and reports whether the file is
    /// complete. The surrounding receive loop feeds inbound messages
    /// through `process_message` and calls this again after each timeout
    /// until the transfer completes or fails.
    pub fn sync_and_send(&mut self, hash: &str, num_chunks: Option<u32>) -> (r: Result<
        bool,
        ProtocolError,
    >)
        requires
            old(self).wf(),
        ensures
            final(self).wf(),
            same_config(*old(self), *final(self)),
            final(self).model() == old(self).model(),
            final(self).outbox@.len() == old(self).outbox@.len() + 1,
            final(self).outbox@.drop_last() == old(self).outbox@,
            is_status(old(self).model(), hash@, num_chunks, final(self).outbox@.last()@),
            r matches Ok(complete) && complete == match known_count(
                old(self).model(),
                hash@,
                num_chunks,
            ) {
                Some(n) => file_complete(old(self).model(), hash@, n as int),
                None => false,
            },
    {
        Ok(self.push_status(hash, num_chunks))
    }

    /// Records or looks up the expected chunk count for `hash`, then
    /// audits completeness: returns `(complete, num_chunks)`, or
    /// `(false, 0)` when no count is known.
    pub fn local_sync(&mut self, hash: &str, num_chunks: Option<u32>) -> (r: Result<
        (bool, u32),
        ProtocolError,
    >)
        requires
            old(self).wf(),
        ensures
            final(self).wf(),
            same_config(*old(self), *final(self)),
            final(self).outbox@ == old(self).outbox@,
            final(self).model().chunks == old(self).model().chunks,
            final(self).model().metas == match num_chunks {
                Some(n) => old(self).model().metas.insert(hash@, n),
                None => old(self).model().metas,
            },
            r matches Ok((complete, n)) && match known_count(final(self).model(), hash@, None) {
                Some(kn) => n == kn && complete == file_complete(
                    final(self).model(),
                    hash@,
                    kn as int,
                ),
                None => !complete && n == 0,
            },
    {
        if let Some(n) = num_chunks {
            self.store.store_meta(hash, n);
        }
        let n = match self.store.load_meta(hash) {
            Some(n) => n,
            None => {
                return Ok((false, 0));
            }
        };
        let (complete, _missing) = self.store.validate_file(hash, Some(n));
        Ok((complete, n))
    }

    /// Queues a `ReceiveChunk` message for every stored chunk whose index
    /// lies in one of the requested closed ranges, in order; an index with
    /// no stored chunk is skipped.
    #[verifier::loop_isolation(false)]
    pub fn send_chunks(&mut self, hash: &str, chunks: &[(u32, u32)]) -> (r: Result<
        (),
        ProtocolError,
    >)
        requires
            old(self).wf(),
        ensures
            r is Ok,
            final(self).wf(),
            same_config(*old(self), *final(self)),
            final(self).model() == old(self).model(),
            msgs_view(final(self).outbox@) == msgs_view(old(self).outbox@) + ranges_msgs(
                old(self).model(),
                hash@,
                chunks@,
            ),
    {
        let ghost m0 = self.model();
        let ghost pre = msgs_view(self.outbox@);
        let mut k: usize = 0;
        while k < chunks.len()
            invariant
                k <= chunks@.len(),
                self.wf(),
                self.model() == m0,
                same_config(*old(self), *self),
                msgs_view(self.outbox@) == pre + ranges_msgs(m0, hash@, chunks@.take(k as int)),
            decreases chunks@.len() - k,
        {
            let (f, l) = chunks[k];
            let ghost inner_pre = msgs_view(self.outbox@);
            if f <= l {
                let mut cur: u64 = f as u64;
                while cur <= l as u64
                    invariant
                        f as u64 <= cur <= l as u64 + 1,
                        self.wf(),
                        self.model() == m0,
                        same_config(*old(self), *self),
                        msgs_view(self.outbox@) == inner_pre + range_msgs(
                            m0,
                            hash@,
                            f as int,
                            cur as int - 1,
                        ),
                    decreases l as u64 + 1 - cur,
                {
                    match self.store.load_chunk(hash, cur as u32) {
                        Ok(d) => {
                            let ghost ob = self.outbox@;
                            let msg = Message::ReceiveChunk(hash.to_owned(), cur as u32, d);
                            proof {
                                lemma_msgs_view_push(ob, msg);
                                lemma_range_msgs_snoc(m0, hash@, f as int, cur as int);
                            }
                            self.outbox.push(msg);
                            proof {
                                assert(inner_pre + range_msgs(m0, hash@, f as int, cur as int)
                                    =~= (inner_pre + range_msgs(
                                    m0,
                                    hash@,
                                    f as int,
                                    cur as int - 1,
                                )).push(msg@));
                            }
                        }
                        Err(_) => {
                            proof {
                                lemma_range_msgs_snoc(m0, hash@, f as int, cur as int);
                                assert(inner_pre + range_msgs(m0, hash@, f as int, cur as int)
                                    =~= inner_pre + range_msgs(
                                    m0,
                                    hash@,
                                    f as int,
                                    cur as int - 1,
                                ));
                            }
                        }
                    }
                    cur += 1;
                }
            } else {
                proof {
                    assert(range_msgs(m0, hash@, f as int, l as int) =~= Seq::<
                        MessageView,
                    >::empty());
                }
            }
            proof {
                lemma_ranges_msgs_snoc(m0, hash@, chunks@, k as int);
                assert(msgs_view(self.outbox@) =~= pre + ranges_msgs(
                    m0,
                    hash@,
                    chunks@.take(k as int + 1),
                ));
            }
            k += 1;
        }
        proof {
            assert(chunks@.take(chunks@.len() as int) =~= chunks@);
        }
        Ok(())
    }

    /// Imports a file's content: splits it into chunks stored under the
    /// hex digest of the whole, records the chunk count, and returns
    /// `(hash, num_chunks, mode)`; the mode of the stored copy is 0.
    #[verifier::loop_isolation(false)]
    pub fn local_import(&mut self, data: &[u8]) -> (r: Result<(String, u32, u16), ProtocolError>)
        requires
            old(self).wf(),
            chunk_count(data@.len()) <= u32::MAX,
        ensures
            final(self).wf(),
            same_config(*old(self), *final(self)),
            final(self).outbox@ == old(self).outbox@,
            (r matches Ok((h, n, mode)) && {
                &&& h@ == hex_digest(data@)
                &&& n == chunk_count(data@.len())
                &&& mode == 0
                &&& final(self).model().chunks == import_chunks(
                    old(self).model().chunks,
                    h@,
                    data@,
                    n as int,
                )
                &&& final(self).model().metas == old(self).model().metas.insert(h@, n)
            }),
    {
        let dg = crate::digest::content_digest(data);
        let hash = crate::digest::hex_str(dg.as_slice());
        let ghost cs = crate::CHUNK_SIZE as int;
        let ghost len = data@.len() as int;
        let mut index: u32 = 0;
        let mut offset: usize = 0;
        while offset < data.len()
            invariant
                self.wf(),
                same_config(*old(self), *self),
                self.outbox@ == old(self).outbox@,
                hash@ == hex_digest(data@),
                offset as int == (if (index as int) * cs <= len {
                    (index as int) * cs
                } else {
                    len
                }),
                (index as int) * cs < len + cs,
                self.model().chunks == import_chunks(
                    old(self).model().chunks,
                    hash@,
                    data@,
                    index as int,
                ),
                self.model().metas == old(self).model().metas,
            decreases data@.len() - offset,
        {
            proof {
                assert((index as int) * cs <= len);
                let cc = chunk_count(data@.len()) as int;
                let idx = index as int;
                assert(idx < cc) by (nonlinear_arith)
                    requires
                        idx * cs < len,
                        idx >= 0,
                        cs == 4096,
                        len >= 0,
                        cc == (len + cs - 1) / cs,
                ;
            }
            let end = if data.len() - offset > crate::CHUNK_SIZE {
                offset + crate::CHUNK_SIZE
            } else {
                data.len()
            };
            let piece = vstd::slice::slice_subrange(data, offset, end);
            proof {
                assert(piece@ =~= crate::storage::chunk_of(data@, index as int));
            }
            self.store.store_chunk(hash.as_str(), index, piece);
            index = index + 1;
            offset = end;
        }
        proof {
            let cc = chunk_count(data@.len()) as int;
            let idx = index as int;
            assert(idx * cs >= len);
            assert(idx == cc) by (nonlinear_arith)
                requires
                    cs == 4096,
                    len >= 0,
                    idx >= 0,
                    cc == (len + cs - 1) / cs,
                    idx * cs >= len,
                    idx * cs < len + cs,
            ;
        }
        self.store.store_meta(hash.as_str(), index);
        Ok((hash, index, 0))
    }

    /// Answers a transmit request: imports the file's bytes and queues the
    /// `SuccessTransmit` reply carrying the channel, the hash, the chunk
    /// count and the mode of the stored copy.
    pub fn import_result(&mut self, channel_id: u64, data: &[u8]) -> (r: Result<
        (String, u32),
        ProtocolError,
    >)
        requires
            old(self).wf(),
            chunk_count(data@.len()) <= u32::MAX,
        ensures
            final(self).wf(),
            same_config(*old(self), *final(self)),
            final(self).outbox@.len() == old(self).outbox@.len() + 1,
            final(self).outbox@.drop_last() == old(self).outbox@,
            (r matches Ok((h, n)) && {
                &&& h@ == hex_digest(data@)
                &&& n == chunk_count(data@.len())
                &&& final(self).model().chunks == import_chunks(
                    old(self).model().chunks,
                    h@,
                    data@,
                    n as int,
                )
                &&& final(self).model().metas == old(self).model().metas.insert(h@, n)
                &&& final(self).outbox@.last()@ == MessageView::SuccessTransmit(
                    channel_id,
                    h@,
                    n,
                    Some(0u32),
                )
            }),
    {
        let (hash, num_chunks, mode) = self.local_import(data)?;
        self.outbox.push(
            Message::SuccessTransmit(channel_id, hash.clone(), num_chunks, Some(mode as u32)),
        );
        proof {
            assert(self.outbox@.drop_last() =~= old(self).outbox@);
        }
        Ok((hash, num_chunks))
    }

    /// Processes one inbound message: applies its side effects on the
    /// store, queues any owed replies, and hands the message back to the
    /// caller; a peer-reported failure surfaces as an error. The optional
    /// hash names the transfer the caller is driving; an acknowledgment is
    /// handed back in any case and the caller decides what it closes.
    pub fn process_message(&mut self, msg: Message, hash: Option<&String>) -> (r: Result<
        Option<Message>,
        ProtocolError,
    >)
        requires
            old(self).wf(),
            msg_wf(msg@),
        ensures
            final(self).wf(),
            same_config(*old(self), *final(self)),
            process_effect(*old(self), *final(self), msg@, r),
    {
        let _ = hash;
        match msg {
            Message::Sync(h) => Ok(Some(Message::Sync(h))),
            Message::Metadata(h, n) => {
                self.store.store_meta(h.as_str(), n);
                Ok(Some(Message::Metadata(h, n)))
            }
            Message::ReceiveChunk(h, i, d) => {
                self.store.store_chunk(h.as_str(), i, d.as_slice());
                Ok(Some(Message::ReceiveChunk(h, i, d)))
            }
            Message::ACK(h) => Ok(Some(Message::ACK(h))),
            Message::NAK(h, None) => Ok(Some(Message::NAK(h, None))),
            Message::NAK(h, Some(rs)) => {
                self.send_chunks(h.as_str(), rs.as_slice())?;
                Ok(Some(Message::NAK(h, Some(rs))))
            }
            Message::ReqReceive(c, h, p, Some(mode)) => {
                self.push_status(h.as_str(), None);
                Ok(Some(Message::ReqReceive(c, h, p, Some(mode))))
            }
            Message::ReqReceive(c, h, p, None) => Ok(Some(Message::ReqReceive(c, h, p, None))),
            Message::ReqTransmit(c, p) => Ok(Some(Message::ReqTransmit(c, p))),
            Message::SuccessReceive(c) => Ok(Some(Message::SuccessReceive(c))),
            Message::SuccessTransmit(c, h, n, mo) => {
                self.push_status(h.as_str(), Some(n));
                Ok(Some(Message::SuccessTransmit(c, h, n, mo)))
            }
            Message::Failure(c, e) => Err(ProtocolError::RemoteFailure(c, e)),
        }
    }
}

proof fn lemma_range_msgs_snoc(m: StoreModel, h: Seq<char>, lo: int, k: int)
    requires
        0 <= lo <= k,
        k <= u32::MAX,
    ensures
        range_msgs(m, h, lo, k) == range_msgs(m, h, lo, k - 1) + (if m.chunks.contains_key(
            (h, k),
        ) {
            seq![MessageView::ReceiveChunk(h, k as u32, m.chunks[(h, k)])]
        } else {
            Seq::<MessageView>::empty()
        }),
    decreases k - lo,
{
    let item = if m.chunks.contains_key((h, k)) {
        seq![MessageView::ReceiveChunk(h, k as u32, m.chunks[(h, k)])]
    } else {
        Seq::<MessageView>::empty()
    };
    if lo == k {
        assert(range_msgs(m, h, lo + 1, k) =~= Seq::<MessageView>::empty());
        assert(range_msgs(m, h, lo, k - 1) =~= Seq::<MessageView>::empty());
        assert(range_msgs(m, h, lo, k) =~= range_msgs(m, h, lo, k - 1) + item);
    } else {
        lemma_range_msgs_snoc(m, h, lo + 1, k);
        let head = if m.chunks.contains_key((h, lo)) {
            seq![MessageView::ReceiveChunk(h, lo as u32, m.chunks[(h, lo)])]
        } else {
            Seq::<MessageView>::empty()
        };
        assert(range_msgs(m, h, lo, k) == head + (range_msgs(m, h, lo + 1, k - 1) + item));
        assert(head + (range_msgs(m, h, lo + 1, k - 1) + item) =~= (head + range_msgs(
            m,
            h,
            lo + 1,
            k - 1,
        )) + item);
    }
}

proof fn lemma_ranges_msgs_snoc(m: StoreModel, h: Seq<char>, rs: Seq<(u32, u32)>, k: int)
    requires
        0 <= k < rs.len(),
    ensures
        ranges_msgs(m, h, rs.take(k + 1)) == ranges_msgs(m, h, rs.take(k)) + range_msgs(
            m,
            h,
            rs[k].0 as int,
            rs[k].1 as int,
        ),
    decreases k,
{
    if k == 0 {
        assert(rs.take(1)[0] == rs[0]);
        assert(rs.take(1).drop_first() =~= rs.take(0));
        assert(ranges_msgs(m, h, rs.take(0)) == Seq::<MessageView>::empty());
        assert(ranges_msgs(m, h, rs.take(1)) =~= ranges_msgs(m, h, rs.take(0)) + range_msgs(
            m,
            h,
            rs[0].0 as int,
            rs[0].1 as int,
        ));
    } else {
        let t = rs.drop_first();
        lemma_ranges_msgs_snoc(m, h, t, k - 1);
        assert(rs.take(k + 1)[0] == rs[0]);
        assert(rs.take(k)[0] == rs[0]);
        assert(rs.take(k + 1).drop_first() =~= t.take(k));
        assert(rs.take(k).drop_first() =~= t.take(k - 1));
        assert(t[k - 1] == rs[k]);
        let r0 = range_msgs(m, h, rs[0].0 as int, rs[0].1 as int);
        let rk = range_msgs(m, h, rs[k].0 as int, rs[k].1 as int);
        assert(ranges_msgs(m, h, rs.take(k + 1)) == r0 + (ranges_msgs(m, h, t.take(k - 1)) + rk));
        assert(r0 + (ranges_msgs(m, h, t.take(k - 1)) + rk) =~= (r0 + ranges_msgs(
            m,
            h,
            t.take(k - 1),
        )) + rk);
    }
}

} // verus!
