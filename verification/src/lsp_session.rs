//! The state of one language-server session: request numbering, callbacks
//! that wait for their responses, messages held back until the server has
//! answered `initialize`, shutdown, and the reader's polling decisions.
//!
//! The transport and the callbacks themselves live with the caller; this
//! module decides what happens to each message and keeps the bookkeeping.

use vstd::prelude::*;
use vstd::string::StringSliceAdditionalSpecFns;
use crate::text::{find_bytes_from, find_from, push_all, push_range, trim_end, ws_back, ws_len_back};

verus! {

/// The `id` member of an incoming message.
#[derive(PartialEq, Eq, Structural, Debug, Clone, Copy)]
pub enum MessageId {
    /// No `id`: a notification.
    Absent,
    /// An integer id.
    Number(i64),
    /// An id of another kind, which no request of ours carries.
    Other,
}

/// What becomes of an outgoing message.
pub enum Delivery<M> {
    /// Held until the server is initialized.
    Queued,
    /// To be written to the server now.
    Send(M),
}

/// What becomes of an incoming message.
pub enum Route<C> {
    /// A response; the callback that waited for it, if one did.
    Response(Option<C>),
    /// A notification for the session's notification handler.
    Notification,
    /// Nothing to do.
    Ignored,
}

/// The reader's decision after one poll of the transport.
#[derive(PartialEq, Eq, Structural, Debug, Clone, Copy)]
pub enum ReaderStep {
    /// The server is gone: report its exit and stop reading.
    Stop,
    /// Poll again after this many milliseconds.
    Wait(u64),
}

/// How long the reader waits after a poll that brought nothing.
pub const READER_IDLE_DELAY_MS: u64 = 50;

/// One session with a language server. `M` is an outgoing message, `C` a
/// callback waiting for a response.
pub struct ClientSession<M, C> {
    /// The id of the last request made; ids count up from 1.
    pub next_request_id: i64,
    /// The requests that wait for a response, with their callbacks, in the
    /// order they were made.
    pub pending: Vec<(i64, C)>,
    /// The messages held back until initialization, oldest first.
    pub pre_init_queue: Vec<M>,
    pub is_initialized: bool,
    pub is_shutting_down: bool,
}

/// The pending ids all lie in `1..=last` and increase strictly.
pub open spec fn ids_ordered<C>(p: Seq<(i64, C)>, last: i64) -> bool {
    &&& forall|j: int| 0 <= j < p.len() ==> 0 < #[trigger] p[j].0 <= last
    &&& forall|j: int, k: int| #![trigger p[j], p[k]] 0 <= j < k < p.len() ==> p[j].0 < p[k].0
}

/// The index of the first pending entry with id `id`, or -1.
pub open spec fn id_index<C>(p: Seq<(i64, C)>, id: i64) -> int
    decreases p.len(),
{
    if p.len() == 0 {
        -1
    } else if p[0].0 == id {
        0
    } else {
        let r = id_index(p.drop_first(), id);
        if r < 0 {
            -1
        } else {
            r + 1
        }
    }
}

/// The callback that a response with id `id` resolves, and the pending
/// entries left after it.
pub open spec fn take_response<C>(p: Seq<(i64, C)>, id: MessageId) -> (Option<C>, Seq<(i64, C)>) {
    match id {
        MessageId::Number(n) => {
            let j = id_index(p, n);
            if j >= 0 {
                (Some(p[j].1), p.remove(j))
            } else {
                (None, p)
            }
        },
        _ => (None, p),
    }
}

/// The route of an incoming message and the pending entries after it.
pub open spec fn route_spec<C>(p: Seq<(i64, C)>, id: MessageId, has_method: bool, has_handler: bool) -> (
    Route<C>,
    Seq<(i64, C)>,
) {
    match id {
        MessageId::Absent => (
            if has_method && has_handler {
                Route::Notification
            } else {
                Route::Ignored
            },
            p,
        ),
        _ => (Route::Response(take_response(p, id).0), take_response(p, id).1),
    }
}

/// Whether a shutdown begins, and the shutting-down flag after the request.
pub open spec fn shutdown_spec(shutting_down: bool, transport_present: bool) -> (bool, bool) {
    if !shutting_down && transport_present {
        (true, true)
    } else {
        (false, shutting_down)
    }
}

/// The queue after the messages `msgs` are offered one by one, none of them
/// bypassing it, while the server is not initialized.
pub open spec fn offer_all<M>(queue: Seq<M>, msgs: Seq<M>) -> Seq<M>
    decreases msgs.len(),
{
    if msgs.len() == 0 {
        queue
    } else {
        offer_all(queue.push(msgs[0]), msgs.drop_first())
    }
}

/// The reader's decision after a poll: `poll_ok` whether the transport
/// answered, `running` whether the server runs, `messages` and
/// `stderr_lines` how much the poll brought.
pub open spec fn reader_spec(poll_ok: bool, running: bool, messages: nat, stderr_lines: nat) -> ReaderStep {
    if !poll_ok || (!running && messages == 0 && stderr_lines == 0) {
        ReaderStep::Stop
    } else if messages > 0 || stderr_lines > 0 {
        ReaderStep::Wait(0)
    } else {
        ReaderStep::Wait(READER_IDLE_DELAY_MS)
    }
}

proof fn lemma_id_index<C>(p: Seq<(i64, C)>, id: i64)
    ensures
        -1 <= id_index(p, id) < p.len(),
        id_index(p, id) >= 0 ==> p[id_index(p, id)].0 == id,
        forall|k: int| 0 <= k < p.len() && (id_index(p, id) < 0 || k < id_index(p, id)) ==> #[trigger] p[k].0 != id,
    decreases p.len(),
{
    if p.len() > 0 && p[0].0 != id {
        let q = p.drop_first();
        lemma_id_index(q, id);
        assert forall|k: int| 0 <= k < p.len() && (id_index(p, id) < 0 || k < id_index(p, id)) implies #[trigger] p[k].0 != id by {
            if k > 0 {
                assert(p[k] == q[k - 1]);
            }
        }
    }
}

proof fn lemma_remove_ordered<C>(p: Seq<(i64, C)>, last: i64, j: int)
    requires
        ids_ordered(p, last),
        0 <= j < p.len(),
    ensures
        ids_ordered(p.remove(j), last),
        forall|k: int| 0 <= k < p.remove(j).len() ==> #[trigger] p.remove(j)[k].0 != p[j].0,
{
    let r = p.remove(j);
    assert forall|k: int| 0 <= k < r.len() implies r[k] == (if k < j { p[k] } else { p[k + 1] }) by {}
    assert forall|k: int| 0 <= k < r.len() implies 0 < #[trigger] r[k].0 <= last by {
        if k >= j {
            assert(r[k] == p[k + 1]);
        }
    }
    assert forall|a: int, b: int| 0 <= a < b < r.len() implies #[trigger] r[a].0 < #[trigger] r[b].0 by {
        let a2 = if a < j { a } else { a + 1 };
        let b2 = if b < j { b } else { b + 1 };
        assert(r[a] == p[a2] && r[b] == p[b2]);
        assert(p[a2].0 < p[b2].0);
    }
    assert forall|k: int| 0 <= k < r.len() implies #[trigger] r[k].0 != p[j].0 by {
        let k2 = if k < j { k } else { k + 1 };
        assert(r[k] == p[k2]);
        if k2 < j {
            assert(p[k2].0 < p[j].0);
        } else {
            assert(p[j].0 < p[k2].0);
        }
    }
}

impl<M, C> ClientSession<M, C> {
    /// The session's invariant: request ids are never negative and the
    /// pending ids are ordered and already issued.
    pub open spec fn wf(&self) -> bool {
        &&& 0 <= self.next_request_id
        &&& ids_ordered(self.pending@, self.next_request_id)
    }

    /// A fresh session: no request made, nothing pending or queued, not
    /// initialized.
    pub fn new() -> (r: Self)
        ensures
            r.wf(),
            r.next_request_id == 0,
            r.pending@.len() == 0,
            r.pre_init_queue@.len() == 0,
            !r.is_initialized,
            !r.is_shutting_down,
    {
        ClientSession {
            next_request_id: 0,
            pending: Vec::new(),
            pre_init_queue: Vec::new(),
            is_initialized: false,
            is_shutting_down: false,
        }
    }

    /// Offers `msg` for sending: before initialization it is held back
    /// unless `bypass` is set; otherwise it goes out now.
    pub fn queue_or_send(&mut self, msg: M, bypass: bool) -> (r: Delivery<M>)
        ensures
            !bypass && !old(self).is_initialized ==> r is Queued && final(self).pre_init_queue@
                == old(self).pre_init_queue@.push(msg),
            bypass || old(self).is_initialized ==> r == Delivery::Send(msg)
                && final(self).pre_init_queue@ == old(self).pre_init_queue@,
            final(self).pending@ == old(self).pending@,
            final(self).next_request_id == old(self).next_request_id,
            final(self).is_initialized == old(self).is_initialized,
            final(self).is_shutting_down == old(self).is_shutting_down,
    {
        if !bypass && !self.is_initialized {
            self.pre_init_queue.push(msg);
            Delivery::Queued
        } else {
            Delivery::Send(msg)
        }
    }

    /// Numbers a new request and, where a callback is given, records it as
    /// waiting for the response. Returns the request's id.
    pub fn start_request(&mut self, callback: Option<C>) -> (id: i64)
        requires
            old(self).wf(),
            old(self).next_request_id < i64::MAX,
        ensures
            id == old(self).next_request_id + 1,
            final(self).next_request_id == id,
            final(self).wf(),
            final(self).pending@ == (match callback {
                Some(c) => old(self).pending@.push((id, c)),
                None => old(self).pending@,
            }),
            final(self).pre_init_queue@ == old(self).pre_init_queue@,
            final(self).is_initialized == old(self).is_initialized,
            final(self).is_shutting_down == old(self).is_shutting_down,
    {
        let id = self.next_request_id + 1;
        self.next_request_id = id;
        match callback {
            Some(c) => {
                let ghost p = self.pending@;
                self.pending.push((id, c));
                assert forall|j: int, k: int| 0 <= j < k < self.pending@.len() implies #[trigger] self.pending@[j].0
                    < #[trigger] self.pending@[k].0 by {
                    if k == p.len() {
                        assert(self.pending@[j] == p[j]);
                    } else {
                        assert(self.pending@[j] == p[j] && self.pending@[k] == p[k]);
                    }
                }
                assert forall|j: int| 0 <= j < self.pending@.len() implies 0 < #[trigger] self.pending@[j].0 <= id by {
                    if j < p.len() {
                        assert(self.pending@[j] == p[j]);
                    }
                }
            },
            None => {},
        }
        id
    }

    /// Dispatches an incoming message by its id: a response resolves the
    /// request with that id, if one waits; a message without id is a
    /// notification when it names a method and a handler is installed.
    pub fn route_message(&mut self, id: MessageId, has_method: bool, has_handler: bool) -> (r: Route<C>)
        requires
            old(self).wf(),
        ensures
            (r, final(self).pending@) == route_spec(old(self).pending@, id, has_method, has_handler),
            final(self).wf(),
            final(self).next_request_id == old(self).next_request_id,
            final(self).pre_init_queue@ == old(self).pre_init_queue@,
            final(self).is_initialized == old(self).is_initialized,
            final(self).is_shutting_down == old(self).is_shutting_down,
    {
        match id {
            MessageId::Absent => {
                if has_method && has_handler {
                    Route::Notification
                } else {
                    Route::Ignored
                }
            },
            MessageId::Other => Route::Response(None),
            MessageId::Number(n) => {
                let ghost p = self.pending@;
                proof {
                    lemma_id_index(p, n);
                }
                let mut i: usize = 0;
                while i < self.pending.len() && self.pending[i].0 != n
                    invariant
                        i <= self.pending@.len(),
                        self.pending@ == p,
                        forall|k: int| 0 <= k < i ==> #[trigger] p[k].0 != n,
                    decreases self.pending@.len() - i,
                {
                    i = i + 1;
                }
                if i < self.pending.len() {
                    assert(id_index(p, n) == i);
                    proof {
                        lemma_remove_ordered(p, self.next_request_id, i as int);
                    }
                    let entry = self.pending.remove(i);
                    Route::Response(Some(entry.1))
                } else {
                    assert(id_index(p, n) < 0);
                    Route::Response(None)
                }
            },
        }
    }

    /// The server answered `initialize`: the session is initialized and
    /// the held-back messages are handed out, oldest first, to be sent
    /// after the `initialized` notification.
    pub fn mark_initialized(&mut self) -> (held: Vec<M>)
        ensures
            held@ == old(self).pre_init_queue@,
            final(self).pre_init_queue@.len() == 0,
            final(self).is_initialized,
            final(self).pending@ == old(self).pending@,
            final(self).next_request_id == old(self).next_request_id,
            final(self).is_shutting_down == old(self).is_shutting_down,
    {
        let mut held: Vec<M> = Vec::new();
        std::mem::swap(&mut held, &mut self.pre_init_queue);
        self.is_initialized = true;
        held
    }

    /// Begins a shutdown, once: returns whether the `shutdown` request is
    /// to be sent, which it is only for a session with a transport that is
    /// not shutting down already.
    pub fn begin_shutdown(&mut self, transport_present: bool) -> (r: bool)
        ensures
            (r, final(self).is_shutting_down) == shutdown_spec(old(self).is_shutting_down, transport_present),
            final(self).pending@ == old(self).pending@,
            final(self).pre_init_queue@ == old(self).pre_init_queue@,
            final(self).next_request_id == old(self).next_request_id,
            final(self).is_initialized == old(self).is_initialized,
    {
        if self.is_shutting_down || !transport_present {
            false
        } else {
            self.is_shutting_down = true;
            true
        }
    }
}

/// The reader's decision after one poll of the transport.
pub fn reader_step(poll_ok: bool, running: bool, messages: usize, stderr_lines: usize) -> (r: ReaderStep)
    ensures
        r == reader_spec(poll_ok, running, messages as nat, stderr_lines as nat),
{
    if !poll_ok || (!running && messages == 0 && stderr_lines == 0) {
        ReaderStep::Stop
    } else if messages > 0 || stderr_lines > 0 {
        ReaderStep::Wait(0)
    } else {
        ReaderStep::Wait(READER_IDLE_DELAY_MS)
    }
}

/// The stderr text of a server that reports a path it could not watch; the
/// reader drops such lines.
pub open spec fn watch_noise() -> Seq<u8> {
    "WARN notify error: No path was found".spec_bytes()
}

/// The log line for a stderr line of server `name`: the line without
/// trailing whitespace, prefixed with the server's name; none for noise.
pub open spec fn stderr_log_spec(name: Seq<u8>, line: Seq<u8>) -> Option<Seq<u8>> {
    let t = trim_end(line);
    if find_from(t, watch_noise(), 0) is Some {
        None
    } else {
        Some("LSP ".spec_bytes() + name + " stderr: ".spec_bytes() + t)
    }
}

fn trim_end_len(s: &[u8]) -> (r: usize)
    ensures
        r <= s@.len(),
        s@.take(r as int) == trim_end(s@),
{
    let mut b = s.len();
    let mut done = false;
    assert(s@.subrange(0, b as int) =~= s@);
    while !done
        invariant
            b <= s@.len(),
            trim_end(s@) == trim_end(s@.subrange(0, b as int)),
            done ==> ws_len_back(s@.subrange(0, b as int)) == 0,
        decreases 2 * b + (if done { 0int } else { 1int }),
    {
        let w = ws_back(s, 0, b);
        if w == 0 {
            done = true;
        } else {
            assert(s@.subrange(0, b as int).take(b - w) =~= s@.subrange(0, b - w));
            b = b - w;
        }
    }
    assert(s@.take(b as int) =~= s@.subrange(0, b as int));
    b
}

/// What the reader logs for the stderr line `line` of server
/// `client_name`, or `None` where it drops the line.
pub fn stderr_log_line(client_name: &str, line: &str) -> (r: Option<Vec<u8>>)
    ensures
        r matches Some(v) ==> stderr_log_spec(client_name.spec_bytes(), line.spec_bytes()) == Some(v@),
        r is None ==> stderr_log_spec(client_name.spec_bytes(), line.spec_bytes()) is None,
{
    let bytes = line.as_bytes();
    let n = trim_end_len(bytes);
    let mut t: Vec<u8> = Vec::new();
    push_range(&mut t, bytes, 0, n);
    assert(t@ =~= trim_end(line.spec_bytes()));
    match find_bytes_from(t.as_slice(), "WARN notify error: No path was found".as_bytes(), 0) {
        Some(_) => None,
        None => {
            let mut out: Vec<u8> = Vec::new();
            push_all(&mut out, "LSP ".as_bytes());
            push_all(&mut out, client_name.as_bytes());
            push_all(&mut out, " stderr: ".as_bytes());
            push_all(&mut out, t.as_slice());
            Some(out)
        },
    }
}

/// A response resolves the request it answers: after a request with
/// callback `c`, the response carrying its id hands back `c` and leaves the
/// pending requests as they were before.
pub proof fn response_resolves_its_request<C>(p: Seq<(i64, C)>, last: i64, c: C)
    requires
        0 <= last < i64::MAX,
        ids_ordered(p, last),
    ensures
        take_response(p.push(((last + 1) as i64, c)), MessageId::Number((last + 1) as i64)) == (Some(c), p),
{
    let id = (last + 1) as i64;
    let q = p.push((id, c));
    lemma_id_index(q, id);
    let j = id_index(q, id);
    assert(q[p.len() as int].0 == id);
    if j >= 0 && j < p.len() {
        assert(q[j] == p[j]);
        assert(p[j].0 <= last);
    }
    assert(j == p.len());
    assert(q.remove(j) =~= p);
}

/// A request is resolved at most once: after a response has been taken,
/// a second response with the same id finds nothing waiting.
pub proof fn each_request_resolves_once<C>(p: Seq<(i64, C)>, last: i64, id: MessageId)
    requires
        ids_ordered(p, last),
    ensures
        take_response(take_response(p, id).1, id).0 is None,
{
    if let MessageId::Number(n) = id {
        lemma_id_index(p, n);
        let j = id_index(p, n);
        if j >= 0 {
            lemma_remove_ordered(p, last, j);
            lemma_id_index(p.remove(j), n);
            let r = p.remove(j);
            if id_index(r, n) >= 0 {
                assert(r[id_index(r, n)].0 != p[j].0);
            }
        }
    }
}

/// A shutdown is requested at most once: right after one has begun,
/// asking again sends nothing.
pub proof fn shutdown_begins_once(shutting_down: bool, transport_present: bool)
    ensures
        !shutdown_spec(shutdown_spec(shutting_down, transport_present).1, transport_present).0,
{
}

/// Messages offered before initialization are held back in the order they
/// came, and are what initialization hands out.
pub proof fn held_messages_keep_their_order<M>(queue: Seq<M>, msgs: Seq<M>)
    ensures
        offer_all(queue, msgs) == queue + msgs,
    decreases msgs.len(),
{
    if msgs.len() > 0 {
        held_messages_keep_their_order(queue.push(msgs[0]), msgs.drop_first());
        assert(queue.push(msgs[0]) + msgs.drop_first() =~= queue + msgs);
    }
}

} // verus!
