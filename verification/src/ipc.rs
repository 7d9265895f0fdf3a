//! Endpoints: bounded queues of messages between processes.
//!
//! A message is copied in at send and copied out at receive; nothing else
//! reads or writes it in between, so what a receiver takes is what a sender
//! put, in the order it was put. Each endpoint holds a fixed number of
//! messages in a ring: a full endpoint refuses rather than grows, and an
//! empty one says the caller would block.
use vstd::prelude::*;
use crate::capability::Object;

verus! {

/// The largest payload a message carries inline.
pub const MAX_INLINE_BYTES: u64 = 256;
/// How many endpoints exist.
pub const MAX_ENDPOINTS: usize = 4;
/// How many messages one endpoint queues.
pub const QUEUE_DEPTH: usize = 4;
/// How many capabilities one message may carry.
pub const MAX_TRANSFERRED: u64 = 4;
/// How many regions one message may carry.
pub const MAX_TRANSFERRED_REGIONS: u64 = 2;

/// Why a message operation was refused.
#[derive(Clone, Copy, Debug, PartialEq, Eq, Structural)]
pub enum Refused {
    /// The payload or transfer lists are too long, or the endpoint is not live.
    BadArgument,
    /// The endpoint's queue is full.
    Limit,
    /// Nothing is queued.
    WouldBlock,
}

/// What a queued message carries besides its bytes, for the receiver's
/// preflight.
pub struct Pending {
    pub granted: Vec<(Object, u32, u64)>,
    pub regions: Vec<Object>,
}

/// One message as the model holds it: payload, carried capabilities,
/// carried regions.
pub type MessageView = (Seq<u8>, Seq<(Object, u32, u64)>, Seq<Object>);

/// One queued message.
struct Message {
    bytes: Vec<u8>,
    granted: Vec<(Object, u32, u64)>,
    regions: Vec<Object>,
}

spec fn message_view(m: Message) -> MessageView {
    (m.bytes@, m.granted@, m.regions@)
}

/// One endpoint: a ring of `QUEUE_DEPTH` slots, `count` of them in use
/// from `head` on.
struct Endpoint {
    live: bool,
    queue: Vec<Message>,
    count: usize,
    head: usize,
}

spec fn endpoint_ok(e: Endpoint) -> bool {
    &&& e.queue.len() == QUEUE_DEPTH
    &&& e.head < QUEUE_DEPTH
    &&& e.count <= QUEUE_DEPTH
}

/// What an endpoint holds, oldest first.
spec fn queued(e: Endpoint) -> Seq<MessageView> {
    Seq::new(e.count as nat, |j: int| message_view(e.queue@[(e.head + j) % (QUEUE_DEPTH as int)]))
}

/// A copy of a slice.
fn copied<T: Copy>(s: &[T]) -> (v: Vec<T>)
    ensures
        v@ == s@,
{
    let mut v: Vec<T> = Vec::new();
    let mut i: usize = 0;
    while i < s.len()
        invariant
            i <= s.len(),
            v@ == s@.take(i as int),
        decreases s.len() - i,
    {
        v.push(s[i]);
        i = i + 1;
        proof {
            assert(v@ =~= s@.take(i as int));
        }
    }
    proof {
        assert(s@.take(s@.len() as int) =~= s@);
    }
    v
}

/// A message with nothing in it.
fn empty_message() -> (m: Message)
    ensures
        message_view(m) == (Seq::<u8>::empty(), Seq::<(Object, u32, u64)>::empty(), Seq::<Object>::empty()),
{
    Message { bytes: Vec::new(), granted: Vec::new(), regions: Vec::new() }
}

/// A live endpoint with nothing queued.
fn empty_endpoint(live: bool) -> (e: Endpoint)
    ensures
        endpoint_ok(e),
        e.live == live,
        queued(e) == Seq::<MessageView>::empty(),
{
    let mut queue: Vec<Message> = Vec::new();
    let mut i: usize = 0;
    while i < QUEUE_DEPTH
        invariant
            i <= QUEUE_DEPTH,
            queue.len() == i,
        decreases QUEUE_DEPTH - i,
    {
        queue.push(empty_message());
        i = i + 1;
    }
    let e = Endpoint { live, queue, count: 0, head: 0 };
    proof {
        assert(queued(e) =~= Seq::<MessageView>::empty());
    }
    e
}

/// The endpoint table, and the counters that say what it cost.
pub struct Endpoints {
    endpoints: Vec<Endpoint>,
    deliveries: u64,
    copies: u64,
    messages: u64,
}

impl Endpoints {
    /// Whether each endpoint is live.
    pub closed spec fn live(&self) -> Seq<bool> {
        self.endpoints@.map_values(|e: Endpoint| e.live)
    }

    /// What each endpoint holds, oldest first.
    pub closed spec fn queues(&self) -> Seq<Seq<MessageView>> {
        self.endpoints@.map_values(|e: Endpoint| queued(e))
    }

    /// Messages sent, payload copies made, messages delivered.
    pub closed spec fn counters(&self) -> (u64, u64, u64) {
        (self.messages, self.copies, self.deliveries)
    }

    pub closed spec fn wf(&self) -> bool {
        &&& self.endpoints.len() == MAX_ENDPOINTS
        &&& forall|i: int| 0 <= i < MAX_ENDPOINTS ==> endpoint_ok(#[trigger] self.endpoints@[i])
    }

    /// The shape every well-formed table has.
    pub proof fn lemma_wf(&self)
        requires
            self.wf(),
        ensures
            self.live().len() == MAX_ENDPOINTS,
            self.queues().len() == MAX_ENDPOINTS,
            forall|i: int| 0 <= i < MAX_ENDPOINTS ==> #[trigger] self.queues()[i].len() <= QUEUE_DEPTH,
    {
        assert forall|i: int| 0 <= i < MAX_ENDPOINTS implies #[trigger] self.queues()[i].len() <= QUEUE_DEPTH by {
            assert(endpoint_ok(self.endpoints@[i]));
        }
    }

    /// No endpoint live, nothing counted.
    pub fn new() -> (t: Endpoints)
        ensures
            t.wf(),
            t.live() == Seq::new(MAX_ENDPOINTS as nat, |i: int| false),
            t.queues() == Seq::new(MAX_ENDPOINTS as nat, |i: int| Seq::<MessageView>::empty()),
            t.counters() == (0u64, 0u64, 0u64),
    {
        let mut endpoints: Vec<Endpoint> = Vec::new();
        let mut i: usize = 0;
        while i < MAX_ENDPOINTS
            invariant
                i <= MAX_ENDPOINTS,
                endpoints.len() == i,
                forall|j: int| 0 <= j < i ==> endpoint_ok(#[trigger] endpoints@[j]) && !endpoints@[j].live
                    && queued(endpoints@[j]) == Seq::<MessageView>::empty(),
            decreases MAX_ENDPOINTS - i,
        {
            endpoints.push(empty_endpoint(false));
            i = i + 1;
        }
        let t = Endpoints { endpoints, deliveries: 0, copies: 0, messages: 0 };
        proof {
            assert(t.live() =~= Seq::new(MAX_ENDPOINTS as nat, |i: int| false));
            assert(t.queues() =~= Seq::new(MAX_ENDPOINTS as nat, |i: int| Seq::<MessageView>::empty()));
        }
        t
    }

    /// Messages sent and payload copies made.
    pub fn cost(&self) -> (r: (u64, u64))
        ensures
            r == (self.counters().0, self.counters().1),
    {
        (self.messages, self.copies)
    }

    /// Messages delivered.
    pub fn deliveries(&self) -> (r: u64)
        ensures
            r == self.counters().2,
    {
        self.deliveries
    }

    /// Makes the lowest dead endpoint live and empty.
    pub fn create(&mut self) -> (r: Option<u32>)
        requires
            old(self).wf(),
        ensures
            final(self).wf(),
            final(self).counters() == old(self).counters(),
            match first_dead(old(self).live(), 0) {
                None => r is None && final(self).live() == old(self).live() && final(self).queues() == old(self).queues(),
                Some(i) => {
                    &&& r == Some(i as u32)
                    &&& final(self).live() == old(self).live().update(i, true)
                    &&& final(self).queues() == old(self).queues().update(i, Seq::<MessageView>::empty())
                },
            },
    {
        let mut i: usize = 0;
        while i < self.endpoints.len() && self.endpoints[i].live
            invariant
                self.wf(),
                *self == *old(self),
                i <= self.endpoints.len(),
                first_dead(self.live(), 0) == first_dead(self.live(), i as int),
            decreases self.endpoints.len() - i,
        {
            proof {
                assert(self.live()[i as int]);
            }
            i = i + 1;
        }
        if i == self.endpoints.len() {
            return None;
        }
        let ghost live0 = self.live();
        let ghost queues0 = self.queues();
        proof {
            assert(!live0[i as int]);
        }
        let fresh = empty_endpoint(true);
        let _ = self.endpoints.remove(i);
        self.endpoints.insert(i, fresh);
        proof {
            assert(self.live() =~= live0.update(i as int, true));
            assert(self.queues() =~= queues0.update(i as int, Seq::<MessageView>::empty()));
        }
        Some(i as u32)
    }

    /// Whether `endpoint` names a live endpoint.
    fn usable(&self, endpoint: u32) -> (b: bool)
        requires
            self.wf(),
        ensures
            b == (endpoint < MAX_ENDPOINTS && self.live()[endpoint as int]),
    {
        let i = endpoint as usize;
        i < self.endpoints.len() && self.endpoints[i].live
    }

    /// Queues a message, copied whole: its payload, and the capabilities
    /// and regions it carries. Refused when anything is too long or the
    /// endpoint is not live, and when its queue is full.
    pub fn send(
        &mut self,
        endpoint: u32,
        payload: &[u8],
        granted: &[(Object, u32, u64)],
        regions: &[Object],
    ) -> (r: Result<(), Refused>)
        requires
            old(self).wf(),
            old(self).counters().0 < u64::MAX,
            old(self).counters().1 < u64::MAX,
        ensures
            final(self).wf(),
            final(self).live() == old(self).live(),
            ({
                let (m, c, d) = old(self).counters();
                if payload@.len() > MAX_INLINE_BYTES || granted@.len() > MAX_TRANSFERRED || regions@.len() > MAX_TRANSFERRED_REGIONS
                    || endpoint >= MAX_ENDPOINTS || !old(self).live()[endpoint as int] {
                    r == Err::<(), Refused>(Refused::BadArgument) && final(self).queues() == old(self).queues()
                        && final(self).counters() == old(self).counters()
                } else if old(self).queues()[endpoint as int].len() == QUEUE_DEPTH {
                    r == Err::<(), Refused>(Refused::Limit) && final(self).queues() == old(self).queues()
                        && final(self).counters() == old(self).counters()
                } else {
                    &&& r == Ok::<(), Refused>(())
                    &&& final(self).queues() == old(self).queues().update(
                        endpoint as int,
                        old(self).queues()[endpoint as int].push((payload@, granted@, regions@)),
                    )
                    &&& final(self).counters() == ((m + 1) as u64, (c + 1) as u64, d)
                }
            }),
    {
        if payload.len() as u64 > MAX_INLINE_BYTES || granted.len() as u64 > MAX_TRANSFERRED
            || regions.len() as u64 > MAX_TRANSFERRED_REGIONS {
            return Err(Refused::BadArgument);
        }
        if !self.usable(endpoint) {
            return Err(Refused::BadArgument);
        }
        let i = endpoint as usize;
        proof {
            assert(endpoint_ok(self.endpoints@[i as int]));
            assert(self.queues()[i as int] == queued(self.endpoints@[i as int]));
        }
        if self.endpoints[i].count == QUEUE_DEPTH {
            return Err(Refused::Limit);
        }
        let ghost live0 = self.live();
        let ghost queues0 = self.queues();
        let ghost q0 = queued(self.endpoints@[i as int]);
        let message = Message { bytes: copied(payload), granted: copied(granted), regions: copied(regions) };
        let ghost mv = message_view(message);
        let mut e = self.endpoints.remove(i);
        let at = (e.head + e.count) % QUEUE_DEPTH;
        let ghost e0 = e;
        let _ = e.queue.remove(at);
        e.queue.insert(at, message);
        e.count = e.count + 1;
        proof {
            lemma_enqueue(e0, e, at as int, mv);
        }
        self.endpoints.insert(i, e);
        self.copies = self.copies + 1;
        self.messages = self.messages + 1;
        proof {
            assert(self.live() =~= live0);
            assert(self.queues() =~= queues0.update(i as int, q0.push(mv)));
        }
        Ok(())
    }

    /// Whether a send to `endpoint` would be queued.
    pub fn has_room(&self, endpoint: u32) -> (r: Result<(), Refused>)
        requires
            self.wf(),
        ensures
            r == if endpoint >= MAX_ENDPOINTS || !self.live()[endpoint as int] {
                Err(Refused::BadArgument)
            } else if self.queues()[endpoint as int].len() == QUEUE_DEPTH {
                Err(Refused::Limit)
            } else {
                Ok(())
            },
    {
        if !self.usable(endpoint) {
            return Err(Refused::BadArgument);
        }
        let i = endpoint as usize;
        proof {
            assert(self.queues()[i as int] == queued(self.endpoints@[i as int]));
        }
        if self.endpoints[i].count == QUEUE_DEPTH {
            return Err(Refused::Limit);
        }
        Ok(())
    }

    /// What the oldest queued message carries, without taking it.
    pub fn peek(&self, endpoint: u32) -> (r: Result<Pending, Refused>)
        requires
            self.wf(),
        ensures
            if endpoint >= MAX_ENDPOINTS || !self.live()[endpoint as int] {
                r is Err && r->Err_0 == Refused::BadArgument
            } else if self.queues()[endpoint as int].len() == 0 {
                r is Err && r->Err_0 == Refused::WouldBlock
            } else {
                r is Ok && r->Ok_0.granted@ == self.queues()[endpoint as int][0].1 && r->Ok_0.regions@
                    == self.queues()[endpoint as int][0].2
            },
    {
        if !self.usable(endpoint) {
            return Err(Refused::BadArgument);
        }
        let i = endpoint as usize;
        proof {
            assert(endpoint_ok(self.endpoints@[i as int]));
            assert(self.queues()[i as int] == queued(self.endpoints@[i as int]));
        }
        if self.endpoints[i].count == 0 {
            return Err(Refused::WouldBlock);
        }
        let head = self.endpoints[i].head;
        proof {
            assert(head as int % (QUEUE_DEPTH as int) == head as int);
        }
        let m = &self.endpoints[i].queue[head];
        Ok(Pending { granted: copied(m.granted.as_slice()), regions: copied(m.regions.as_slice()) })
    }

    /// Takes the oldest queued message and hands back its payload.
    pub fn take(&mut self, endpoint: u32) -> (r: Result<Vec<u8>, Refused>)
        requires
            old(self).wf(),
            old(self).counters().1 < u64::MAX,
        ensures
            final(self).wf(),
            final(self).live() == old(self).live(),
            ({
                let (m, c, d) = old(self).counters();
                if endpoint >= MAX_ENDPOINTS || !old(self).live()[endpoint as int] {
                    r is Err && r->Err_0 == Refused::BadArgument && final(self).queues() == old(self).queues()
                        && final(self).counters() == old(self).counters()
                } else if old(self).queues()[endpoint as int].len() == 0 {
                    r is Err && r->Err_0 == Refused::WouldBlock && final(self).queues() == old(self).queues()
                        && final(self).counters() == old(self).counters()
                } else {
                    &&& r is Ok && r->Ok_0@ == old(self).queues()[endpoint as int][0].0
                    &&& final(self).queues() == old(self).queues().update(
                        endpoint as int,
                        old(self).queues()[endpoint as int].drop_first(),
                    )
                    &&& final(self).counters() == (m, (c + 1) as u64, d.wrapping_add(1))
                }
            }),
    {
        if !self.usable(endpoint) {
            return Err(Refused::BadArgument);
        }
        let i = endpoint as usize;
        proof {
            assert(endpoint_ok(self.endpoints@[i as int]));
            assert(self.queues()[i as int] == queued(self.endpoints@[i as int]));
        }
        if self.endpoints[i].count == 0 {
            return Err(Refused::WouldBlock);
        }
        let ghost live0 = self.live();
        let ghost queues0 = self.queues();
        let ghost q0 = queued(self.endpoints@[i as int]);
        let mut e = self.endpoints.remove(i);
        let ghost e0 = e;
        let head = e.head;
        proof {
            assert(head as int % (QUEUE_DEPTH as int) == head as int);
        }
        let payload = copied(e.queue[head].bytes.as_slice());
        e.head = (e.head + 1) % QUEUE_DEPTH;
        e.count = e.count - 1;
        proof {
            lemma_dequeue(e0, e);
        }
        self.endpoints.insert(i, e);
        self.deliveries = self.deliveries.wrapping_add(1);
        self.copies = self.copies + 1;
        proof {
            assert(self.live() =~= live0);
            assert(self.queues() =~= queues0.update(i as int, q0.drop_first()));
        }
        Ok(payload)
    }

    /// Hands a payload straight from a caller to a receiver already
    /// waiting, counting it as a message delivered.
    pub fn hand(&mut self, payload: &[u8]) -> (r: Result<Vec<u8>, Refused>)
        requires
            old(self).wf(),
            old(self).counters().0 < u64::MAX,
            old(self).counters().1 < u64::MAX,
        ensures
            final(self).wf(),
            final(self).live() == old(self).live(),
            final(self).queues() == old(self).queues(),
            ({
                let (m, c, d) = old(self).counters();
                if payload@.len() > MAX_INLINE_BYTES {
                    r is Err && r->Err_0 == Refused::BadArgument && final(self).counters() == old(self).counters()
                } else {
                    r is Ok && r->Ok_0@ == payload@ && final(self).counters() == ((m + 1) as u64, (c + 1) as u64, d.wrapping_add(1))
                }
            }),
    {
        if payload.len() as u64 > MAX_INLINE_BYTES {
            return Err(Refused::BadArgument);
        }
        let out = copied(payload);
        self.deliveries = self.deliveries.wrapping_add(1);
        self.copies = self.copies + 1;
        self.messages = self.messages + 1;
        Ok(out)
    }
}

/// Messages leave an endpoint in the order they arrived. A send appends to
/// the queue `send` describes and a take removes its front, so a send never
/// overtakes what is queued: the oldest message is still the one a take
/// returns, unless the queue was empty, when it is the message just sent;
/// and what remains after that take is what remained before, with the new
/// message last.
pub proof fn lemma_messages_leave_in_order(q: Seq<MessageView>, m: MessageView)
    ensures
        q.len() > 0 ==> q.push(m)[0] == q[0],
        q.len() == 0 ==> q.push(m)[0] == m,
        q.len() > 0 ==> q.push(m).drop_first() == q.drop_first().push(m),
        q.len() == 0 ==> q.push(m).drop_first() == Seq::<MessageView>::empty(),
{
    if q.len() > 0 {
        assert(q.push(m).drop_first() =~= q.drop_first().push(m));
    } else {
        assert(q.push(m).drop_first() =~= Seq::<MessageView>::empty());
    }
}

/// Two positions of one ring that are different steps from its head are
/// different slots.
proof fn lemma_ring_distinct(h: int, j: int, c: int)
    requires
        0 <= h < 4,
        0 <= j < c < 4,
    ensures
        (h + j) % 4 != (h + c) % 4,
{
}

/// Writing a message into the slot after the last one appends it.
proof fn lemma_enqueue(e0: Endpoint, e: Endpoint, at: int, mv: MessageView)
    requires
        endpoint_ok(e0),
        e0.count < QUEUE_DEPTH,
        at == (e0.head + e0.count) % (QUEUE_DEPTH as int),
        e.queue@.len() == QUEUE_DEPTH,
        forall|k: int| 0 <= k < QUEUE_DEPTH && k != at ==> e.queue@[k] == e0.queue@[k],
        message_view(e.queue@[at]) == mv,
        e.head == e0.head,
        e.count == e0.count + 1,
    ensures
        endpoint_ok(e),
        queued(e) == queued(e0).push(mv),
{
    assert forall|j: int| 0 <= j < e.count implies #[trigger] queued(e)[j] == queued(e0).push(mv)[j] by {
        if j < e0.count {
            lemma_ring_distinct(e0.head as int, j, e0.count as int);
        }
    }
    assert(queued(e) =~= queued(e0).push(mv));
}

/// Stepping the head past the oldest message drops it.
proof fn lemma_dequeue(e0: Endpoint, e: Endpoint)
    requires
        endpoint_ok(e0),
        e0.count > 0,
        e.queue == e0.queue,
        e.head == (e0.head + 1) % (QUEUE_DEPTH as int),
        e.count == e0.count - 1,
    ensures
        endpoint_ok(e),
        queued(e) == queued(e0).drop_first(),
{
    assert forall|j: int| 0 <= j < e.count implies #[trigger] queued(e)[j] == queued(e0).drop_first()[j] by {
        assert((e.head + j) % 4 == (e0.head + (j + 1)) % 4);
    }
    assert(queued(e) =~= queued(e0).drop_first());
}

/// The lowest dead endpoint from `i` on.
pub open spec fn first_dead(live: Seq<bool>, i: int) -> Option<int>
    decreases live.len() - i,
{
    if i < 0 || i >= live.len() {
        None
    } else if !live[i] {
        Some(i)
    } else {
        first_dead(live, i + 1)
    }
}

} // verus!
