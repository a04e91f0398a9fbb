//! The server side of a client: its role, its active queue, and what each command does.
//!
//! Waiting for a message (`ListenForMsg`) alternates polls of the queue with sleeps: the
//! command answers `Step::Listen`, and the caller then polls with `listen_poll`, sleeps between
//! polls, and gives up with `Timeout` once `listen_timed_out` says so.
use vstd::prelude::*;

use crate::commands::{Command, CommandError, CommandResponse, CommandResult, QueueOptions};
use crate::exchange::{is_pow2_u64, new_queue_state, responses_unique, QueueState, SpmcExchange, SpmcQueue};
use crate::message::OwnedMessage;
use crate::queue_error::QueueError;
use crate::{MessageId, Role};

verus! {

/// What a client is: its role and the name of its active queue.
pub struct ClientView {
    pub role: Role,
    pub queue: Option<Seq<char>>,
}

/// The most messages that a queue created with the option `capacity` holds: the capacity
/// rounded up to a power of two, less one.
pub open spec fn queue_capacity_for(capacity: nat) -> nat {
    choose|c: nat| #[trigger] rounds_up(capacity, c)
}

/// `c + 1` is the power of two that is at least `capacity` and less than twice it.
pub open spec fn rounds_up(capacity: nat, c: nat) -> bool {
    is_pow2_u64((c + 1) as u64) && capacity <= c + 1 < 2 * capacity
}

/// The active queue of the client exists, and counts the client among its clients.
pub open spec fn consistent(c: ClientView, ex: Map<Seq<char>, QueueState>) -> bool {
    c.queue matches Some(n) ==> ex.contains_key(n) && ex[n].clients >= 1
}

/// The counters that a command advances stay below their maximum, and a queue that a command
/// creates has room for a message and fits in memory.
pub open spec fn within_limits(c: ClientView, ex: Map<Seq<char>, QueueState>, cmd: Command) -> bool {
    match cmd {
        Command::ActiveQueue { name, create, .. } => {
            &&& ex.contains_key(name@) ==> ex[name@].clients < u64::MAX
            &&& !ex.contains_key(name@) && create is Some ==> 1 <= create->0.capacity <= isize::MAX
        },
        Command::PushMsg(_) => c.queue matches Some(n) ==> ex[n].next_id < u64::MAX,
        _ => true,
    }
}

/// Clean up after a client: it leaves its queue, gives up the producer role there, and a queue
/// that no client uses and that holds no message is removed.
pub open spec fn cleanup_spec(c: ClientView, ex: Map<Seq<char>, QueueState>) -> (ClientView, Map<
    Seq<char>,
    QueueState,
>) {
    match c.queue {
        None => (c, ex),
        Some(n) => {
            let q = ex[n];
            let clients = (q.clients - 1) as u64;
            let c2 = ClientView { queue: None, ..c };
            if clients == 0 && q.items.len() == 0 {
                (c2, ex.remove(n))
            } else {
                (
                    c2,
                    ex.insert(
                        n,
                        QueueState {
                            clients,
                            has_producer: if c.role.spec_is_producer() {
                                false
                            } else {
                                q.has_producer
                            },
                            ..q
                        },
                    ),
                )
            }
        },
    }
}

/// What a command does next.
pub enum Step {
    /// The command is done, with this result.
    Done(CommandResult),
    /// The client waits for a message: poll with `listen_poll`, sleeping in between.
    Listen { timeout_ms: Option<u64> },
}

/// `ActiveQueue`: find the queue, or create it with the given options when asked to; count the
/// client in; leave the old queue; take the producer role if asked for and free. A client that
/// is refused the producer role has left its old queue and stays counted in the new one.
pub open spec fn active_queue_post(
    c: ClientView,
    ex: Map<Seq<char>, QueueState>,
    role: Role,
    name: Seq<char>,
    create: Option<QueueOptions>,
    r: Step,
    c2: ClientView,
    ex2: Map<Seq<char>, QueueState>,
) -> bool {
    if !ex.contains_key(name) && create is None {
        r == Step::Done(Err(CommandError::QueueNotFound)) && c2 == c && ex2 == ex
    } else {
        let ex1 = if ex.contains_key(name) {
            ex
        } else {
            ex.insert(name, new_queue_state(queue_capacity_for(create->0.capacity as nat)))
        };
        let ex_in = ex1.insert(name, QueueState { clients: (ex1[name].clients + 1) as u64, ..ex1[name] });
        let (c3, ex3) = cleanup_spec(c, ex_in);
        if role.spec_is_producer() && ex3[name].has_producer {
            r == Step::Done(Err(CommandError::HasProducer)) && c2 == c3 && ex2 == ex3
        } else {
            &&& r == Step::Done(Ok(CommandResponse::Success))
            &&& c2 == ClientView { role, queue: Some(name) }
            &&& ex2 == if role.spec_is_producer() {
                ex3.insert(name, QueueState { has_producer: true, ..ex3[name] })
            } else {
                ex3
            }
        }
    }
}

/// `ChangeRole`: switch the role. Giving up the producer role frees it on the queue; taking it
/// up is refused while the queue has a producer, and otherwise takes the queue's producer slot.
pub open spec fn change_role_post(
    c: ClientView,
    ex: Map<Seq<char>, QueueState>,
    role: Role,
    r: Step,
    c2: ClientView,
    ex2: Map<Seq<char>, QueueState>,
) -> bool {
    match c.queue {
        None => r == Step::Done(Err(CommandError::QueueNotFound)) && c2 == c && ex2 == ex,
        Some(n) => {
            let gives_up = c.role.spec_is_producer() && !role.spec_is_producer();
            let takes_up = !c.role.spec_is_producer() && role.spec_is_producer();
            if takes_up && ex[n].has_producer {
                r == Step::Done(Err(CommandError::HasProducer)) && c2 == c && ex2 == ex
            } else {
                &&& r == Step::Done(Ok(CommandResponse::Success))
                &&& c2 == ClientView { role, ..c }
                &&& ex2 == if gives_up {
                    ex.insert(n, QueueState { has_producer: false, ..ex[n] })
                } else if takes_up {
                    ex.insert(n, QueueState { has_producer: true, ..ex[n] })
                } else {
                    ex
                }
            }
        },
    }
}

/// `PushMsg`: a producer pushes the payload as a message with the queue's next id, which
/// advances even when the queue is full.
pub open spec fn push_post(
    c: ClientView,
    ex: Map<Seq<char>, QueueState>,
    payload: Vec<u8>,
    r: Step,
    c2: ClientView,
    ex2: Map<Seq<char>, QueueState>,
) -> bool {
    if !c.role.spec_is_producer() {
        r == Step::Done(Err(CommandError::NotProducer)) && c2 == c && ex2 == ex
    } else {
        match c.queue {
            None => r == Step::Done(Err(CommandError::QueueNotFound)) && c2 == c && ex2 == ex,
            Some(n) => {
                let q = ex[n];
                let id = MessageId(q.next_id);
                let q1 = QueueState { next_id: (q.next_id + 1) as u64, ..q };
                &&& c2 == c
                &&& if q.items.len() < q.capacity {
                    &&& r == Step::Done(Ok(CommandResponse::MessageId(id)))
                    &&& ex2 == ex.insert(
                        n,
                        QueueState { items: q.items.push(OwnedMessage { id, payload }), ..q1 },
                    )
                } else {
                    &&& r == Step::Done(Err(CommandError::QueueError(QueueError::Full)))
                    &&& ex2 == ex.insert(n, q1)
                }
            },
        }
    }
}

/// Popping the queue named `n`: its oldest message, which then leaves the queue; or nothing,
/// when the queue is empty.
pub open spec fn pop_outcome(ex: Map<Seq<char>, QueueState>, n: Seq<char>) -> (Option<OwnedMessage>, Map<
    Seq<char>,
    QueueState,
>) {
    let q = ex[n];
    if q.items.len() == 0 {
        (None, ex)
    } else {
        (Some(q.items[0]), ex.insert(n, QueueState { items: q.items.drop_first(), ..q }))
    }
}

/// `PopMsg`: a consumer takes the oldest message, if any.
pub open spec fn pop_post(
    c: ClientView,
    ex: Map<Seq<char>, QueueState>,
    r: Step,
    c2: ClientView,
    ex2: Map<Seq<char>, QueueState>,
) -> bool {
    &&& c2 == c
    &&& if !c.role.spec_is_consumer() {
        r == Step::Done(Err(CommandError::NotConsumer)) && ex2 == ex
    } else {
        match c.queue {
            None => r == Step::Done(Err(CommandError::QueueNotFound)) && ex2 == ex,
            Some(n) => {
                &&& ex2 == pop_outcome(ex, n).1
                &&& r == Step::Done(
                    match pop_outcome(ex, n).0 {
                        Some(msg) => Ok(CommandResponse::Message(msg)),
                        None => Ok(CommandResponse::Success),
                    },
                )
            },
        }
    }
}

/// `ClearQueue`: a producer empties the queue.
pub open spec fn clear_post(
    c: ClientView,
    ex: Map<Seq<char>, QueueState>,
    r: Step,
    c2: ClientView,
    ex2: Map<Seq<char>, QueueState>,
) -> bool {
    &&& c2 == c
    &&& if !c.role.spec_is_producer() {
        r == Step::Done(Err(CommandError::NotProducer)) && ex2 == ex
    } else {
        match c.queue {
            None => r == Step::Done(Err(CommandError::QueueNotFound)) && ex2 == ex,
            Some(n) => r == Step::Done(Ok(CommandResponse::Success)) && ex2 == ex.insert(
                n,
                QueueState { items: Seq::empty(), ..ex[n] },
            ),
        }
    }
}

/// `ListenForMsg`: a consumer that is not also the producer starts to wait for a message.
pub open spec fn listen_post(
    c: ClientView,
    ex: Map<Seq<char>, QueueState>,
    timeout_ms: Option<u64>,
    r: Step,
    c2: ClientView,
    ex2: Map<Seq<char>, QueueState>,
) -> bool {
    &&& c2 == c
    &&& ex2 == ex
    &&& r == if !c.role.spec_is_consumer() {
        Step::Done(Err(CommandError::NotConsumer))
    } else if c.role.spec_is_producer() {
        // listening as the producer of a single-producer queue could deadlock
        Step::Done(Err(CommandError::WouldBlock))
    } else if c.queue is None {
        Step::Done(Err(CommandError::QueueNotFound))
    } else {
        Step::Listen { timeout_ms }
    }
}

/// The index of the response to `id`, if there is one.
pub open spec fn response_index(r: Seq<(MessageId, Seq<u8>)>, id: MessageId) -> Option<int> {
    if exists|k: int| 0 <= k < r.len() && r[k].0 == id {
        Some(choose|k: int| 0 <= k < r.len() && r[k].0 == id)
    } else {
        None
    }
}

/// `MsgResponse`: store the response to a message, replacing an earlier one.
pub open spec fn msg_response_post(
    c: ClientView,
    ex: Map<Seq<char>, QueueState>,
    id: MessageId,
    payload: Seq<u8>,
    r: Step,
    c2: ClientView,
    ex2: Map<Seq<char>, QueueState>,
) -> bool {
    &&& c2 == c
    &&& match c.queue {
        None => r == Step::Done(Err(CommandError::QueueNotFound)) && ex2 == ex,
        Some(n) => {
            let q = ex[n];
            &&& r == Step::Done(Ok(CommandResponse::Success))
            &&& ex2 == ex.insert(
                n,
                QueueState {
                    responses: match response_index(q.responses, id) {
                        Some(k) => q.responses.update(k, (id, payload)),
                        None => q.responses.push((id, payload)),
                    },
                    ..q
                },
            )
        },
    }
}

/// `ConsumeResponses`: hand out every stored response, in the order they came in, and forget them.
pub open spec fn consume_post(
    c: ClientView,
    ex: Map<Seq<char>, QueueState>,
    r: Step,
    c2: ClientView,
    ex2: Map<Seq<char>, QueueState>,
) -> bool {
    &&& c2 == c
    &&& match c.queue {
        None => r == Step::Done(Err(CommandError::QueueNotFound)) && ex2 == ex,
        Some(n) => {
            let q = ex[n];
            &&& r matches Step::Done(Ok(CommandResponse::Messages(msgs))) && msgs@.len()
                == q.responses.len() && forall|i: int|
                0 <= i < msgs@.len() ==> (#[trigger] msgs@[i]).id == q.responses[i].0
                    && msgs@[i].payload@ == q.responses[i].1
            &&& ex2 == ex.insert(n, QueueState { responses: Seq::empty(), ..q })
        },
    }
}

/// `GetSingleResponse`: the response to a message, if there is one.
pub open spec fn get_single_post(
    c: ClientView,
    ex: Map<Seq<char>, QueueState>,
    id: MessageId,
    r: Step,
    c2: ClientView,
    ex2: Map<Seq<char>, QueueState>,
) -> bool {
    &&& c2 == c
    &&& ex2 == ex
    &&& match c.queue {
        None => r == Step::Done(Err(CommandError::QueueNotFound)),
        Some(n) => match response_index(ex[n].responses, id) {
            Some(k) => r matches Step::Done(Ok(CommandResponse::Message(m))) && m.id == id
                && m.payload@ == ex[n].responses[k].1,
            None => r == Step::Done(Ok(CommandResponse::Success)),
        },
    }
}

/// What a command does to the client and the exchange, and what it answers.
pub open spec fn command_post(
    c: ClientView,
    ex: Map<Seq<char>, QueueState>,
    cmd: Command,
    r: Step,
    c2: ClientView,
    ex2: Map<Seq<char>, QueueState>,
) -> bool {
    match cmd {
        Command::ActiveQueue { role, name, create } => active_queue_post(
            c,
            ex,
            role,
            name@,
            create,
            r,
            c2,
            ex2,
        ),
        Command::ChangeRole(role) => change_role_post(
            c,
            ex,
            role,
            r,
            c2,
            ex2,
        ),
        Command::PushMsg(payload) => push_post(
            c,
            ex,
            payload,
            r,
            c2,
            ex2,
        ),
        Command::PopMsg => pop_post(
            c,
            ex,
            r,
            c2,
            ex2,
        ),
        Command::MsgResponse { id, payload } => msg_response_post(
            c,
            ex,
            id,
            payload@,
            r,
            c2,
            ex2,
        ),
        Command::ConsumeResponses => consume_post(
            c,
            ex,
            r,
            c2,
            ex2,
        ),
        Command::GetSingleResponse(id) => get_single_post(
            c,
            ex,
            id,
            r,
            c2,
            ex2,
        ),
        Command::ListenForMsg { timeout_ms } => listen_post(
            c,
            ex,
            timeout_ms,
            r,
            c2,
            ex2,
        ),
        Command::ClearQueue => clear_post(
            c,
            ex,
            r,
            c2,
            ex2,
        ),
    }
}

/// Local data of a client of the server.
pub struct SpmcClient {
    pub role: Role,
    /// The name of the active queue.
    pub queue: Option<String>,
}

impl View for SpmcClient {
    type V = ClientView;

    open spec fn view(&self) -> ClientView {
        ClientView {
            role: self.role,
            queue: match &self.queue {
                Some(n) => Some(n@),
                None => None,
            },
        }
    }
}

impl SpmcClient {
    pub fn new() -> (c: Self)
        ensures
            c@ == (ClientView { role: Role::Consumer, queue: None }),
    {
        // the role is a placeholder: it doesn't matter while there is no queue
        Self { queue: None, role: Role::Consumer }
    }

    /// Whether the active queue exists and counts this client; see `consistent`.
    pub fn is_consistent(&self, exchange: &SpmcExchange) -> (b: bool)
        requires
            exchange.wf(),
        ensures
            b == consistent(self@, exchange@),
    {
        match &self.queue {
            None => true,
            Some(name) => match exchange.find(name) {
                Some(i) => {
                    proof {
                        exchange.lemma_state_at(i as int);
                    }
                    exchange.queues[i].clients >= 1
                },
                None => false,
            },
        }
    }

    /// Whether `cmd` keeps the counters of the exchange below their maximum; see `within_limits`.
    pub fn command_within_limits(&self, exchange: &SpmcExchange, cmd: &Command) -> (b: bool)
        requires
            exchange.wf(),
            consistent(self@, exchange@),
        ensures
            b == within_limits(self@, exchange@, *cmd),
    {
        match cmd {
            Command::ActiveQueue { name, create, .. } => match exchange.find(name) {
                Some(i) => {
                    proof {
                        exchange.lemma_state_at(i as int);
                    }
                    exchange.queues[i].clients < u64::MAX
                },
                None => match create {
                    Some(opts) => 1 <= opts.capacity && opts.capacity as u64 <= isize::MAX as u64,
                    None => true,
                },
            },
            Command::PushMsg(_) => match &self.queue {
                Some(name) => match exchange.find(name) {
                    Some(i) => {
                        proof {
                            exchange.lemma_state_at(i as int);
                        }
                        exchange.queues[i].next_id.0 < u64::MAX
                    },
                    None => true,
                },
                None => true,
            },
            _ => true,
        }
    }

    /// Clean up after this client; see `cleanup_spec`.
    pub fn cleanup(&mut self, exchange: &mut SpmcExchange)
        requires
            old(exchange).wf(),
            consistent(old(self)@, old(exchange)@),
        ensures
            final(exchange).wf(),
            (final(self)@, final(exchange)@) == cleanup_spec(old(self)@, old(exchange)@),
    {
        if let Some(name) = self.queue.take() {
            let i = exchange.find(&name).unwrap();
            let ghost pre = *exchange;
            let mut q = exchange.take(i);
            if self.role.is_producer() {
                q.has_producer = false;
            }
            let clients = q.clients - 1;
            q.clients = clients;
            if clients == 0 && q.queue.is_empty() {
                // this queue can be garbage collected
                proof {
                    assert(exchange@ == cleanup_spec(old(self)@, old(exchange)@).1);
                }
            } else {
                exchange.restore(i, q, Ghost(pre));
                proof {
                    assert(exchange@ =~= cleanup_spec(old(self)@, old(exchange)@).1);
                }
            }
        }
    }

    /// What the command does; see the `_post` functions for each command.
    pub fn handle_command(&mut self, exchange: &mut SpmcExchange, cmd: Command) -> (r: Step)
        requires
            old(exchange).wf(),
            consistent(old(self)@, old(exchange)@),
            within_limits(old(self)@, old(exchange)@, cmd),
        ensures
            final(exchange).wf(),
            consistent(final(self)@, final(exchange)@),
            command_post(old(self)@, old(exchange)@, cmd, r, final(self)@, final(exchange)@),
    {
        match cmd {
            Command::ActiveQueue { role, name, create } => self.active_queue(
                exchange,
                role,
                name,
                create,
            ),
            Command::ChangeRole(role) => self.change_role(exchange, role),
            Command::PushMsg(payload) => self.push_msg(exchange, payload),
            Command::PopMsg => self.pop_msg(exchange),
            Command::MsgResponse { id, payload } => self.msg_response(exchange, id, payload),
            Command::ConsumeResponses => self.consume_responses(exchange),
            Command::GetSingleResponse(id) => self.get_single_response(exchange, id),
            Command::ListenForMsg { timeout_ms } => {
                if !self.role.is_consumer() {
                    return Step::Done(Err(CommandError::NotConsumer));
                }
                if self.role.is_producer() {
                    // since this is a single-producer queue listening to messages on a producer
                    // _could_ introduce a deadlock and is therefore unallowed
                    return Step::Done(Err(CommandError::WouldBlock));
                }
                if self.queue.is_none() {
                    return Step::Done(Err(CommandError::QueueNotFound));
                }
                Step::Listen { timeout_ms }
            },
            Command::ClearQueue => self.clear_queue(exchange),
        }
    }
}

impl SpmcClient {
    fn active_queue(
        &mut self,
        exchange: &mut SpmcExchange,
        role: Role,
        name: String,
        create: Option<QueueOptions>,
    ) -> (r: Step)
        requires
            old(exchange).wf(),
            consistent(old(self)@, old(exchange)@),
            old(exchange)@.contains_key(name@) ==> old(exchange)@[name@].clients < u64::MAX,
            !old(exchange)@.contains_key(name@) && create is Some ==> 1 <= create->0.capacity <= isize::MAX,
        ensures
            final(exchange).wf(),
            consistent(final(self)@, final(exchange)@),
            active_queue_post(old(self)@, old(exchange)@, role, name@, create, r, final(self)@, final(exchange)@),
    {
        let ghost ex0 = exchange@;
        let i = match exchange.find(&name) {
            Some(i) => i,
            None => {
                match create {
                    Some(opts) => {
                        let q = SpmcQueue::new(opts.capacity as u64, name.clone());
                        proof {
                            lemma_queue_capacity_for(q.state().capacity, opts.capacity as nat);
                        }
                        exchange.add(q)
                    },
                    None => {
                        return Step::Done(Err(CommandError::QueueNotFound));
                    },
                }
            },
        };
        let ghost ex1 = exchange@;
        proof {
            exchange.lemma_state_at(i as int);
            assert(ex1 == (if ex0.contains_key(name@) {
                ex0
            } else {
                ex0.insert(name@, new_queue_state(queue_capacity_for(create->0.capacity as nat)))
            }));
        }
        // count the client in before anything else, so that the queue is not collected meanwhile
        let ghost pre = *exchange;
        let mut q = exchange.take(i);
        q.clients = q.clients + 1;
        exchange.restore(i, q, Ghost(pre));
        let ghost ex_in = exchange@;
        proof {
            assert(ex_in == ex1.insert(name@, QueueState { clients: (ex1[name@].clients + 1) as u64, ..ex1[name@] }));
        }
        self.cleanup(exchange);
        let ghost ex3 = exchange@;
        proof {
            assert(ex3.contains_key(name@) && ex3[name@].clients >= 1);
        }
        if role.is_producer() {
            let i = exchange.find(&name).unwrap();
            let ghost pre = *exchange;
            let mut q = exchange.take(i);
            let had_producer = q.has_producer;
            q.has_producer = true;
            if had_producer {
                q.has_producer = had_producer;
                exchange.restore(i, q, Ghost(pre));
                proof {
                    assert(exchange@ =~= ex3);
                }
                return Step::Done(Err(CommandError::HasProducer));
            }
            exchange.restore(i, q, Ghost(pre));
        }
        self.role = role;
        self.queue = Some(name);
        Step::Done(Ok(CommandResponse::Success))
    }

    fn change_role(&mut self, exchange: &mut SpmcExchange, role: Role) -> (r: Step)
        requires
            old(exchange).wf(),
            consistent(old(self)@, old(exchange)@),
        ensures
            final(exchange).wf(),
            consistent(final(self)@, final(exchange)@),
            change_role_post(old(self)@, old(exchange)@, role, r, final(self)@, final(exchange)@),
    {
        let i = match &self.queue {
            None => {
                return Step::Done(Err(CommandError::QueueNotFound));
            },
            Some(name) => exchange.find(name).unwrap(),
        };
        if role != self.role {
            if self.role.is_producer() && !role.is_producer() {
                let ghost pre = *exchange;
                let mut q = exchange.take(i);
                q.has_producer = false;
                exchange.restore(i, q, Ghost(pre));
            } else if !self.role.is_producer() && role.is_producer() {
                // a single-producer queue: the producer slot must be free
                proof {
                    exchange.lemma_state_at(i as int);
                }
                if exchange.queues[i].has_producer {
                    return Step::Done(Err(CommandError::HasProducer));
                }
                let ghost pre = *exchange;
                let mut q = exchange.take(i);
                q.has_producer = true;
                exchange.restore(i, q, Ghost(pre));
            }
            self.role = role;
        }
        Step::Done(Ok(CommandResponse::Success))
    }

    fn push_msg(&mut self, exchange: &mut SpmcExchange, payload: Vec<u8>) -> (r: Step)
        requires
            old(exchange).wf(),
            consistent(old(self)@, old(exchange)@),
            old(self)@.queue matches Some(n) ==> old(exchange)@[n].next_id < u64::MAX,
        ensures
            final(exchange).wf(),
            consistent(final(self)@, final(exchange)@),
            push_post(old(self)@, old(exchange)@, payload, r, final(self)@, final(exchange)@),
    {
        if !self.role.is_producer() {
            return Step::Done(Err(CommandError::NotProducer));
        }
        let i = match &self.queue {
            None => {
                return Step::Done(Err(CommandError::QueueNotFound));
            },
            Some(name) => exchange.find(name).unwrap(),
        };
        let ghost pre = *exchange;
        let mut q = exchange.take(i);
        let ghost q0 = q.state();
        proof {
            q.queue.lemma_len_bound();
        }
        let id = q.next_id;
        q.next_id = MessageId(id.0 + 1);
        let msg = OwnedMessage { id, payload };
        let ghost m = msg;
        let res = q.queue.push(msg);
        exchange.restore(i, q, Ghost(pre));
        proof {
            let q1 = QueueState { next_id: (q0.next_id + 1) as u64, ..q0 };
            if q0.items.len() < q0.capacity {
                assert(q.state() == QueueState { items: q0.items.push(m), ..q1 });
            } else {
                assert(q.state() == q1);
            }
        }
        match res {
            Ok(_) => Step::Done(Ok(CommandResponse::MessageId(id))),
            Err(err) => Step::Done(Err(CommandError::QueueError(err))),
        }
    }

    fn pop_msg(&mut self, exchange: &mut SpmcExchange) -> (r: Step)
        requires
            old(exchange).wf(),
            consistent(old(self)@, old(exchange)@),
        ensures
            final(exchange).wf(),
            consistent(final(self)@, final(exchange)@),
            pop_post(old(self)@, old(exchange)@, r, final(self)@, final(exchange)@),
    {
        if !self.role.is_consumer() {
            return Step::Done(Err(CommandError::NotConsumer));
        }
        match self.pop_active(exchange) {
            None => Step::Done(Err(CommandError::QueueNotFound)),
            Some(Some(msg)) => Step::Done(Ok(CommandResponse::Message(msg))),
            Some(None) => Step::Done(Ok(CommandResponse::Success)),
        }
    }

    /// Pops the active queue: `None` when there is no active queue.
    fn pop_active(&mut self, exchange: &mut SpmcExchange) -> (r: Option<Option<OwnedMessage>>)
        requires
            old(exchange).wf(),
            consistent(old(self)@, old(exchange)@),
        ensures
            final(exchange).wf(),
            *final(self) == *old(self),
            consistent(final(self)@, final(exchange)@),
            match old(self)@.queue {
                None => r is None && final(exchange)@ == old(exchange)@,
                Some(n) => r == Some(pop_outcome(old(exchange)@, n).0) && final(exchange)@ == pop_outcome(
                    old(exchange)@,
                    n,
                ).1,
            },
    {
        let i = match &self.queue {
            None => {
                return None;
            },
            Some(name) => exchange.find(name).unwrap(),
        };
        let ghost pre = *exchange;
        let mut q = exchange.take(i);
        let msg = q.queue.pop();
        proof {
            q.queue.lemma_len_bound();
        }
        if msg.is_none() {
            exchange.restore(i, q, Ghost(pre));
            proof {
                assert(exchange@ =~= pre@);
            }
        } else {
            exchange.restore(i, q, Ghost(pre));
        }
        Some(msg)
    }

    fn clear_queue(&mut self, exchange: &mut SpmcExchange) -> (r: Step)
        requires
            old(exchange).wf(),
            consistent(old(self)@, old(exchange)@),
        ensures
            final(exchange).wf(),
            consistent(final(self)@, final(exchange)@),
            clear_post(old(self)@, old(exchange)@, r, final(self)@, final(exchange)@),
    {
        if !self.role.is_producer() {
            return Step::Done(Err(CommandError::NotProducer));
        }
        let i = match &self.queue {
            None => {
                return Step::Done(Err(CommandError::QueueNotFound));
            },
            Some(name) => exchange.find(name).unwrap(),
        };
        let ghost pre = *exchange;
        let mut q = exchange.take(i);
        q.queue.clear();
        exchange.restore(i, q, Ghost(pre));
        Step::Done(Ok(CommandResponse::Success))
    }

    fn msg_response(&mut self, exchange: &mut SpmcExchange, id: MessageId, payload: Vec<u8>) -> (r: Step)
        requires
            old(exchange).wf(),
            consistent(old(self)@, old(exchange)@),
        ensures
            final(exchange).wf(),
            consistent(final(self)@, final(exchange)@),
            msg_response_post(old(self)@, old(exchange)@, id, payload@, r, final(self)@, final(exchange)@),
    {
        let i = match &self.queue {
            None => {
                return Step::Done(Err(CommandError::QueueNotFound));
            },
            Some(name) => exchange.find(name).unwrap(),
        };
        let ghost pre = *exchange;
        let mut q = exchange.take(i);
        let ghost old_responses = q.state().responses;
        let ghost new_payload = payload@;
        let mut k: usize = 0;
        while k < q.responses.len()
            invariant
                k <= q.responses@.len(),
                q.state().responses == old_responses,
                responses_unique(old_responses),
                forall|j: int| 0 <= j < k ==> q.responses@[j].0 != id,
            ensures
                k < q.responses@.len() ==> q.responses@[k as int].0 == id,
                k <= q.responses@.len(),
                forall|j: int| 0 <= j < k ==> q.responses@[j].0 != id,
            decreases q.responses@.len() - k,
        {
            if q.responses[k].0 == id {
                break ;
            }
            k = k + 1;
        }
        let ghost before = q;
        if k < q.responses.len() {
            proof {
                assert(old_responses[k as int].0 == id);
                assert(response_index(old_responses, id) == Some(k as int));
            }
            q.responses.set(k, (id, payload));
            proof {
                assert(q.state().responses =~= old_responses.update(k as int, (id, new_payload)));
            }
        } else {
            proof {
                assert(response_index(old_responses, id) is None);
            }
            q.responses.push((id, payload));
            proof {
                assert(q.state().responses =~= old_responses.push((id, new_payload)));
            }
        }
        exchange.restore(i, q, Ghost(pre));
        Step::Done(Ok(CommandResponse::Success))
    }

    fn consume_responses(&mut self, exchange: &mut SpmcExchange) -> (r: Step)
        requires
            old(exchange).wf(),
            consistent(old(self)@, old(exchange)@),
        ensures
            final(exchange).wf(),
            consistent(final(self)@, final(exchange)@),
            consume_post(old(self)@, old(exchange)@, r, final(self)@, final(exchange)@),
    {
        let i = match &self.queue {
            None => {
                return Step::Done(Err(CommandError::QueueNotFound));
            },
            Some(name) => exchange.find(name).unwrap(),
        };
        let ghost pre = *exchange;
        let mut q = exchange.take(i);
        let ghost responses = q.state().responses;
        let mut taken: Vec<(MessageId, Vec<u8>)> = Vec::new();
        std::mem::swap(&mut taken, &mut q.responses);
        let mut msgs: Vec<OwnedMessage> = Vec::new();
        let mut k: usize = 0;
        let n = taken.len();
        while k < n
            invariant
                n == taken@.len(),
                k <= n,
                taken@.len() == responses.len(),
                msgs@.len() == k,
                forall|j: int| k <= j < n ==> taken@[j].0 == responses[j].0 && taken@[j].1@ == responses[j].1,
                forall|j: int|
                    0 <= j < k ==> (#[trigger] msgs@[j]).id == responses[j].0 && msgs@[j].payload@
                        == responses[j].1,
            decreases n - k,
        {
            let mut entry = (MessageId(0), Vec::new());
            taken.set_and_swap(k, &mut entry);
            let (id, payload) = entry;
            msgs.push(OwnedMessage { id, payload });
            k = k + 1;
        }
        proof {
            assert(q.state().responses =~= Seq::<(MessageId, Seq<u8>)>::empty());
        }
        exchange.restore(i, q, Ghost(pre));
        Step::Done(Ok(CommandResponse::Messages(msgs)))
    }

    fn get_single_response(&mut self, exchange: &mut SpmcExchange, id: MessageId) -> (r: Step)
        requires
            old(exchange).wf(),
            consistent(old(self)@, old(exchange)@),
        ensures
            final(exchange).wf(),
            consistent(final(self)@, final(exchange)@),
            get_single_post(old(self)@, old(exchange)@, id, r, final(self)@, final(exchange)@),
    {
        let i = match &self.queue {
            None => {
                return Step::Done(Err(CommandError::QueueNotFound));
            },
            Some(name) => exchange.find(name).unwrap(),
        };
        proof {
            exchange.lemma_state_at(i as int);
        }
        let q = &exchange.queues[i];
        let ghost responses = q.state().responses;
        let mut k: usize = 0;
        while k < q.responses.len()
            invariant
                k <= q.responses@.len(),
                responses == q.state().responses,
                responses_unique(responses),
                exchange.wf(),
                *exchange == *old(exchange),
                consistent(self@, exchange@),
                i < exchange.queues@.len(),
                self@.queue is Some,
                q == exchange.queues@[i as int],
                exchange@[self@.queue->0] == q.state(),
                forall|j: int| 0 <= j < k ==> q.responses@[j].0 != id,
            decreases q.responses@.len() - k,
        {
            if q.responses[k].0 == id {
                proof {
                    assert(responses[k as int].0 == id);
                    assert(response_index(responses, id) == Some(k as int));
                }
                let payload = clone_bytes(&q.responses[k].1);
                return Step::Done(Ok(CommandResponse::Message(OwnedMessage { id, payload })));
            }
            k = k + 1;
        }
        proof {
            assert(response_index(responses, id) is None);
        }
        Step::Done(Ok(CommandResponse::Success))
    }

    /// One poll of a client that waits for a message: the oldest message, if there is one;
    /// `LostProducer` once the queue has no producer; otherwise nothing yet (the caller sleeps
    /// and polls again).
    pub fn listen_poll(&mut self, exchange: &mut SpmcExchange) -> (r: Option<CommandResult>)
        requires
            old(exchange).wf(),
            consistent(old(self)@, old(exchange)@),
        ensures
            final(exchange).wf(),
            final(self)@ == old(self)@,
            consistent(final(self)@, final(exchange)@),
            match old(self)@.queue {
                None => r == Some(Err::<CommandResponse, CommandError>(CommandError::QueueNotFound))
                    && final(exchange)@ == old(exchange)@,
                Some(n) => match pop_outcome(old(exchange)@, n).0 {
                    Some(msg) => r == Some(Ok::<CommandResponse, CommandError>(CommandResponse::Message(msg)))
                        && final(exchange)@ == pop_outcome(old(exchange)@, n).1,
                    None => final(exchange)@ == old(exchange)@ && r == if old(exchange)@[n].has_producer {
                        None
                    } else {
                        Some(Err::<CommandResponse, CommandError>(CommandError::LostProducer))
                    },
                },
            },
    {
        match self.pop_active(exchange) {
            None => Some(Err(CommandError::QueueNotFound)),
            Some(Some(msg)) => Some(Ok(CommandResponse::Message(msg))),
            Some(None) => {
                let i = exchange.find(self.queue.as_ref().unwrap()).unwrap();
                proof {
                    exchange.lemma_state_at(i as int);
                }
                if !exchange.queues[i].has_producer {
                    Some(Err(CommandError::LostProducer))
                } else {
                    None
                }
            },
        }
    }
}

/// Whether a client that has waited `waited_nanos` nanoseconds for a message gives up, under
/// a timeout of `timeout_ms` milliseconds (none: it never gives up).
pub fn listen_timed_out(waited_nanos: u128, timeout_ms: Option<u64>) -> (b: bool)
    ensures
        b == (timeout_ms matches Some(t) && waited_nanos >= t as int * 1_000_000),
{
    match timeout_ms {
        Some(t) => waited_nanos >= (t as u128) * 1_000_000,
        None => false,
    }
}

/// A copy of `v`.
fn clone_bytes(v: &Vec<u8>) -> (r: Vec<u8>)
    ensures
        r@ == v@,
{
    let mut r: Vec<u8> = Vec::new();
    let mut i: usize = 0;
    while i < v.len()
        invariant
            i <= v@.len(),
            r@ == v@.subrange(0, i as int),
        decreases v@.len() - i,
    {
        r.push(v[i]);
        i = i + 1;
        assert(r@ =~= v@.subrange(0, i as int));
    }
    assert(r@ =~= v@);
    r
}

/// The capacity of a queue created with the option `capacity`.
proof fn lemma_queue_capacity_for(c: nat, capacity: nat)
    requires
        is_pow2_u64((c + 1) as u64),
        1 <= capacity <= u32::MAX,
        capacity <= c + 1 < 2 * capacity,
    ensures
        c == queue_capacity_for(capacity),
{
    assert(rounds_up(capacity, c));
    let d = queue_capacity_for(capacity);
    assert(rounds_up(capacity, d));
    let x = (c + 1) as u64;
    let y = (d + 1) as u64;
    let s = capacity as u64;
    // two powers of two in [s, 2s) are equal
    assert(x == y) by (bit_vector)
        requires
            x >= 1u64 && x & ((x - 1) as u64) == 0u64,
            y >= 1u64 && y & ((y - 1) as u64) == 0u64,
            1u64 <= s <= 0xffff_ffffu64,
            s <= x < 2 * s,
            s <= y < 2 * s,
    ;
}

/// A client of the server, by the kind of queue it uses.
pub enum QueueClient {
    Spmc(SpmcClient),
}

impl QueueClient {
    /// Clean up after the client; see `SpmcClient::cleanup`.
    pub fn cleanup(&mut self, exchange: &mut SpmcExchange)
        requires
            old(exchange).wf(),
            *old(self) matches QueueClient::Spmc(c) && consistent(c@, old(exchange)@),
        ensures
            final(exchange).wf(),
            *old(self) matches QueueClient::Spmc(c0) && *final(self) matches QueueClient::Spmc(c1) && (
            c1@, final(exchange)@) == cleanup_spec(c0@, old(exchange)@),
    {
        match self {
            QueueClient::Spmc(c) => c.cleanup(exchange),
        }
    }

    /// What the command does; see `SpmcClient::handle_command`.
    pub fn handle_command(&mut self, exchange: &mut SpmcExchange, cmd: Command) -> (r: Step)
        requires
            old(exchange).wf(),
            *old(self) matches QueueClient::Spmc(c) && consistent(c@, old(exchange)@) && within_limits(
                c@,
                old(exchange)@,
                cmd,
            ),
        ensures
            final(exchange).wf(),
            *final(self) matches QueueClient::Spmc(c1) && consistent(c1@, final(exchange)@),
            *old(self) matches QueueClient::Spmc(c0) && *final(self) matches QueueClient::Spmc(c1)
                && command_post(c0@, old(exchange)@, cmd, r, c1@, final(exchange)@),
    {
        match self {
            QueueClient::Spmc(c) => c.handle_command(exchange, cmd),
        }
    }
}

/// One producer per queue: while a queue has a producer, a client that asks for the producer
/// role there (and is not that producer itself), by `ActiveQueue` or by `ChangeRole`, is
/// refused; it does not become a producer of that queue, and the queue keeps its producer.
pub proof fn law_single_producer(
    c: ClientView,
    ex: Map<Seq<char>, QueueState>,
    name: Seq<char>,
    cmd: Command,
    r: Step,
    c2: ClientView,
    ex2: Map<Seq<char>, QueueState>,
)
    requires
        consistent(c, ex),
        within_limits(c, ex, cmd),
        ex.contains_key(name),
        ex[name].has_producer,
        !(c.queue == Some(name) && c.role.spec_is_producer()),
        match cmd {
            Command::ActiveQueue { role, name: n, .. } => n@ == name && role.spec_is_producer(),
            Command::ChangeRole(role) => c.queue == Some(name) && role.spec_is_producer(),
            _ => false,
        },
        command_post(c, ex, cmd, r, c2, ex2),
    ensures
        r == Step::Done(Err(CommandError::HasProducer)),
        !(c2.queue == Some(name) && c2.role.spec_is_producer()),
        ex2.contains_key(name),
        ex2[name].has_producer,
{
    match cmd {
        Command::ActiveQueue { role, name: nm, create } => {
            let ex_in = ex.insert(name, QueueState { clients: (ex[name].clients + 1) as u64, ..ex[name] });
            let (c3, ex3) = cleanup_spec(c, ex_in);
            match c.queue {
                None => {},
                Some(n) => {
                    if n == name {
                        assert(ex3 == ex_in.insert(
                            n,
                            QueueState {
                                clients: (ex_in[n].clients - 1) as u64,
                                has_producer: ex_in[n].has_producer,
                                ..ex_in[n]
                            },
                        ));
                    }
                },
            }
            assert(ex3.contains_key(name) && ex3[name].has_producer);
        },
        _ => {},
    }
}

/// A queue without a producer takes the first client that asks for the role.
pub proof fn law_producer_taken(
    c: ClientView,
    ex: Map<Seq<char>, QueueState>,
    name: Seq<char>,
    create: Option<QueueOptions>,
    r: Step,
    c2: ClientView,
    ex2: Map<Seq<char>, QueueState>,
)
    requires
        consistent(c, ex),
        ex.contains_key(name),
        ex[name].clients < u64::MAX,
        !ex[name].has_producer,
        active_queue_post(c, ex, Role::Producer, name, create, r, c2, ex2),
    ensures
        r == Step::Done(Ok(CommandResponse::Success)),
        c2 == (ClientView { role: Role::Producer, queue: Some(name) }),
        ex2[name].has_producer,
        consistent(c2, ex2),
{
    let ex_in = ex.insert(name, QueueState { clients: (ex[name].clients + 1) as u64, ..ex[name] });
    let (c3, ex3) = cleanup_spec(c, ex_in);
    match c.queue {
        None => {},
        Some(n) => {
            if n == name {
                assert(ex3 == ex_in.insert(
                    n,
                    QueueState {
                        clients: (ex_in[n].clients - 1) as u64,
                        has_producer: if c.role.spec_is_producer() { false } else { ex_in[n].has_producer },
                        ..ex_in[n]
                    },
                ));
            }
        },
    }
    assert(ex3.contains_key(name) && !ex3[name].has_producer);
}

/// The number of clients of `cs` whose active queue is `n`.
pub open spec fn clients_on(cs: Seq<ClientView>, n: Seq<char>) -> nat
    decreases cs.len(),
{
    if cs.len() == 0 {
        0
    } else {
        clients_on(cs.drop_last(), n) + (if cs.last().queue == Some(n) {
            1nat
        } else {
            0nat
        })
    }
}

/// Changing one client changes the count of a queue by what it left and what it joined.
proof fn lemma_clients_on_update(cs: Seq<ClientView>, i: int, c: ClientView, n: Seq<char>)
    requires
        0 <= i < cs.len(),
    ensures
        clients_on(cs.update(i, c), n) + (if cs[i].queue == Some(n) {
            1nat
        } else {
            0nat
        }) == clients_on(cs, n) + (if c.queue == Some(n) {
            1nat
        } else {
            0nat
        }),
    decreases cs.len(),
{
    if i == cs.len() - 1 {
        assert(cs.update(i, c).drop_last() =~= cs.drop_last());
    } else {
        lemma_clients_on_update(cs.drop_last(), i, c, n);
        assert(cs.update(i, c).drop_last() =~= cs.drop_last().update(i, c));
    }
}

/// Two clients on a queue count twice.
proof fn lemma_clients_on_two(cs: Seq<ClientView>, i: int, j: int, n: Seq<char>)
    requires
        0 <= i < cs.len(),
        0 <= j < cs.len(),
        i != j,
        cs[i].queue == Some(n),
        cs[j].queue == Some(n),
    ensures
        clients_on(cs, n) >= 2,
{
    let off = ClientView { queue: None, ..cs[i] };
    lemma_clients_on_update(cs, i, off, n);
    lemma_clients_on_update(cs.update(i, off), j, off, n);
}

/// A queue that no client uses counts nobody.
proof fn lemma_clients_on_none(cs: Seq<ClientView>, n: Seq<char>)
    requires
        forall|i: int| 0 <= i < cs.len() ==> (#[trigger] cs[i]).queue != Some(n),
    ensures
        clients_on(cs, n) == 0,
    decreases cs.len(),
{
    if cs.len() > 0 {
        assert forall|i: int| 0 <= i < cs.drop_last().len() implies (#[trigger] cs.drop_last()[i]).queue != Some(n) by {
            assert(cs.drop_last()[i] == cs[i]);
        }
        lemma_clients_on_none(cs.drop_last(), n);
    }
}

/// The bookkeeping of the clients `cs` of the exchange `ex`: the active queue of every client
/// exists and counts at least the clients on it; a producer holds its queue's producer slot;
/// and no queue has two producers.
pub open spec fn clients_inv(cs: Seq<ClientView>, ex: Map<Seq<char>, QueueState>) -> bool {
    &&& forall|i: int| 0 <= i < cs.len() && (#[trigger] cs[i]).queue is Some ==> ex.contains_key(cs[i].queue->0)
    &&& forall|n: Seq<char>| #[trigger] ex.contains_key(n) ==> clients_on(cs, n) <= ex[n].clients
    &&& forall|i: int|
        0 <= i < cs.len() && (#[trigger] cs[i]).queue is Some && cs[i].role.spec_is_producer()
            ==> ex[cs[i].queue->0].has_producer
    &&& forall|i: int, j: int|
        0 <= i < cs.len() && 0 <= j < cs.len() && i != j && (#[trigger] cs[i]).queue is Some && (#[trigger] cs[j]).queue
            == cs[i].queue && cs[i].role.spec_is_producer() ==> !cs[j].role.spec_is_producer()
}

/// A queue whose bookkeeping (clients and producer slot) stays as it was, and which is neither
/// added nor removed.
pub open spec fn same_bookkeeping(ex: Map<Seq<char>, QueueState>, ex2: Map<Seq<char>, QueueState>) -> bool {
    &&& forall|n: Seq<char>| #[trigger] ex2.contains_key(n) == ex.contains_key(n)
    &&& forall|n: Seq<char>|
        #[trigger] ex.contains_key(n) ==> ex2[n].clients == ex[n].clients && ex2[n].has_producer
            == ex[n].has_producer
}

/// A client's cleanup keeps the bookkeeping of all clients: it leaves its queue, which counts
/// one client less (and is removed when nobody is left on it and it is empty), and gives up
/// the producer slot there if it held it.
pub proof fn lemma_cleanup_inv(cs: Seq<ClientView>, ex: Map<Seq<char>, QueueState>, i: int)
    requires
        clients_inv(cs, ex),
        0 <= i < cs.len(),
    ensures
        ({
            let (c3, ex3) = cleanup_spec(cs[i], ex);
            &&& c3 == ClientView { queue: None, ..cs[i] }
            &&& clients_inv(cs.update(i, c3), ex3)
            &&& forall|m: Seq<char>|
                cs[i].queue != Some(m) ==> #[trigger] ex3.contains_key(m) == ex.contains_key(m) && (ex.contains_key(m)
                    ==> ex3[m] == ex[m])
            &&& cs[i].queue matches Some(o) ==> (ex3.contains_key(o) ==> ex3[o].clients == ex[o].clients - 1)
                && (!ex3.contains_key(o) ==> ex[o].clients == 1)
        }),
{
    let c = cs[i];
    let (c3, ex3) = cleanup_spec(c, ex);
    let cs3 = cs.update(i, c3);
    if let Some(o) = c.queue {
        assert(ex.contains_key(o));
        lemma_clients_on_update(cs, i, c3, o);
        assert forall|j: int| 0 <= j < cs3.len() && (#[trigger] cs3[j]).queue is Some implies ex3.contains_key(
            cs3[j].queue->0,
        ) by {
            assert(j != i);
            assert(cs3[j] == cs[j]);
            if cs[j].queue == Some(o) && !ex3.contains_key(o) {
                lemma_clients_on_two(cs, i, j, o);
            }
        }
        assert forall|m: Seq<char>| #[trigger] ex3.contains_key(m) implies clients_on(cs3, m) <= ex3[m].clients by {
            lemma_clients_on_update(cs, i, c3, m);
        }
        assert forall|j: int|
            0 <= j < cs3.len() && (#[trigger] cs3[j]).queue is Some && cs3[j].role.spec_is_producer() implies ex3[cs3[j].queue->0].has_producer by {
            assert(j != i);
            assert(cs3[j] == cs[j]);
            if cs[j].queue == Some(o) && c.role.spec_is_producer() {
                assert(!cs[j].role.spec_is_producer());
            }
        }
        assert forall|a: int, b: int|
            0 <= a < cs3.len() && 0 <= b < cs3.len() && a != b && (#[trigger] cs3[a]).queue is Some && (#[trigger] cs3[b]).queue
                == cs3[a].queue && cs3[a].role.spec_is_producer() implies !cs3[b].role.spec_is_producer() by {
            assert(a != i && b != i);
            assert(cs3[a] == cs[a] && cs3[b] == cs[b]);
        }
    } else {
        assert(cs3 =~= cs);
    }
}

/// The bookkeeping is kept when a queue's bookkeeping stays as it was.
proof fn lemma_inv_same_bookkeeping(cs: Seq<ClientView>, ex: Map<Seq<char>, QueueState>, ex2: Map<
    Seq<char>,
    QueueState,
>)
    requires
        clients_inv(cs, ex),
        same_bookkeeping(ex, ex2),
    ensures
        clients_inv(cs, ex2),
{
    assert forall|i: int| 0 <= i < cs.len() && (#[trigger] cs[i]).queue is Some implies ex2.contains_key(cs[i].queue->0) by {
        assert(ex.contains_key(cs[i].queue->0));
    }
    assert forall|i: int|
        0 <= i < cs.len() && (#[trigger] cs[i]).queue is Some && cs[i].role.spec_is_producer() implies ex2[cs[i].queue->0].has_producer by {
        assert(ex.contains_key(cs[i].queue->0));
    }
}

/// One producer per queue, for any number of clients: whatever command one of them runs, every
/// client's active queue still exists and counts it, each producer holds its queue's producer
/// slot, and no queue has two producers. (A client that has just connected has no queue, and a
/// client that leaves runs its cleanup; see `lemma_cleanup_inv`.)
pub proof fn law_clients_inv(
    cs: Seq<ClientView>,
    ex: Map<Seq<char>, QueueState>,
    i: int,
    cmd: Command,
    r: Step,
    c2: ClientView,
    ex2: Map<Seq<char>, QueueState>,
)
    requires
        clients_inv(cs, ex),
        0 <= i < cs.len(),
        within_limits(cs[i], ex, cmd),
        command_post(cs[i], ex, cmd, r, c2, ex2),
    ensures
        consistent(cs[i], ex),
        clients_inv(cs.update(i, c2), ex2),
{
    let c = cs[i];
    if let Some(o) = c.queue {
        lemma_clients_on_update(cs, i, ClientView { queue: None, ..c }, o);
    }
    match cmd {
        Command::ActiveQueue { role, name, create } => {
            lemma_active_queue_inv(cs, ex, i, role, name@, create, r, c2, ex2);
        },
        Command::ChangeRole(role) => {
            lemma_change_role_inv(cs, ex, i, role, r, c2, ex2);
        },
        _ => {
            assert(c2 == c);
            assert(cs.update(i, c2) =~= cs);
            if let Some(n) = c.queue {
                assert(same_bookkeeping(ex, ex2));
            } else {
                assert(ex2 == ex);
            }
            lemma_inv_same_bookkeeping(cs, ex, ex2);
        },
    }
}

proof fn lemma_change_role_inv(
    cs: Seq<ClientView>,
    ex: Map<Seq<char>, QueueState>,
    i: int,
    role: Role,
    r: Step,
    c2: ClientView,
    ex2: Map<Seq<char>, QueueState>,
)
    requires
        clients_inv(cs, ex),
        0 <= i < cs.len(),
        change_role_post(cs[i], ex, role, r, c2, ex2),
    ensures
        clients_inv(cs.update(i, c2), ex2),
{
    let c = cs[i];
    let cs2 = cs.update(i, c2);
    match c.queue {
        None => {
            assert(cs2 =~= cs);
        },
        Some(n) => {
            let gives_up = c.role.spec_is_producer() && !role.spec_is_producer();
            let takes_up = !c.role.spec_is_producer() && role.spec_is_producer();
            if takes_up && ex[n].has_producer {
                assert(cs2 =~= cs);
            } else {
                assert(ex.contains_key(n));
                assert forall|m: Seq<char>| #[trigger] ex2.contains_key(m) implies clients_on(cs2, m) <= ex2[m].clients by {
                    lemma_clients_on_update(cs, i, c2, m);
                }
                assert forall|j: int| 0 <= j < cs2.len() && (#[trigger] cs2[j]).queue is Some implies ex2.contains_key(
                    cs2[j].queue->0,
                ) by {
                    if j != i {
                        assert(cs2[j] == cs[j]);
                    }
                }
                assert forall|j: int|
                    0 <= j < cs2.len() && (#[trigger] cs2[j]).queue is Some && cs2[j].role.spec_is_producer() implies ex2[cs2[j].queue->0].has_producer by {
                    if j != i {
                        assert(cs2[j] == cs[j]);
                        if cs[j].queue == Some(n) && gives_up {
                            assert(!cs[j].role.spec_is_producer());
                        }
                    }
                }
                assert forall|a: int, b: int|
                    0 <= a < cs2.len() && 0 <= b < cs2.len() && a != b && (#[trigger] cs2[a]).queue is Some && (#[trigger] cs2[b]).queue
                        == cs2[a].queue && cs2[a].role.spec_is_producer() implies !cs2[b].role.spec_is_producer() by {
                    if a == i {
                        assert(cs2[b] == cs[b]);
                        if cs[b].role.spec_is_producer() {
                            assert(ex[n].has_producer);
                        }
                    } else if b == i {
                        assert(cs2[a] == cs[a]);
                        assert(ex[n].has_producer);
                    } else {
                        assert(cs2[a] == cs[a] && cs2[b] == cs[b]);
                    }
                }
            }
        },
    }
}

proof fn lemma_active_queue_inv(
    cs: Seq<ClientView>,
    ex: Map<Seq<char>, QueueState>,
    i: int,
    role: Role,
    name: Seq<char>,
    create: Option<QueueOptions>,
    r: Step,
    c2: ClientView,
    ex2: Map<Seq<char>, QueueState>,
)
    requires
        clients_inv(cs, ex),
        0 <= i < cs.len(),
        ex.contains_key(name) ==> ex[name].clients < u64::MAX,
        active_queue_post(cs[i], ex, role, name, create, r, c2, ex2),
    ensures
        clients_inv(cs.update(i, c2), ex2),
{
    let c = cs[i];
    if !ex.contains_key(name) && create is None {
        assert(cs.update(i, c2) =~= cs);
    } else {
        let ex1 = if ex.contains_key(name) {
            ex
        } else {
            ex.insert(name, new_queue_state(queue_capacity_for(create->0.capacity as nat)))
        };
        let ex_in = ex1.insert(name, QueueState { clients: (ex1[name].clients + 1) as u64, ..ex1[name] });
        if !ex.contains_key(name) {
            assert forall|j: int| 0 <= j < cs.len() implies (#[trigger] cs[j]).queue != Some(name) by {
                if cs[j].queue == Some(name) {
                    assert(ex.contains_key(cs[j].queue->0));
                }
            }
            lemma_clients_on_none(cs, name);
        }
        // joining counts the client in before it leaves its old queue
        assert(clients_inv(cs, ex_in)) by {
            assert forall|m: Seq<char>| #[trigger] ex_in.contains_key(m) implies clients_on(cs, m)
                <= ex_in[m].clients by {
                if m != name {
                    assert(ex.contains_key(m));
                }
            }
            assert forall|j: int|
                0 <= j < cs.len() && (#[trigger] cs[j]).queue is Some && cs[j].role.spec_is_producer() implies ex_in[cs[j].queue->0].has_producer by {
                assert(ex.contains_key(cs[j].queue->0));
            }
        }
        lemma_cleanup_inv(cs, ex_in, i);
        let (c3, ex3) = cleanup_spec(c, ex_in);
        let cs3 = cs.update(i, c3);
        lemma_clients_on_update(cs, i, c3, name);
        assert(ex3.contains_key(name));
        assert(ex3[name].clients + (if c.queue == Some(name) {
            1int
        } else {
            0int
        }) == ex1[name].clients + 1);
        if role.spec_is_producer() && ex3[name].has_producer {
            assert(cs.update(i, c2) =~= cs3);
        } else {
            let cs2 = cs.update(i, c2);
            assert(cs2 =~= cs3.update(i, c2));
            assert forall|m: Seq<char>| #[trigger] ex2.contains_key(m) implies clients_on(cs2, m) <= ex2[m].clients by {
                lemma_clients_on_update(cs3, i, c2, m);
                assert(ex3.contains_key(m));
            }
            assert forall|j: int| 0 <= j < cs2.len() && (#[trigger] cs2[j]).queue is Some implies ex2.contains_key(
                cs2[j].queue->0,
            ) by {
                if j != i {
                    assert(cs2[j] == cs3[j]);
                    assert(ex3.contains_key(cs3[j].queue->0));
                }
            }
            assert forall|j: int|
                0 <= j < cs2.len() && (#[trigger] cs2[j]).queue is Some && cs2[j].role.spec_is_producer() implies ex2[cs2[j].queue->0].has_producer by {
                if j != i {
                    assert(cs2[j] == cs3[j]);
                    assert(ex3.contains_key(cs3[j].queue->0));
                }
            }
            assert forall|a: int, b: int|
                0 <= a < cs2.len() && 0 <= b < cs2.len() && a != b && (#[trigger] cs2[a]).queue is Some && (#[trigger] cs2[b]).queue
                    == cs2[a].queue && cs2[a].role.spec_is_producer() implies !cs2[b].role.spec_is_producer() by {
                if a == i {
                    assert(cs2[b] == cs3[b]);
                    if cs3[b].role.spec_is_producer() {
                        assert(ex3[name].has_producer);
                    }
                } else if b == i {
                    assert(cs2[a] == cs3[a]);
                    assert(ex3[name].has_producer);
                } else {
                    assert(cs2[a] == cs3[a] && cs2[b] == cs3[b]);
                }
            }
        }
    }
}

/// A client that has just connected, with no active queue, keeps the bookkeeping.
pub proof fn law_new_client_inv(cs: Seq<ClientView>, ex: Map<Seq<char>, QueueState>, role: Role)
    requires
        clients_inv(cs, ex),
    ensures
        clients_inv(cs.push(ClientView { role, queue: None }), ex),
{
    let cs2 = cs.push(ClientView { role, queue: None });
    assert forall|m: Seq<char>| #[trigger] ex.contains_key(m) implies clients_on(cs2, m) <= ex[m].clients by {
        assert(cs2.drop_last() =~= cs);
    }
    assert forall|j: int| 0 <= j < cs2.len() && (#[trigger] cs2[j]).queue is Some implies ex.contains_key(
        cs2[j].queue->0,
    ) by {
        assert(cs2[j] == cs[j]);
    }
    assert forall|j: int|
        0 <= j < cs2.len() && (#[trigger] cs2[j]).queue is Some && cs2[j].role.spec_is_producer() implies ex[cs2[j].queue->0].has_producer by {
        assert(cs2[j] == cs[j]);
    }
    assert forall|a: int, b: int|
        0 <= a < cs2.len() && 0 <= b < cs2.len() && a != b && (#[trigger] cs2[a]).queue is Some && (#[trigger] cs2[b]).queue
            == cs2[a].queue && cs2[a].role.spec_is_producer() implies !cs2[b].role.spec_is_producer() by {
        assert(cs2[a] == cs[a] && cs2[b] == cs[b]);
    }
}

/// The roles that may push messages are `Producer` and `ProdCon` (producer bit 1 set), and
/// those that may pop are `Consumer` and `ProdCon` (consumer bit 2 set).
pub proof fn law_role_bits(role: Role)
    ensures
        role.spec_is_producer() <==> (role == Role::Producer || role == Role::ProdCon),
        role.spec_is_consumer() <==> (role == Role::Consumer || role == Role::ProdCon),
        role.spec_is_producer() <==> role.spec_bits() & 1u8 != 0u8,
        role.spec_is_consumer() <==> role.spec_bits() & 2u8 != 0u8,
{
    let b = role.spec_bits();
    assert((b & 1u8 != 0u8 <==> (b == 1u8 || b == 3u8)) && (b & 2u8 != 0u8 <==> (b == 2u8 || b == 3u8))) by (bit_vector)
        requires
            b == 0u8 || b == 1u8 || b == 2u8 || b == 3u8,
    ;
}

/// `ClearQueue` by a client that may push (`Producer` or `ProdCon`) empties its active queue
/// and answers `Success`, keeping the queue's other state and every other queue; any other
/// client is refused with `NotProducer`, and nothing changes.
pub proof fn law_clear_empties(
    c: ClientView,
    ex: Map<Seq<char>, QueueState>,
    r: Step,
    c2: ClientView,
    ex2: Map<Seq<char>, QueueState>,
)
    requires
        consistent(c, ex),
        command_post(c, ex, Command::ClearQueue, r, c2, ex2),
    ensures
        c2 == c,
        (c.role == Role::Producer || c.role == Role::ProdCon) && c.queue is Some ==> {
            let n = c.queue->0;
            &&& r == Step::Done(Ok(CommandResponse::Success))
            &&& ex2.contains_key(n)
            &&& ex2[n].items == Seq::<OwnedMessage>::empty()
            &&& ex2[n].next_id == ex[n].next_id && ex2[n].clients == ex[n].clients
            &&& ex2[n].has_producer == ex[n].has_producer && ex2[n].capacity == ex[n].capacity
            &&& ex2[n].responses == ex[n].responses
            &&& forall|m: Seq<char>| m != n ==> #[trigger] ex2.contains_key(m) == ex.contains_key(m) && (
            ex.contains_key(m) ==> ex2[m] == ex[m])
        },
        !(c.role == Role::Producer || c.role == Role::ProdCon) ==> r == Step::Done(
            Err(CommandError::NotProducer),
        ) && ex2 == ex,
{
    law_role_bits(c.role);
}

/// `PopMsg` by a client that may pop (`Consumer` or `ProdCon`) takes the oldest message of its
/// active queue, which leaves the queue, or answers `Success` when the queue is empty; any
/// other client is refused with `NotConsumer`, and nothing changes.
pub proof fn law_pop_takes_oldest(
    c: ClientView,
    ex: Map<Seq<char>, QueueState>,
    r: Step,
    c2: ClientView,
    ex2: Map<Seq<char>, QueueState>,
)
    requires
        consistent(c, ex),
        command_post(c, ex, Command::PopMsg, r, c2, ex2),
    ensures
        c2 == c,
        (c.role == Role::Consumer || c.role == Role::ProdCon) && c.queue is Some ==> {
            let n = c.queue->0;
            &&& ex[n].items.len() > 0 ==> r == Step::Done(Ok(CommandResponse::Message(ex[n].items[0])))
                && ex2.contains_key(n) && ex2[n].items == ex[n].items.drop_first()
            &&& ex[n].items.len() == 0 ==> r == Step::Done(Ok(CommandResponse::Success)) && ex2 == ex
            &&& ex2.contains_key(n) && ex2[n].next_id == ex[n].next_id && ex2[n].clients == ex[n].clients
                && ex2[n].has_producer == ex[n].has_producer && ex2[n].responses == ex[n].responses
            &&& forall|m: Seq<char>| m != n ==> #[trigger] ex2.contains_key(m) == ex.contains_key(m) && (
            ex.contains_key(m) ==> ex2[m] == ex[m])
        },
        !(c.role == Role::Consumer || c.role == Role::ProdCon) ==> r == Step::Done(
            Err(CommandError::NotConsumer),
        ) && ex2 == ex,
{
    law_role_bits(c.role);
}

/// `ListenForMsg` waits for a message only for a client that may pop and may not push, and has
/// an active queue: a client that may not pop gets `NotConsumer`, and one that pushes as well
/// (`ProdCon`) gets `WouldBlock`. Nothing changes.
pub proof fn law_listen_roles(
    c: ClientView,
    ex: Map<Seq<char>, QueueState>,
    timeout_ms: Option<u64>,
    r: Step,
    c2: ClientView,
    ex2: Map<Seq<char>, QueueState>,
)
    requires
        command_post(c, ex, (Command::ListenForMsg { timeout_ms }), r, c2, ex2),
    ensures
        c2 == c && ex2 == ex,
        c.role == Role::Consumer && c.queue is Some ==> r == (Step::Listen { timeout_ms }),
        c.role == Role::ProdCon ==> r == Step::Done(Err(CommandError::WouldBlock)),
        (c.role == Role::Producer || c.role == Role::NoRole) ==> r == Step::Done(Err(CommandError::NotConsumer)),
{
    law_role_bits(c.role);
}

/// `PushMsg` by a client that may push (`Producer` or `ProdCon`) appends the payload to its
/// active queue as a message with the queue's next id and answers that id, when the queue has
/// room; a full queue answers `Full` and keeps its messages. The next id advances either way.
/// Any other client is refused with `NotProducer`, and nothing changes.
pub proof fn law_push_appends(
    c: ClientView,
    ex: Map<Seq<char>, QueueState>,
    payload: Vec<u8>,
    r: Step,
    c2: ClientView,
    ex2: Map<Seq<char>, QueueState>,
)
    requires
        consistent(c, ex),
        within_limits(c, ex, Command::PushMsg(payload)),
        command_post(c, ex, Command::PushMsg(payload), r, c2, ex2),
    ensures
        c2 == c,
        (c.role == Role::Producer || c.role == Role::ProdCon) && c.queue is Some ==> {
            let n = c.queue->0;
            let id = MessageId(ex[n].next_id);
            &&& ex2.contains_key(n)
            &&& ex2[n].next_id == ex[n].next_id + 1
            &&& ex[n].items.len() < ex[n].capacity ==> r == Step::Done(Ok(CommandResponse::MessageId(id)))
                && ex2[n].items == ex[n].items.push((OwnedMessage { id, payload }))
            &&& ex[n].items.len() >= ex[n].capacity ==> r == Step::Done(
                Err(CommandError::QueueError(QueueError::Full)),
            ) && ex2[n].items == ex[n].items
            &&& ex2[n].clients == ex[n].clients && ex2[n].has_producer == ex[n].has_producer
            &&& forall|m: Seq<char>| m != n ==> #[trigger] ex2.contains_key(m) == ex.contains_key(m) && (
            ex.contains_key(m) ==> ex2[m] == ex[m])
        },
        !(c.role == Role::Producer || c.role == Role::ProdCon) ==> r == Step::Done(
            Err(CommandError::NotProducer),
        ) && ex2 == ex,
{
    law_role_bits(c.role);
}

/// `ChangeRole` from a role that may push (`Producer` or `ProdCon`) to one that may not
/// (`Consumer` or `NoRole`) succeeds and frees the producer slot of the client's queue; from a
/// role that may not push to one that may, it takes the slot when it is free and is refused
/// with `HasProducer`, changing nothing, when it is not.
pub proof fn law_change_role_slot(
    c: ClientView,
    ex: Map<Seq<char>, QueueState>,
    role: Role,
    r: Step,
    c2: ClientView,
    ex2: Map<Seq<char>, QueueState>,
)
    requires
        consistent(c, ex),
        c.queue is Some,
        command_post(c, ex, Command::ChangeRole(role), r, c2, ex2),
    ensures
        ({
            let n = c.queue->0;
            let was = c.role == Role::Producer || c.role == Role::ProdCon;
            let will = role == Role::Producer || role == Role::ProdCon;
            &&& was && !will ==> r == Step::Done(Ok(CommandResponse::Success)) && c2 == (ClientView {
                role,
                queue: Some(n),
            }) && ex2.contains_key(n) && !ex2[n].has_producer
            &&& !was && will && !ex[n].has_producer ==> r == Step::Done(Ok(CommandResponse::Success)) && c2
                == (ClientView { role, queue: Some(n) }) && ex2.contains_key(n) && ex2[n].has_producer
            &&& !was && will && ex[n].has_producer ==> r == Step::Done(Err(CommandError::HasProducer)) && c2
                == c && ex2 == ex
            &&& was == will ==> r == Step::Done(Ok(CommandResponse::Success)) && c2 == (ClientView {
                role,
                queue: Some(n),
            }) && ex2 == ex
            &&& ex2.contains_key(n) && ex2[n].clients == ex[n].clients && ex2[n].items == ex[n].items
        }),
{
    law_role_bits(c.role);
    law_role_bits(role);
}

/// A client that may push (`Producer` or `ProdCon`) and leaves its queue frees the queue's
/// producer slot: the queue, if it stays, has no producer and one client less; it goes only
/// when that client was its last and it held no message.
pub proof fn law_leaving_frees_producer(c: ClientView, ex: Map<Seq<char>, QueueState>)
    requires
        consistent(c, ex),
        c.queue is Some,
    ensures
        ({
            let n = c.queue->0;
            let (c3, ex3) = cleanup_spec(c, ex);
            &&& c3.queue is None && c3.role == c.role
            &&& ex3.contains_key(n) ==> ex3[n].clients == ex[n].clients - 1 && ex3[n].items == ex[n].items
            &&& !ex3.contains_key(n) ==> ex[n].clients == 1 && ex[n].items.len() == 0
            &&& (c.role == Role::Producer || c.role == Role::ProdCon) && ex3.contains_key(n) ==> !ex3[n].has_producer
            &&& !(c.role == Role::Producer || c.role == Role::ProdCon) && ex3.contains_key(n) ==> ex3[n].has_producer
                == ex[n].has_producer
            &&& forall|m: Seq<char>| m != n ==> #[trigger] ex3.contains_key(m) == ex.contains_key(m) && (
            ex.contains_key(m) ==> ex3[m] == ex[m])
        }),
{
    law_role_bits(c.role);
}

/// A client that may push (`Producer` or `ProdCon`) and switches with `ActiveQueue` to another
/// queue, which exists or is created, frees the producer slot of the queue it leaves, whether
/// or not it gets the role it asks for on the new one.
pub proof fn law_switch_frees_producer(
    c: ClientView,
    ex: Map<Seq<char>, QueueState>,
    role: Role,
    name: String,
    create: Option<QueueOptions>,
    r: Step,
    c2: ClientView,
    ex2: Map<Seq<char>, QueueState>,
)
    requires
        consistent(c, ex),
        within_limits(c, ex, (Command::ActiveQueue { role, name, create })),
        c.queue is Some,
        c.queue->0 != name@,
        c.role == Role::Producer || c.role == Role::ProdCon,
        ex.contains_key(name@) || create is Some,
        command_post(c, ex, (Command::ActiveQueue { role, name, create }), r, c2, ex2),
    ensures
        c2.queue != c.queue,
        ex2.contains_key(c.queue->0) ==> !ex2[c.queue->0].has_producer,
{
    law_role_bits(c.role);
}

/// `ActiveQueue` on a queue that does not exist, without options to create it, is refused with
/// `QueueNotFound` and changes nothing. Otherwise the queue exists afterwards; one created here
/// is empty, with the capacity its options ask for; one that existed keeps its messages; the
/// client is counted in (once, if it was on that queue already); and a client that does not ask
/// to push joins with the role it asks for.
pub proof fn law_active_queue_join(
    c: ClientView,
    ex: Map<Seq<char>, QueueState>,
    role: Role,
    name: String,
    create: Option<QueueOptions>,
    r: Step,
    c2: ClientView,
    ex2: Map<Seq<char>, QueueState>,
)
    requires
        consistent(c, ex),
        within_limits(c, ex, (Command::ActiveQueue { role, name, create })),
        command_post(c, ex, (Command::ActiveQueue { role, name, create }), r, c2, ex2),
    ensures
        !ex.contains_key(name@) && create is None ==> r == Step::Done(Err(CommandError::QueueNotFound)) && c2
            == c && ex2 == ex,
        ex.contains_key(name@) || create is Some ==> {
            let n = name@;
            &&& ex2.contains_key(n)
            &&& !(role == Role::Producer || role == Role::ProdCon) ==> r == Step::Done(
                Ok(CommandResponse::Success),
            ) && c2 == (ClientView { role, queue: Some(n) })
            &&& !ex.contains_key(n) ==> ex2[n].items == Seq::<OwnedMessage>::empty() && ex2[n].next_id == 0
                && ex2[n].capacity == queue_capacity_for(create->0.capacity as nat) && ex2[n].clients == 1
            &&& ex.contains_key(n) ==> ex2[n].items == ex[n].items && ex2[n].next_id == ex[n].next_id
                && ex2[n].capacity == ex[n].capacity
            &&& ex.contains_key(n) && c.queue != Some(n) ==> ex2[n].clients == ex[n].clients + 1
            &&& c.queue == Some(n) ==> ex2[n].clients == ex[n].clients
        },
{
    law_role_bits(role);
    law_role_bits(c.role);
}

/// What a read gives back of a write: after `MsgResponse { id, payload }` on a client's queue,
/// `GetSingleResponse(id)` on that queue answers a message with that id and payload.
pub proof fn law_response_read_after_write(
    c: ClientView,
    ex: Map<Seq<char>, QueueState>,
    id: MessageId,
    payload: Vec<u8>,
    r: Step,
    c2: ClientView,
    ex2: Map<Seq<char>, QueueState>,
    r3: Step,
    c3: ClientView,
    ex3: Map<Seq<char>, QueueState>,
)
    requires
        consistent(c, ex),
        c.queue is Some,
        responses_unique(ex[c.queue->0].responses),
        command_post(c, ex, (Command::MsgResponse { id, payload }), r, c2, ex2),
        command_post(c2, ex2, Command::GetSingleResponse(id), r3, c3, ex3),
    ensures
        r == Step::Done(Ok(CommandResponse::Success)),
        r3 matches Step::Done(Ok(CommandResponse::Message(m))) && m.id == id && m.payload@ == payload@,
        ex3 == ex2,
{
    let n = c.queue->0;
    let rs = ex[n].responses;
    let rs2 = ex2[n].responses;
    match response_index(rs, id) {
        Some(k) => {
            assert(rs2 == rs.update(k, (id, payload@)));
            assert(rs2[k].0 == id);
            assert forall|j: int| 0 <= j < rs2.len() && rs2[j].0 == id implies j == k by {
                assert(rs2[j].0 == rs[j].0);
            }
        },
        None => {
            assert(rs2 == rs.push((id, payload@)));
            assert(rs2[rs.len() as int].0 == id);
            assert forall|j: int| 0 <= j < rs2.len() && rs2[j].0 == id implies j == rs.len() by {
                if j < rs.len() {
                    assert(rs2[j] == rs[j]);
                }
            }
        },
    }
}

/// `ConsumeResponses` hands out every stored response of the client's queue, in the order they
/// came in, and forgets them: a `GetSingleResponse` right after it finds nothing.
pub proof fn law_consume_forgets(
    c: ClientView,
    ex: Map<Seq<char>, QueueState>,
    r: Step,
    c2: ClientView,
    ex2: Map<Seq<char>, QueueState>,
    id: MessageId,
    r3: Step,
    c3: ClientView,
    ex3: Map<Seq<char>, QueueState>,
)
    requires
        consistent(c, ex),
        c.queue is Some,
        command_post(c, ex, Command::ConsumeResponses, r, c2, ex2),
        command_post(c2, ex2, Command::GetSingleResponse(id), r3, c3, ex3),
    ensures
        r matches Step::Done(Ok(CommandResponse::Messages(msgs))) && msgs@.len() == ex[c.queue->0].responses.len()
            && forall|i: int|
            0 <= i < msgs@.len() ==> (#[trigger] msgs@[i]).id == ex[c.queue->0].responses[i].0 && msgs@[i].payload@
                == ex[c.queue->0].responses[i].1,
        r3 == Step::Done(Ok(CommandResponse::Success)),
        ex2[c.queue->0].items == ex[c.queue->0].items,
{
}

/// How a push and a pop relate: on a queue with room and no message, a message that a producer
/// pushes is the one that a consumer on that queue pops next, with the id the push answered.
pub proof fn law_push_then_pop(
    p: ClientView,
    q: ClientView,
    ex: Map<Seq<char>, QueueState>,
    payload: Vec<u8>,
    r: Step,
    p2: ClientView,
    ex2: Map<Seq<char>, QueueState>,
    r3: Step,
    q3: ClientView,
    ex3: Map<Seq<char>, QueueState>,
)
    requires
        consistent(p, ex),
        p.queue is Some,
        q.queue == p.queue,
        p.role == Role::Producer || p.role == Role::ProdCon,
        q.role == Role::Consumer || q.role == Role::ProdCon,
        within_limits(p, ex, Command::PushMsg(payload)),
        ex[p.queue->0].items.len() == 0,
        ex[p.queue->0].capacity > 0,
        command_post(p, ex, Command::PushMsg(payload), r, p2, ex2),
        command_post(q, ex2, Command::PopMsg, r3, q3, ex3),
    ensures
        r == Step::Done(Ok(CommandResponse::MessageId(MessageId(ex[p.queue->0].next_id)))),
        r3 == Step::Done(
            Ok(CommandResponse::Message((OwnedMessage { id: MessageId(ex[p.queue->0].next_id), payload }))),
        ),
        ex3[p.queue->0].items.len() == 0,
{
    law_push_appends(p, ex, payload, r, p2, ex2);
    let n = p.queue->0;
    assert(ex2[n].items == seq![(OwnedMessage { id: MessageId(ex[n].next_id), payload })]);
    law_pop_takes_oldest(q, ex2, r3, q3, ex3);
}

} // verus!
