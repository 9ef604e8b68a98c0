//! The waiting line of the queueing study: how customers arrive, wait, are
//! served and are turned away, and the patterns that shape arrival and
//! service times.
//!
//! Times are a parameter `T` of the desk: the desk only carries them from the
//! moment a customer arrives to the moment service ends, and never computes
//! with them.  Every customer that ever arrived is, at any moment, served,
//! turned away, waiting in line or at a server.
use vstd::prelude::*;
use std::collections::VecDeque;
use crate::text::{append_str, chars_of, seq_eq, string_of};

verus! {

/// How customers arrive.
#[derive(Clone, Copy, Debug, PartialEq, Eq, Structural)]
pub enum ArrivalPattern {
    Deterministic,
    Poisson,
    Bursty,
}

/// How long service takes.
#[derive(Clone, Copy, Debug, PartialEq, Eq, Structural)]
pub enum ServicePattern {
    Deterministic,
    Exponential,
    Erlang,
}

pub open spec fn arrival_key(p: ArrivalPattern) -> Seq<char> {
    match p {
        ArrivalPattern::Deterministic => "deterministic"@,
        ArrivalPattern::Poisson => "poisson"@,
        ArrivalPattern::Bursty => "bursty"@,
    }
}

pub open spec fn arrival_label(p: ArrivalPattern) -> Seq<char> {
    match p {
        ArrivalPattern::Deterministic => "規則的"@,
        ArrivalPattern::Poisson => "ポアソン"@,
        ArrivalPattern::Bursty => "集中到着"@,
    }
}

pub open spec fn arrival_from_key(k: Seq<char>) -> Option<ArrivalPattern> {
    if k == "deterministic"@ {
        Some(ArrivalPattern::Deterministic)
    } else if k == "poisson"@ {
        Some(ArrivalPattern::Poisson)
    } else if k == "bursty"@ {
        Some(ArrivalPattern::Bursty)
    } else {
        None
    }
}

pub open spec fn service_key(p: ServicePattern) -> Seq<char> {
    match p {
        ServicePattern::Deterministic => "deterministic"@,
        ServicePattern::Exponential => "exponential"@,
        ServicePattern::Erlang => "erlang"@,
    }
}

pub open spec fn service_label(p: ServicePattern) -> Seq<char> {
    match p {
        ServicePattern::Deterministic => "一定"@,
        ServicePattern::Exponential => "指数分布"@,
        ServicePattern::Erlang => "エルラン"@,
    }
}

pub open spec fn service_from_key(k: Seq<char>) -> Option<ServicePattern> {
    if k == "deterministic"@ {
        Some(ServicePattern::Deterministic)
    } else if k == "exponential"@ {
        Some(ServicePattern::Exponential)
    } else if k == "erlang"@ {
        Some(ServicePattern::Erlang)
    } else {
        None
    }
}

/// The message for a key that names no pattern of the given kind.
pub open spec fn unsupported_pattern(kind: Seq<char>, key: Seq<char>) -> Seq<char> {
    "unsupported "@ + kind + " pattern '"@ + key + "'"@
}

fn unsupported_message(kind: &str, key: &str) -> (r: String)
    ensures
        r@ == unsupported_pattern(kind@, key@),
{
    let mut out: Vec<char> = Vec::new();
    append_str(&mut out, "unsupported ");
    append_str(&mut out, kind);
    append_str(&mut out, " pattern '");
    append_str(&mut out, key);
    append_str(&mut out, "'");
    string_of(&out)
}

impl ArrivalPattern {
    pub fn from_key(key: &str) -> (r: Result<ArrivalPattern, String>)
        ensures
            match arrival_from_key(key@) {
                Some(p) => r == Ok::<ArrivalPattern, String>(p),
                None => r matches Err(msg) && msg@ == unsupported_pattern("arrival"@, key@),
            },
    {
        let k = chars_of(key);
        if seq_eq(&k, &chars_of("deterministic")) {
            Ok(ArrivalPattern::Deterministic)
        } else if seq_eq(&k, &chars_of("poisson")) {
            Ok(ArrivalPattern::Poisson)
        } else if seq_eq(&k, &chars_of("bursty")) {
            Ok(ArrivalPattern::Bursty)
        } else {
            Err(unsupported_message("arrival", key))
        }
    }

    pub fn value_key(self) -> (r: &'static str)
        ensures
            r@ == arrival_key(self),
    {
        match self {
            ArrivalPattern::Deterministic => "deterministic",
            ArrivalPattern::Poisson => "poisson",
            ArrivalPattern::Bursty => "bursty",
        }
    }

    pub fn label(self) -> (r: &'static str)
        ensures
            r@ == arrival_label(self),
    {
        match self {
            ArrivalPattern::Deterministic => "規則的",
            ArrivalPattern::Poisson => "ポアソン",
            ArrivalPattern::Bursty => "集中到着",
        }
    }
}

impl Default for ArrivalPattern {
    fn default() -> (r: ArrivalPattern)
        ensures
            r == ArrivalPattern::Poisson,
    {
        ArrivalPattern::Poisson
    }
}

impl ServicePattern {
    pub fn from_key(key: &str) -> (r: Result<ServicePattern, String>)
        ensures
            match service_from_key(key@) {
                Some(p) => r == Ok::<ServicePattern, String>(p),
                None => r matches Err(msg) && msg@ == unsupported_pattern("service"@, key@),
            },
    {
        let k = chars_of(key);
        if seq_eq(&k, &chars_of("deterministic")) {
            Ok(ServicePattern::Deterministic)
        } else if seq_eq(&k, &chars_of("exponential")) {
            Ok(ServicePattern::Exponential)
        } else if seq_eq(&k, &chars_of("erlang")) {
            Ok(ServicePattern::Erlang)
        } else {
            Err(unsupported_message("service", key))
        }
    }

    pub fn value_key(self) -> (r: &'static str)
        ensures
            r@ == service_key(self),
    {
        match self {
            ServicePattern::Deterministic => "deterministic",
            ServicePattern::Exponential => "exponential",
            ServicePattern::Erlang => "erlang",
        }
    }

    pub fn label(self) -> (r: &'static str)
        ensures
            r@ == service_label(self),
    {
        match self {
            ServicePattern::Deterministic => "一定",
            ServicePattern::Exponential => "指数分布",
            ServicePattern::Erlang => "エルラン",
        }
    }
}

impl Default for ServicePattern {
    fn default() -> (r: ServicePattern)
        ensures
            r == ServicePattern::Exponential,
    {
        ServicePattern::Exponential
    }
}

/// Reading back the key of an arrival pattern gives the pattern.
pub proof fn lemma_arrival_key_round_trip(p: ArrivalPattern)
    ensures
        arrival_from_key(arrival_key(p)) == Some(p),
{
    reveal_strlit("deterministic");
    reveal_strlit("poisson");
    reveal_strlit("bursty");
    assert("deterministic"@.len() == 13);
    assert("poisson"@.len() == 7);
    assert("bursty"@.len() == 6);
}

/// Reading back the key of a service pattern gives the pattern.
pub proof fn lemma_service_key_round_trip(p: ServicePattern)
    ensures
        service_from_key(service_key(p)) == Some(p),
{
    reveal_strlit("deterministic");
    reveal_strlit("exponential");
    reveal_strlit("erlang");
    assert("deterministic"@.len() == 13);
    assert("exponential"@.len() == 11);
    assert("erlang"@.len() == 6);
}

/// A customer: the number it was given on arrival and the time it arrived.
#[derive(Clone, Copy, Debug)]
pub struct Customer<T> {
    pub id: u64,
    pub arrival_at: T,
}

/// A customer at a server: how much service is left, how much it needs in
/// all, and when it began.
#[derive(Clone, Copy, Debug)]
pub struct ServerState<T> {
    pub customer: Customer<T>,
    pub service_remaining: T,
    pub service_total: T,
    pub started_at: T,
}

/// Why a desk cannot be set up as asked.
#[derive(Clone, Copy, Debug, PartialEq, Eq, Structural)]
pub enum DeskError {
    /// A desk needs at least one server.
    NoServers,
    /// The line must hold at least one customer.
    NoQueueRoom,
}

/// How many servers are busy.
pub open spec fn busy_count<S>(slots: Seq<Option<S>>) -> nat
    decreases slots.len(),
{
    if slots.len() == 0 {
        0
    } else {
        busy_count(slots.drop_last()) + (if slots.last() is Some {
            1nat
        } else {
            0nat
        })
    }
}

proof fn lemma_busy_count_update<S>(slots: Seq<Option<S>>, i: int, x: Option<S>)
    requires
        0 <= i < slots.len(),
    ensures
        busy_count(slots.update(i, x)) + (if slots[i] is Some {
            1int
        } else {
            0int
        }) == busy_count(slots) + (if x is Some {
            1int
        } else {
            0int
        }),
    decreases slots.len(),
{
    let u = slots.update(i, x);
    if i == slots.len() - 1 {
        assert(u.drop_last() =~= slots.drop_last());
    } else {
        assert(u.drop_last() =~= slots.drop_last().update(i, x));
        lemma_busy_count_update(slots.drop_last(), i, x);
    }
}

proof fn lemma_busy_count_prefix<S>(slots: Seq<Option<S>>, k: int)
    requires
        0 <= k <= slots.len(),
        forall|j: int| 0 <= j < k ==> #[trigger] slots[j] is Some,
        forall|j: int| k <= j < slots.len() ==> #[trigger] slots[j] is None,
    ensures
        busy_count(slots) == k,
    decreases slots.len(),
{
    if slots.len() > 0 {
        let d = slots.drop_last();
        if k == slots.len() {
            assert(slots[k - 1] is Some);
            lemma_busy_count_prefix(d, k - 1);
        } else {
            assert(slots[slots.len() - 1] is None);
            lemma_busy_count_prefix(d, k);
        }
    }
}

/// The busy slots of `slots`, each once, in the order `order` lists them.
pub open spec fn is_busy_order<S>(slots: Seq<Option<S>>, order: Seq<usize>) -> bool {
    &&& order.no_duplicates()
    &&& forall|i: int| 0 <= i < order.len() ==> (#[trigger] order[i]) < slots.len()
    &&& forall|i: int| 0 <= i < order.len() ==> slots[#[trigger] order[i] as int] is Some
    &&& order.len() == busy_count(slots)
}

/// The servers after there are `count` of them: the first `count` customers
/// of `order` keep being served, packed into the first servers.
pub open spec fn kept_slots<T>(slots: Seq<Option<ServerState<T>>>, order: Seq<usize>, count: nat) -> Seq<
    Option<ServerState<T>>,
> {
    Seq::new(
        count,
        |j: int|
            if j < order.len() {
                slots[order[j] as int]
            } else {
                None
            },
    )
}

/// The customers that lose their server, in the order they go back to the
/// line: the last one listed in `order` first.
pub open spec fn sent_back<T>(slots: Seq<Option<ServerState<T>>>, order: Seq<usize>, count: nat) -> Seq<
    Customer<T>,
> {
    let kept = if count < order.len() {
        count as int
    } else {
        order.len() as int
    };
    Seq::new(
        (order.len() - kept) as nat,
        |j: int| slots[order[order.len() - 1 - j] as int]->Some_0.customer,
    )
}

/// The line and the servers of the queueing study, with its counts.
pub struct ServiceDesk<T> {
    slots: Vec<Option<ServerState<T>>>,
    line: VecDeque<Customer<T>>,
    capacity: usize,
    arrivals: u64,
    served: u64,
    dropped: u64,
    peak_queue: usize,
    next_customer_id: u64,
}

impl<T: Copy> ServiceDesk<T> {
    /// At least one server and room for one customer; the line within its
    /// room; the next number one past the arrivals; and every arrival served,
    /// turned away, waiting or at a server.
    pub closed spec fn wf(self) -> bool {
        &&& self.slots.len() > 0
        &&& self.capacity > 0
        &&& self.line@.len() <= self.capacity
        &&& self.arrivals + 1 == self.next_customer_id
        &&& self.arrivals == self.served + self.dropped + self.line@.len() + busy_count(self.slots@)
    }

    pub closed spec fn servers_view(self) -> Seq<Option<ServerState<T>>> {
        self.slots@
    }

    pub closed spec fn line_view(self) -> Seq<Customer<T>> {
        self.line@
    }

    pub closed spec fn capacity_view(self) -> nat {
        self.capacity as nat
    }

    pub closed spec fn arrival_count(self) -> nat {
        self.arrivals as nat
    }

    pub closed spec fn served_count(self) -> nat {
        self.served as nat
    }

    pub closed spec fn dropped_count(self) -> nat {
        self.dropped as nat
    }

    pub closed spec fn peak_view(self) -> nat {
        self.peak_queue as nat
    }

    pub closed spec fn next_id(self) -> nat {
        self.next_customer_id as nat
    }

    /// A desk with `server_count` idle servers and an empty line that holds
    /// up to `queue_capacity` customers; the first customer gets number 1.
    pub fn new(server_count: usize, queue_capacity: usize) -> (r: Result<ServiceDesk<T>, DeskError>)
        ensures
            r is Ok <==> server_count > 0 && queue_capacity > 0,
            server_count == 0 ==> r == Err::<ServiceDesk<T>, DeskError>(DeskError::NoServers),
            server_count > 0 && queue_capacity == 0 ==> r == Err::<ServiceDesk<T>, DeskError>(
                DeskError::NoQueueRoom,
            ),
            r matches Ok(d) ==> {
                &&& d.wf()
                &&& d.servers_view() == Seq::new(
                    server_count as nat,
                    |i: int| None::<ServerState<T>>,
                )
                &&& d.line_view() == Seq::<Customer<T>>::empty()
                &&& d.capacity_view() == queue_capacity
                &&& d.arrival_count() == 0 && d.served_count() == 0 && d.dropped_count() == 0
                &&& d.peak_view() == 0
                &&& d.next_id() == 1
            },
    {
        if server_count == 0 {
            return Err(DeskError::NoServers);
        }
        if queue_capacity == 0 {
            return Err(DeskError::NoQueueRoom);
        }
        let mut slots: Vec<Option<ServerState<T>>> = Vec::new();
        while slots.len() < server_count
            invariant
                slots.len() <= server_count,
                forall|i: int| 0 <= i < slots.len() ==> #[trigger] slots@[i] is None,
            decreases server_count - slots.len(),
        {
            slots.push(None);
        }
        proof {
            lemma_busy_count_prefix(slots@, 0);
        }
        let d = ServiceDesk {
            slots,
            line: VecDeque::new(),
            capacity: queue_capacity,
            arrivals: 0,
            served: 0,
            dropped: 0,
            peak_queue: 0,
            next_customer_id: 1,
        };
        assert(d.servers_view() =~= Seq::new(server_count as nat, |i: int| None::<ServerState<T>>));
        Ok(d)
    }

    pub fn server_count(&self) -> (r: usize)
        ensures
            r == self.servers_view().len(),
    {
        self.slots.len()
    }

    pub fn queue_capacity(&self) -> (r: usize)
        ensures
            r == self.capacity_view(),
    {
        self.capacity
    }

    pub fn queue(&self) -> (r: &VecDeque<Customer<T>>)
        ensures
            r@ == self.line_view(),
    {
        &self.line
    }

    pub fn servers(&self) -> (r: &[Option<ServerState<T>>])
        ensures
            r@ == self.servers_view(),
    {
        self.slots.as_slice()
    }

    pub fn queue_len(&self) -> (r: usize)
        ensures
            r == self.line_view().len(),
    {
        self.line.len()
    }

    pub fn arrivals(&self) -> (r: u64)
        ensures
            r == self.arrival_count(),
    {
        self.arrivals
    }

    pub fn served(&self) -> (r: u64)
        ensures
            r == self.served_count(),
    {
        self.served
    }

    pub fn dropped(&self) -> (r: u64)
        ensures
            r == self.dropped_count(),
    {
        self.dropped
    }

    pub fn peak_queue(&self) -> (r: usize)
        ensures
            r == self.peak_view(),
    {
        self.peak_queue
    }

    pub fn next_customer_id(&self) -> (r: u64)
        ensures
            r == self.next_id(),
    {
        self.next_customer_id
    }

    /// How many servers are busy.
    pub fn in_service(&self) -> (r: usize)
        ensures
            r == busy_count(self.servers_view()),
    {
        let mut count: usize = 0;
        let mut i: usize = 0;
        while i < self.slots.len()
            invariant
                i <= self.slots.len(),
                count == busy_count(self.slots@.take(i as int)),
                count <= i,
            decreases self.slots.len() - i,
        {
            proof {
                assert(self.slots@.take(i + 1).drop_last() =~= self.slots@.take(i as int));
            }
            if self.slots[i].is_some() {
                count = count + 1;
            }
            i = i + 1;
        }
        assert(self.slots@.take(i as int) =~= self.slots@);
        count
    }

    /// A customer arrives at `now` and gets the next number.  It joins the
    /// end of the line if there is room, else it is turned away.
    pub fn spawn_customer(&mut self, now: T)
        requires
            old(self).wf(),
            old(self).next_id() < u64::MAX,
        ensures
            final(self).wf(),
            final(self).next_id() == old(self).next_id() + 1,
            final(self).arrival_count() == old(self).arrival_count() + 1,
            final(self).servers_view() == old(self).servers_view(),
            final(self).served_count() == old(self).served_count(),
            final(self).capacity_view() == old(self).capacity_view(),
            final(self).peak_view() == old(self).peak_view(),
            old(self).line_view().len() < old(self).capacity_view() ==> {
                &&& final(self).line_view() == old(self).line_view().push(
                    Customer { id: old(self).next_id() as u64, arrival_at: now },
                )
                &&& final(self).dropped_count() == old(self).dropped_count()
            },
            old(self).line_view().len() >= old(self).capacity_view() ==> {
                &&& final(self).line_view() == old(self).line_view()
                &&& final(self).dropped_count() == old(self).dropped_count() + 1
            },
    {
        let customer = Customer { id: self.next_customer_id, arrival_at: now };
        self.next_customer_id = self.next_customer_id + 1;
        self.arrivals = self.arrivals + 1;
        if self.line.len() < self.capacity {
            self.line.push_back(customer);
        } else {
            self.dropped = self.dropped + 1;
        }
    }

    /// Server `index`, idle, takes the customer at the front of the line, if
    /// there is one, at `now` for `service_time`.  Says whether it did.
    pub fn try_start_service(&mut self, index: usize, now: T, service_time: T) -> (started: bool)
        requires
            old(self).wf(),
            index < old(self).servers_view().len(),
            old(self).servers_view()[index as int] is None,
        ensures
            final(self).wf(),
            started == (old(self).line_view().len() > 0),
            started ==> final(self).servers_view() == old(self).servers_view().update(
                index as int,
                Some(
                    ServerState {
                        customer: old(self).line_view()[0],
                        service_remaining: service_time,
                        service_total: service_time,
                        started_at: now,
                    },
                ),
            ) && final(self).line_view() == old(self).line_view().drop_first(),
            !started ==> final(self).servers_view() == old(self).servers_view()
                && final(self).line_view() == old(self).line_view(),
            final(self).capacity_view() == old(self).capacity_view(),
            final(self).arrival_count() == old(self).arrival_count(),
            final(self).served_count() == old(self).served_count(),
            final(self).dropped_count() == old(self).dropped_count(),
            final(self).peak_view() == old(self).peak_view(),
            final(self).next_id() == old(self).next_id(),
    {
        match self.line.pop_front() {
            None => false,
            Some(customer) => {
                let state = ServerState {
                    customer,
                    service_remaining: service_time,
                    service_total: service_time,
                    started_at: now,
                };
                proof {
                    lemma_busy_count_update(self.slots@, index as int, Some(state));
                }
                self.slots.set(index, Some(state));
                assert(self.line@ =~= old(self).line@.drop_first());
                true
            },
        }
    }

    /// Server `index` is done with its customer: the customer counts as
    /// served and the server is idle.  Gives back what the server held.
    pub fn finish_service(&mut self, index: usize) -> (state: ServerState<T>)
        requires
            old(self).wf(),
            index < old(self).servers_view().len(),
            old(self).servers_view()[index as int] is Some,
        ensures
            final(self).wf(),
            old(self).servers_view()[index as int] == Some(state),
            final(self).servers_view() == old(self).servers_view().update(index as int, None),
            final(self).served_count() == old(self).served_count() + 1,
            final(self).line_view() == old(self).line_view(),
            final(self).capacity_view() == old(self).capacity_view(),
            final(self).arrival_count() == old(self).arrival_count(),
            final(self).dropped_count() == old(self).dropped_count(),
            final(self).peak_view() == old(self).peak_view(),
            final(self).next_id() == old(self).next_id(),
    {
        let state = self.slots[index].unwrap();
        proof {
            lemma_busy_count_update(self.slots@, index as int, None);
        }
        self.slots.set(index, None);
        self.served = self.served + 1;
        state
    }

    /// Server `index` has `remaining` service left for its customer.
    pub fn set_remaining(&mut self, index: usize, remaining: T)
        requires
            old(self).wf(),
            index < old(self).servers_view().len(),
            old(self).servers_view()[index as int] is Some,
        ensures
            final(self).wf(),
            final(self).servers_view() == old(self).servers_view().update(
                index as int,
                Some(
                    ServerState {
                        service_remaining: remaining,
                        ..old(self).servers_view()[index as int]->Some_0
                    },
                ),
            ),
            final(self).line_view() == old(self).line_view(),
            final(self).capacity_view() == old(self).capacity_view(),
            final(self).arrival_count() == old(self).arrival_count(),
            final(self).served_count() == old(self).served_count(),
            final(self).dropped_count() == old(self).dropped_count(),
            final(self).peak_view() == old(self).peak_view(),
            final(self).next_id() == old(self).next_id(),
    {
        if let Some(s) = self.slots[index] {
            let updated = ServerState { service_remaining: remaining, ..s };
            proof {
                lemma_busy_count_update(self.slots@, index as int, Some(updated));
            }
            self.slots.set(index, Some(updated));
        }
    }

    /// Remembers the longest line seen so far.
    pub fn record_peak(&mut self)
        requires
            old(self).wf(),
        ensures
            final(self).wf(),
            final(self).peak_view() == (if old(self).line_view().len() > old(self).peak_view() {
                old(self).line_view().len()
            } else {
                old(self).peak_view()
            }),
            final(self).servers_view() == old(self).servers_view(),
            final(self).line_view() == old(self).line_view(),
            final(self).capacity_view() == old(self).capacity_view(),
            final(self).arrival_count() == old(self).arrival_count(),
            final(self).served_count() == old(self).served_count(),
            final(self).dropped_count() == old(self).dropped_count(),
            final(self).next_id() == old(self).next_id(),
    {
        let len = self.line.len();
        if len > self.peak_queue {
            self.peak_queue = len;
        }
    }

    /// There are now `count` servers.  `order` lists the busy servers, each
    /// once, earliest started first.  If the number changes, the first `count`
    /// customers of `order` keep being served and are moved, in that order, to
    /// the first servers; the others go back to the end of the line, the last
    /// of `order` first, as long as there is room, and are turned away beyond
    /// it.
    pub fn set_server_count(&mut self, count: usize, order: &[usize]) -> (r: Result<(), DeskError>)
        requires
            old(self).wf(),
            is_busy_order(old(self).servers_view(), order@),
        ensures
            final(self).wf(),
            count == 0 ==> r == Err::<(), DeskError>(DeskError::NoServers) && *final(self)
                == *old(self),
            count == old(self).servers_view().len() ==> r == Ok::<(), DeskError>(())
                && *final(self) == *old(self),
            count > 0 && count != old(self).servers_view().len() ==> {
                let back = sent_back(old(self).servers_view(), order@, count as nat);
                let room = old(self).capacity_view() - old(self).line_view().len();
                let taken = if back.len() < room {
                    back.len() as int
                } else {
                    room
                };
                &&& r == Ok::<(), DeskError>(())
                &&& final(self).servers_view() == kept_slots(
                    old(self).servers_view(),
                    order@,
                    count as nat,
                )
                &&& final(self).line_view() == old(self).line_view() + back.take(taken)
                &&& final(self).dropped_count() == old(self).dropped_count() + (back.len() - taken)
                &&& final(self).capacity_view() == old(self).capacity_view()
                &&& final(self).arrival_count() == old(self).arrival_count()
                &&& final(self).served_count() == old(self).served_count()
                &&& final(self).peak_view() == old(self).peak_view()
                &&& final(self).next_id() == old(self).next_id()
            },
    {
        if count == 0 {
            return Err(DeskError::NoServers);
        }
        if count == self.slots.len() {
            return Ok(());
        }
        let ghost old_slots = self.slots@;
        let ghost n = order@.len() as int;
        let mut states: Vec<ServerState<T>> = Vec::new();
        let mut i: usize = 0;
        while i < order.len()
            invariant
                i <= order.len(),
                n == order@.len(),
                states.len() == i,
                self.slots@ == old_slots,
                is_busy_order(old_slots, order@),
                forall|j: int| 0 <= j < i ==> Some(#[trigger] states@[j]) == old_slots[order@[j] as int],
            decreases order.len() - i,
        {
            let slot_index = order[i];
            assert(old_slots[order@[i as int] as int] is Some);
            let st = self.slots[slot_index].unwrap();
            states.push(st);
            i = i + 1;
        }
        let mut fresh: Vec<Option<ServerState<T>>> = Vec::new();
        let mut j: usize = 0;
        while j < count
            invariant
                j <= count,
                fresh.len() == j,
                states.len() == n,
                forall|t: int|
                    0 <= t < j ==> #[trigger] fresh@[t] == (if t < n {
                        Some(states@[t])
                    } else {
                        None
                    }),
            decreases count - j,
        {
            if j < states.len() {
                fresh.push(Some(states[j]));
            } else {
                fresh.push(None);
            }
            j = j + 1;
        }
        assert(fresh@ =~= kept_slots(old_slots, order@, count as nat));
        let kept: usize = if count < states.len() {
            count
        } else {
            states.len()
        };
        proof {
            lemma_busy_count_prefix(fresh@, kept as int);
        }
        self.slots = fresh;
        let ghost back = sent_back(old_slots, order@, count as nat);
        let ghost line0 = self.line@;
        let ghost dropped0 = self.dropped as int;
        let ghost room = self.capacity - line0.len();
        assert forall|t: int| 0 <= t < n - kept implies #[trigger] back[t] == states@[n - 1 - t].customer by {
            assert(Some(states@[n - 1 - t]) == old_slots[order@[n - 1 - t] as int]);
        }
        let ghost before = *self;
        let mut k: usize = states.len();
        while k > kept
            invariant
                self.slots == before.slots,
                self.capacity == before.capacity,
                self.served == before.served,
                self.peak_queue == before.peak_queue,
                self.next_customer_id == before.next_customer_id,
                busy_count(self.slots@) == kept,
                self.slots@ == kept_slots(old_slots, order@, count as nat),
                self.slots.len() == count,
                count > 0,
                kept == (if count < n { count as int } else { n }),
                kept <= k <= n,
                states.len() == n,
                back.len() == n - kept,
                forall|t: int| 0 <= t < n - kept ==> #[trigger] back[t] == states@[n - 1 - t].customer,
                0 <= room,
                room == self.capacity - line0.len(),
                self.line@ == line0 + back.take(
                    if n - k < room {
                        n - k
                    } else {
                        room
                    },
                ),
                self.dropped == dropped0 + (n - k) - (if n - k < room {
                    n - k
                } else {
                    room
                }),
                self.arrivals == self.served + dropped0 + line0.len() + n,
                self.arrivals + 1 == self.next_customer_id,
            decreases k,
        {
            let ghost p = n - k;
            k = k - 1;
            let customer = states[k].customer;
            assert(back[p] == customer);
            if self.line.len() < self.capacity {
                self.line.push_back(customer);
                assert(back.take(p + 1) =~= back.take(p).push(back[p]));
            } else {
                self.dropped = self.dropped + 1;
            }
        }
        Ok(())
    }

    /// The line now holds up to `capacity` customers; those beyond it, at the
    /// end of the line, are turned away.
    pub fn set_queue_capacity(&mut self, capacity: usize) -> (r: Result<(), DeskError>)
        requires
            old(self).wf(),
        ensures
            final(self).wf(),
            capacity == 0 ==> r == Err::<(), DeskError>(DeskError::NoQueueRoom) && *final(self)
                == *old(self),
            capacity > 0 ==> {
                let kept = if old(self).line_view().len() < capacity {
                    old(self).line_view().len()
                } else {
                    capacity as nat
                };
                &&& r == Ok::<(), DeskError>(())
                &&& final(self).capacity_view() == capacity
                &&& final(self).line_view() == old(self).line_view().take(kept as int)
                &&& final(self).dropped_count() == old(self).dropped_count() + (
                old(self).line_view().len() - kept)
                &&& final(self).servers_view() == old(self).servers_view()
                &&& final(self).arrival_count() == old(self).arrival_count()
                &&& final(self).served_count() == old(self).served_count()
                &&& final(self).peak_view() == old(self).peak_view()
                &&& final(self).next_id() == old(self).next_id()
            },
    {
        if capacity == 0 {
            return Err(DeskError::NoQueueRoom);
        }
        self.capacity = capacity;
        let ghost start = self.line@;
        let ghost dropped0 = self.dropped as int;
        let ghost before = *self;
        while self.line.len() > capacity
            invariant
                self.slots == before.slots,
                self.served == before.served,
                self.peak_queue == before.peak_queue,
                self.next_customer_id == before.next_customer_id,
                self.arrivals == before.arrivals,
                self.capacity == capacity,
                capacity > 0,
                self.line@.len() >= capacity || self.line@ == start,
                self.line@.len() <= start.len(),
                self.line@ == start.take(self.line@.len() as int),
                self.dropped == dropped0 + (start.len() - self.line@.len()),
                self.arrivals == self.served + dropped0 + start.len() + busy_count(self.slots@),
                self.arrivals + 1 == self.next_customer_id,
                self.slots.len() > 0,
            decreases self.line@.len(),
        {
            let _ = self.line.pop_back();
            self.dropped = self.dropped + 1;
            assert(self.line@ =~= start.take(self.line@.len() as int));
        }
        assert(start.take(start.len() as int) =~= start);
        Ok(())
    }
}

/// Every customer that ever arrived has been served, has been turned away, is
/// waiting in line or is at a server; and the line is never longer than its
/// room.
pub proof fn lemma_customers_conserved<T: Copy>(desk: ServiceDesk<T>)
    requires
        desk.wf(),
    ensures
        desk.arrival_count() == desk.served_count() + desk.dropped_count() + desk.line_view().len()
            + busy_count(desk.servers_view()),
        desk.line_view().len() <= desk.capacity_view(),
        desk.servers_view().len() > 0,
{
}

} // verus!
