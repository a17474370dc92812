//! The relay: the single owner of the registry of admitted clients and of the
//! ban table. It takes one event at a time and answers with the effect that
//! the caller carries out on the connections.

use vstd::prelude::*;
use std::collections::HashMap;
use crate::addr::{Addr, Ip};
use crate::window::{ban_time_left, elapsed, within_window};

verus! {

broadcast use vstd::std_specs::hash::group_hash_axioms;

/// An admitted peer.
#[derive(Clone, Copy, Debug, PartialEq, Eq)]
pub struct Client {
    pub addr: Addr,
    /// When the peer was admitted, in milliseconds.
    pub last_message: u64,
    /// Reserved for abuse detection; no transition changes it yet.
    pub strike_count: i32,
}

/// Something that happened on a connection, named by the peer's address.
#[derive(Debug, PartialEq, Eq)]
pub enum Event {
    Connected(Addr),
    Disconnected(Addr),
    DataReceived(Addr, Vec<u8>),
}

/// What the caller has to do after an event.
#[derive(Debug, PartialEq, Eq)]
pub enum Effect {
    /// The connecting peer was registered.
    Admitted,
    /// The connecting peer is banned for `ms_left` more milliseconds: tell it
    /// so and close its connection.
    Rejected { ms_left: u64 },
    /// The peer that went away is no longer registered.
    Released,
    /// Write `bytes` to each of `recipients`, in that order.
    Broadcast { recipients: Vec<Addr>, bytes: Vec<u8> },
}

/// The mathematical state of a relay.
pub struct RelayView {
    /// Admitted clients, in the order they were admitted.
    pub clients: Seq<Client>,
    /// Ban start per IP.
    pub bans: Map<Ip, u64>,
    /// Length of a ban.
    pub window: u64,
}

/// No two clients share an address.
pub open spec fn unique_addrs(s: Seq<Client>) -> bool {
    forall|i: int, j: int| 0 <= i < s.len() && 0 <= j < s.len() && i != j
        ==> #[trigger] s[i].addr != #[trigger] s[j].addr
}

/// Where the client with address `a` stands, if there is one.
pub open spec fn index_of(s: Seq<Client>, a: Addr) -> Option<int> {
    if exists|i: int| 0 <= i < s.len() && s[i].addr == a {
        Some(choose|i: int| 0 <= i < s.len() && s[i].addr == a)
    } else {
        None
    }
}

/// The clients after `c` is registered: it takes the place of a client with
/// the same address, or comes last.
pub open spec fn upsert(s: Seq<Client>, c: Client) -> Seq<Client> {
    match index_of(s, c.addr) {
        Some(i) => s.update(i, c),
        None => s.push(c),
    }
}

/// The clients without the one at address `a`.
pub open spec fn without(s: Seq<Client>, a: Addr) -> Seq<Client> {
    match index_of(s, a) {
        Some(i) => s.remove(i),
        None => s,
    }
}

/// The addresses of the clients other than `sender`, in registry order.
pub open spec fn others(s: Seq<Client>, sender: Addr) -> Seq<Addr>
    decreases s.len(),
{
    if s.len() == 0 {
        Seq::empty()
    } else {
        let rest = others(s.drop_last(), sender);
        if s.last().addr != sender {
            rest.push(s.last().addr)
        } else {
            rest
        }
    }
}

/// The clients whose IP is not `ip`, in registry order.
pub open spec fn off_ip(s: Seq<Client>, ip: Ip) -> Seq<Client>
    decreases s.len(),
{
    if s.len() == 0 {
        Seq::empty()
    } else {
        let rest = off_ip(s.drop_last(), ip);
        if s.last().addr.ip != ip {
            rest.push(s.last())
        } else {
            rest
        }
    }
}

/// The addresses of the clients whose IP is `ip`, in registry order.
pub open spec fn on_ip(s: Seq<Client>, ip: Ip) -> Seq<Addr>
    decreases s.len(),
{
    if s.len() == 0 {
        Seq::empty()
    } else {
        let rest = on_ip(s.drop_last(), ip);
        if s.last().addr.ip == ip {
            rest.push(s.last().addr)
        } else {
            rest
        }
    }
}

impl RelayView {
    /// Addresses are unique, and no registered client's IP is in the ban
    /// table.
    pub open spec fn wf(self) -> bool {
        &&& unique_addrs(self.clients)
        &&& forall|i: int|
            0 <= i < self.clients.len() ==> !self.bans.contains_key(
                #[trigger] self.clients[i].addr.ip,
            )
    }

    pub open spec fn contains(self, a: Addr) -> bool {
        index_of(self.clients, a) is Some
    }

    /// `ip` has a ban entry that still holds at `now`.
    pub open spec fn banned_at(self, ip: Ip, now: u64) -> bool {
        self.bans.contains_key(ip) && within_window(self.window, self.bans[ip], now)
    }

    /// Milliseconds left of the ban on `ip` at `now`.
    pub open spec fn time_left(self, ip: Ip, now: u64) -> int {
        self.window - elapsed(self.bans[ip], now)
    }

    /// The state after `a` connects at `now`: a peer under a ban that holds
    /// changes nothing; any other is registered and its stale ban entry, if
    /// any, is dropped.
    pub open spec fn connect(self, a: Addr, now: u64) -> RelayView {
        if self.banned_at(a.ip, now) {
            self
        } else {
            RelayView {
                clients: upsert(self.clients, Client { addr: a, last_message: now, strike_count: 0 }),
                bans: self.bans.remove(a.ip),
                window: self.window,
            }
        }
    }

    /// The state after `a` goes away.
    pub open spec fn disconnect(self, a: Addr) -> RelayView {
        RelayView { clients: without(self.clients, a), ..self }
    }

    /// The state after `ip` is banned at `now`: its clients leave the
    /// registry.
    pub open spec fn ban(self, ip: Ip, now: u64) -> RelayView {
        RelayView { clients: off_ip(self.clients, ip), bans: self.bans.insert(ip, now), ..self }
    }

    /// The state after event `ev` at `now`.
    pub open spec fn apply(self, ev: Event, now: u64) -> RelayView {
        match ev {
            Event::Connected(a) => self.connect(a, now),
            Event::Disconnected(a) => self.disconnect(a),
            Event::DataReceived(_, _) => self,
        }
    }

    /// `r` is the effect owed for event `ev` at `now`.
    pub open spec fn effect_of(self, ev: Event, now: u64, r: Effect) -> bool {
        match ev {
            Event::Connected(a) => if self.banned_at(a.ip, now) {
                r == (Effect::Rejected { ms_left: self.time_left(a.ip, now) as u64 })
            } else {
                r == Effect::Admitted
            },
            Event::Disconnected(_) => r == Effect::Released,
            Event::DataReceived(sender, bytes) => {
                &&& r matches Effect::Broadcast { recipients, bytes: out }
                &&& recipients@ == others(self.clients, sender)
                &&& out@ == bytes@
            },
        }
    }
}

/// The index of a client is where its address stands, when addresses are
/// unique.
pub proof fn lemma_index_of_found(s: Seq<Client>, i: int)
    requires
        unique_addrs(s),
        0 <= i < s.len(),
    ensures
        index_of(s, s[i].addr) == Some(i),
{
    let a = s[i].addr;
    assert(0 <= i < s.len() && s[i].addr == a);
    let j = choose|j: int| 0 <= j < s.len() && s[j].addr == a;
    assert(s[j].addr == a);
}

/// Which addresses a state holds after an event: those it held, and the one
/// that connected.
pub proof fn lemma_apply_members(v: RelayView, ev: Event, now: u64, k: int)
    requires
        v.wf(),
        0 <= k < v.apply(ev, now).clients.len(),
    ensures
        (exists|j: int| 0 <= j < v.clients.len() && v.clients[j] == #[trigger] v.apply(ev, now).clients[k])
            || (ev matches Event::Connected(a) && v.apply(ev, now).clients[k].addr == a),
{
    let w = v.apply(ev, now);
    match ev {
        Event::Connected(a) => {
            if !v.banned_at(a.ip, now) {
                match index_of(v.clients, a) {
                    Some(i) => {
                        if k != i {
                            assert(v.clients[k] == w.clients[k]);
                        }
                    },
                    None => {
                        if k < v.clients.len() {
                            assert(v.clients[k] == w.clients[k]);
                        }
                    },
                }
            } else {
                assert(v.clients[k] == w.clients[k]);
            }
        },
        Event::Disconnected(a) => {
            match index_of(v.clients, a) {
                Some(i) => {
                    if k < i {
                        assert(v.clients[k] == w.clients[k]);
                    } else {
                        assert(v.clients[k + 1] == w.clients[k]);
                    }
                },
                None => {
                    assert(v.clients[k] == w.clients[k]);
                },
            }
        },
        Event::DataReceived(_, _) => {
            assert(v.clients[k] == w.clients[k]);
        },
    }
}

/// Every event keeps a well-formed state well-formed.
pub proof fn lemma_apply_wf(v: RelayView, ev: Event, now: u64)
    requires
        v.wf(),
    ensures
        v.apply(ev, now).wf(),
{
    let w = v.apply(ev, now);
    assert forall|i: int, j: int|
        0 <= i < w.clients.len() && 0 <= j < w.clients.len() && i != j
            implies #[trigger] w.clients[i].addr != #[trigger] w.clients[j].addr by {
        match ev {
            Event::Connected(a) => {
                if !v.banned_at(a.ip, now) {
                    match index_of(v.clients, a) {
                        Some(x) => {
                            assert(v.clients[x].addr == a);
                        },
                        None => {
                            if i < v.clients.len() {
                                assert(v.clients[i].addr != a);
                            }
                            if j < v.clients.len() {
                                assert(v.clients[j].addr != a);
                            }
                        },
                    }
                }
            },
            Event::Disconnected(a) => {
                match index_of(v.clients, a) {
                    Some(x) => {
                        let i2 = if i < x { i } else { i + 1 };
                        let j2 = if j < x { j } else { j + 1 };
                        assert(w.clients[i] == v.clients[i2]);
                        assert(w.clients[j] == v.clients[j2]);
                    },
                    None => {},
                }
            },
            Event::DataReceived(_, _) => {},
        }
    }
    assert forall|k: int| 0 <= k < w.clients.len() implies !w.bans.contains_key(
        #[trigger] w.clients[k].addr.ip,
    ) by {
        lemma_apply_members(v, ev, now, k);
        if exists|j: int| 0 <= j < v.clients.len() && v.clients[j] == w.clients[k] {
            let j = choose|j: int| 0 <= j < v.clients.len() && v.clients[j] == w.clients[k];
            assert(!v.bans.contains_key(v.clients[j].addr.ip));
        }
    }
}

/// The relay state: the registry of admitted clients, in admission order,
/// and the ban table.
pub struct Relay {
    clients: Vec<Client>,
    bans: HashMap<Ip, u64>,
    window: u64,
}

impl View for Relay {
    type V = RelayView;

    closed spec fn view(&self) -> RelayView {
        RelayView { clients: self.clients@, bans: self.bans@, window: self.window }
    }
}

impl Relay {
    /// An empty relay whose bans last `ban_window` milliseconds.
    pub fn new(ban_window: u64) -> (r: Relay)
        ensures
            r@.clients == Seq::<Client>::empty(),
            r@.bans == Map::<Ip, u64>::empty(),
            r@.window == ban_window,
            r@.wf(),
    {
        Relay { clients: Vec::new(), bans: HashMap::new(), window: ban_window }
    }

    /// Number of registered clients.
    pub fn len(&self) -> (r: usize)
        ensures
            r == self@.clients.len(),
    {
        self.clients.len()
    }

    /// The length of a ban.
    pub fn ban_window(&self) -> (r: u64)
        ensures
            r == self@.window,
    {
        self.window
    }

    /// The registered addresses, in admission order.
    pub fn addrs(&self) -> (r: Vec<Addr>)
        ensures
            r@ == self@.clients.map_values(|c: Client| c.addr),
    {
        let mut out: Vec<Addr> = Vec::new();
        let mut i: usize = 0;
        while i < self.clients.len()
            invariant
                i <= self.clients@.len(),
                out@ == self.clients@.subrange(0, i as int).map_values(|c: Client| c.addr),
            decreases self.clients@.len() - i,
        {
            out.push(self.clients[i].addr);
            i += 1;
            assert(out@ =~= self.clients@.subrange(0, i as int).map_values(|c: Client| c.addr));
        }
        assert(self.clients@.subrange(0, i as int) =~= self.clients@);
        out
    }

    /// When the ban on `ip` began, if the ban table has an entry for it.
    pub fn ban_start(&self, ip: Ip) -> (r: Option<u64>)
        ensures
            r == (if self@.bans.contains_key(ip) {
                Some(self@.bans[ip])
            } else {
                None::<u64>
            }),
    {
        match self.bans.get(&ip) {
            Some(s) => Some(*s),
            None => None,
        }
    }

    /// Where the client with address `a` stands in the registry.
    fn find(&self, a: &Addr) -> (r: Option<usize>)
        requires
            self@.wf(),
        ensures
            match r {
                Some(i) => index_of(self@.clients, *a) == Some(i as int),
                None => index_of(self@.clients, *a) is None,
            },
    {
        let mut i: usize = 0;
        while i < self.clients.len()
            invariant
                i <= self.clients@.len(),
                unique_addrs(self.clients@),
                forall|j: int| 0 <= j < i ==> self.clients@[j].addr != *a,
            decreases self.clients@.len() - i,
        {
            if self.clients[i].addr == *a {
                proof {
                    lemma_index_of_found(self.clients@, i as int);
                }
                return Some(i);
            }
            i += 1;
        }
        None
    }

    /// Whether a client with address `a` is registered.
    pub fn contains(&self, a: &Addr) -> (r: bool)
        requires
            self@.wf(),
        ensures
            r == self@.contains(*a),
    {
        self.find(a).is_some()
    }

    /// A peer at `a` connects at `now`. Under a ban that still holds it is
    /// rejected, with the time left, and the ban entry stays; otherwise it is
    /// registered and a stale ban entry for its IP is evicted.
    pub fn on_connected(&mut self, a: Addr, now: u64) -> (r: Effect)
        requires
            old(self)@.wf(),
        ensures
            final(self)@ == old(self)@.connect(a, now),
            final(self)@.wf(),
            old(self)@.effect_of(Event::Connected(a), now, r),
    {
        proof {
            lemma_apply_wf(self@, Event::Connected(a), now);
        }
        match self.bans.get(&a.ip) {
            Some(start) => {
                match ban_time_left(self.window, *start, now) {
                    Some(ms) => {
                        return Effect::Rejected { ms_left: ms };
                    },
                    None => {},
                }
            },
            None => {},
        }
        self.bans.remove(&a.ip);
        let c = Client { addr: a, last_message: now, strike_count: 0 };
        match self.find(&a) {
            Some(i) => {
                self.clients.set(i, c);
            },
            None => {
                self.clients.push(c);
            },
        }
        Effect::Admitted
    }

    /// The peer at `a` went away. Removing an address that is not registered
    /// changes nothing.
    pub fn on_disconnected(&mut self, a: &Addr) -> (r: Effect)
        requires
            old(self)@.wf(),
        ensures
            final(self)@ == old(self)@.disconnect(*a),
            final(self)@.wf(),
            r == Effect::Released,
    {
        proof {
            lemma_apply_wf(self@, Event::Disconnected(*a), 0);
        }
        match self.find(a) {
            Some(i) => {
                self.clients.remove(i);
            },
            None => {},
        }
        Effect::Released
    }

    /// `sender` sent `bytes`: they go to every other registered client, in
    /// registry order, and never back to the sender.
    pub fn on_data(&self, sender: &Addr, bytes: Vec<u8>) -> (r: Effect)
        ensures
            self@.effect_of(Event::DataReceived(*sender, bytes), 0, r),
    {
        let mut out: Vec<Addr> = Vec::new();
        let mut i: usize = 0;
        while i < self.clients.len()
            invariant
                i <= self.clients@.len(),
                out@ == others(self.clients@.subrange(0, i as int), *sender),
            decreases self.clients@.len() - i,
        {
            assert(self.clients@.subrange(0, i + 1).drop_last() =~= self.clients@.subrange(
                0,
                i as int,
            ));
            let addr = self.clients[i].addr;
            if !(addr == *sender) {
                out.push(addr);
            }
            i += 1;
        }
        assert(self.clients@.subrange(0, i as int) =~= self.clients@);
        Effect::Broadcast { recipients: out, bytes }
    }

    /// Bans `ip` from `now` on, replacing any earlier ban entry for it. Its
    /// registered clients leave the registry; their addresses are returned,
    /// in registry order, for the caller to close.
    pub fn ban(&mut self, ip: Ip, now: u64) -> (r: Vec<Addr>)
        requires
            old(self)@.wf(),
        ensures
            final(self)@ == old(self)@.ban(ip, now),
            final(self)@.wf(),
            r@ == on_ip(old(self)@.clients, ip),
    {
        let ghost s = self.clients@;
        let ghost mut src: Seq<int> = Seq::empty();
        let mut kept: Vec<Client> = Vec::new();
        let mut gone: Vec<Addr> = Vec::new();
        let mut i: usize = 0;
        while i < self.clients.len()
            invariant
                s == self.clients@,
                self@.wf(),
                i <= s.len(),
                kept@ == off_ip(s.subrange(0, i as int), ip),
                gone@ == on_ip(s.subrange(0, i as int), ip),
                unique_addrs(kept@),
                src.len() == kept@.len(),
                forall|k: int|
                    0 <= k < kept@.len() ==> 0 <= #[trigger] src[k] < i && kept@[k] == s[src[k]],
                forall|k: int| 0 <= k < kept@.len() ==> #[trigger] kept@[k].addr.ip != ip,
            decreases s.len() - i,
        {
            assert(s.subrange(0, i + 1).drop_last() =~= s.subrange(0, i as int));
            let c = self.clients[i];
            if c.addr.ip != ip {
                proof {
                    assert forall|k: int| 0 <= k < kept@.len() implies kept@[k].addr != c.addr by {
                        assert(src[k] != i);
                        assert(s[src[k]].addr != s[i as int].addr);
                    }
                    src = src.push(i as int);
                }
                kept.push(c);
            } else {
                gone.push(c.addr);
            }
            i += 1;
        }
        assert(s.subrange(0, i as int) =~= s);
        proof {
            assert forall|k: int| 0 <= k < kept@.len() implies !self@.bans.insert(ip, now).contains_key(
                #[trigger] kept@[k].addr.ip,
            ) by {
                assert(!self@.bans.contains_key(s[src[k]].addr.ip));
            }
        }
        self.clients = kept;
        self.bans.insert(ip, now);
        gone
    }

    /// Takes one event at `now` to completion.
    pub fn handle(&mut self, ev: Event, now: u64) -> (r: Effect)
        requires
            old(self)@.wf(),
        ensures
            final(self)@ == old(self)@.apply(ev, now),
            final(self)@.wf(),
            old(self)@.effect_of(ev, now, r),
    {
        match ev {
            Event::Connected(a) => self.on_connected(a, now),
            Event::Disconnected(a) => self.on_disconnected(&a),
            Event::DataReceived(sender, bytes) => self.on_data(&sender, bytes),
        }
    }
}

} // verus!
