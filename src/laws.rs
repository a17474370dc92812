//! Laws of the relay, proved over its model.

use vstd::prelude::*;
use crate::addr::Addr;
use crate::relay::{
    Client, Effect, Event, RelayView, index_of, others, unique_addrs, lemma_apply_members,
    lemma_apply_wf, lemma_index_of_found,
};
use crate::window::{elapsed, within_window};

verus! {

/// The state after a run of timed events, taken in order.
pub open spec fn run(v: RelayView, evs: Seq<(Event, u64)>) -> RelayView
    decreases evs.len(),
{
    if evs.len() == 0 {
        v
    } else {
        run(v, evs.drop_last()).apply(evs.last().0, evs.last().1)
    }
}

/// How many `Connected` events of the run were admitted.
pub open spec fn admissions(v: RelayView, evs: Seq<(Event, u64)>) -> nat
    decreases evs.len(),
{
    if evs.len() == 0 {
        0
    } else {
        let pre = evs.drop_last();
        admissions(v, pre) + match evs.last().0 {
            Event::Connected(a) => if run(v, pre).banned_at(a.ip, evs.last().1) {
                0nat
            } else {
                1nat
            },
            _ => 0nat,
        }
    }
}

/// How many `Disconnected` events of the run met a registered address.
pub open spec fn departures(v: RelayView, evs: Seq<(Event, u64)>) -> nat
    decreases evs.len(),
{
    if evs.len() == 0 {
        0
    } else {
        let pre = evs.drop_last();
        departures(v, pre) + match evs.last().0 {
            Event::Disconnected(a) => if run(v, pre).contains(a) {
                1nat
            } else {
                0nat
            },
            _ => 0nat,
        }
    }
}

/// The address that a `Connected` event admits.
pub open spec fn connecting(ev: Event) -> Option<Addr> {
    match ev {
        Event::Connected(a) => Some(a),
        _ => None,
    }
}

/// A run of events keeps the state well-formed.
pub proof fn lemma_run_wf(v: RelayView, evs: Seq<(Event, u64)>)
    requires
        v.wf(),
    ensures
        run(v, evs).wf(),
    decreases evs.len(),
{
    if evs.len() > 0 {
        lemma_run_wf(v, evs.drop_last());
        lemma_apply_wf(run(v, evs.drop_last()), evs.last().0, evs.last().1);
    }
}

/// An address that was not registered and never connects in a run is not
/// registered after it.
pub proof fn lemma_run_absent(v: RelayView, evs: Seq<(Event, u64)>, a: Addr)
    requires
        v.wf(),
        !v.contains(a),
        forall|i: int| 0 <= i < evs.len() ==> connecting(#[trigger] evs[i].0) != Some(a),
    ensures
        !run(v, evs).contains(a),
    decreases evs.len(),
{
    if evs.len() > 0 {
        let pre = evs.drop_last();
        assert forall|i: int| 0 <= i < pre.len() implies connecting(#[trigger] pre[i].0) != Some(a) by {
            assert(pre[i] == evs[i]);
        }
        lemma_run_absent(v, pre, a);
        lemma_run_wf(v, pre);
        let w = run(v, pre);
        let ev = evs.last().0;
        let u = w.apply(ev, evs.last().1);
        assert(connecting(evs[evs.len() - 1].0) != Some(a));
        if u.contains(a) {
            let k = choose|k: int| 0 <= k < u.clients.len() && u.clients[k].addr == a;
            lemma_apply_members(w, ev, evs.last().1, k);
            let j = choose|j: int| 0 <= j < w.clients.len() && w.clients[j] == u.clients[k];
            assert(w.clients[j].addr == a);
        }
    }
}

/// For a run in which each address connects at most once and no connecting
/// address is registered beforehand, the registry grows by one for each
/// admission and shrinks by one for each departure of a registered address;
/// and it never holds a client whose IP is under a ban, at any time.
pub proof fn lemma_registry_count(v: RelayView, evs: Seq<(Event, u64)>)
    requires
        v.wf(),
        forall|i: int, j: int|
            0 <= i < j < evs.len() && connecting(#[trigger] evs[i].0) is Some
                ==> connecting(evs[i].0) != connecting(#[trigger] evs[j].0),
        forall|i: int|
            0 <= i < evs.len() && connecting(#[trigger] evs[i].0) is Some
                ==> !v.contains(connecting(evs[i].0)->0),
    ensures
        run(v, evs).wf(),
        run(v, evs).clients.len() + departures(v, evs) == v.clients.len() + admissions(v, evs),
        forall|k: int, t: u64|
            0 <= k < run(v, evs).clients.len() ==> !#[trigger] run(v, evs).banned_at(
                run(v, evs).clients[k].addr.ip,
                t,
            ),
    decreases evs.len(),
{
    lemma_run_wf(v, evs);
    if evs.len() > 0 {
        let pre = evs.drop_last();
        assert forall|i: int, j: int|
            0 <= i < j < pre.len() && connecting(#[trigger] pre[i].0) is Some
                implies connecting(pre[i].0) != connecting(#[trigger] pre[j].0) by {
            assert(pre[i] == evs[i] && pre[j] == evs[j]);
        }
        assert forall|i: int|
            0 <= i < pre.len() && connecting(#[trigger] pre[i].0) is Some
                implies !v.contains(connecting(pre[i].0)->0) by {
            assert(pre[i] == evs[i]);
        }
        lemma_registry_count(v, pre);
        let w = run(v, pre);
        let (ev, now) = evs.last();
        match ev {
            Event::Connected(a) => {
                if !w.banned_at(a.ip, now) {
                    let n = evs.len() - 1;
                    assert(evs[n].0 == ev);
                    assert(connecting(evs[n].0) is Some);
                    assert forall|i: int| 0 <= i < pre.len() implies connecting(
                        #[trigger] pre[i].0,
                    ) != Some(a) by {
                        assert(pre[i] == evs[i]);
                        if connecting(evs[i].0) is Some {
                            assert(connecting(evs[i].0) != connecting(evs[n].0));
                        }
                    }
                    lemma_run_absent(v, pre, a);
                }
            },
            Event::Disconnected(a) => {
                if let Some(i) = index_of(w.clients, a) {
                    assert(0 <= i < w.clients.len());
                }
            },
            Event::DataReceived(_, _) => {},
        }
    }
}

/// A peer whose IP has a ban entry is rejected, with the time left, and
/// stays out of the registry while the ban holds; once the ban has run out it
/// is admitted and the entry is evicted.
pub proof fn lemma_ban_window(v: RelayView, a: Addr, now: u64, r: Effect)
    requires
        v.wf(),
        v.bans.contains_key(a.ip),
        v.effect_of(Event::Connected(a), now, r),
    ensures
        within_window(v.window, v.bans[a.ip], now) ==> {
            &&& r == (Effect::Rejected {
                ms_left: (v.window - elapsed(v.bans[a.ip], now)) as u64,
            })
            &&& v.window - elapsed(v.bans[a.ip], now) > 0
            &&& v.connect(a, now) == v
            &&& !v.connect(a, now).contains(a)
        },
        !within_window(v.window, v.bans[a.ip], now) ==> {
            &&& r == Effect::Admitted
            &&& v.connect(a, now).contains(a)
            &&& !v.connect(a, now).bans.contains_key(a.ip)
        },
{
    if within_window(v.window, v.bans[a.ip], now) {
        if v.contains(a) {
            let i = choose|i: int| 0 <= i < v.clients.len() && v.clients[i].addr == a;
            assert(!v.bans.contains_key(v.clients[i].addr.ip));
        }
    } else {
        let s = v.connect(a, now).clients;
        match index_of(v.clients, a) {
            Some(i) => {
                assert(s[i].addr == a);
            },
            None => {
                assert(s[s.len() - 1].addr == a);
            },
        }
    }
}

/// The recipients of a broadcast are the other registered clients, each
/// once: as many as there are clients besides the sender, never the sender.
pub proof fn lemma_others(s: Seq<Client>, sender: Addr)
    requires
        unique_addrs(s),
    ensures
        others(s, sender).no_duplicates(),
        forall|a: Addr|
            #[trigger] others(s, sender).contains(a) <==> a != sender && exists|k: int|
                0 <= k < s.len() && s[k].addr == a,
        others(s, sender).len() == if index_of(s, sender) is Some {
            s.len() - 1
        } else {
            s.len() as int
        },
    decreases s.len(),
{
    if s.len() > 0 {
        let p = s.drop_last();
        let l = s.last();
        let n = s.len() - 1;
        assert(unique_addrs(p)) by {
            assert forall|i: int, j: int| 0 <= i < p.len() && 0 <= j < p.len() && i != j
                implies #[trigger] p[i].addr != #[trigger] p[j].addr by {
                assert(p[i] == s[i] && p[j] == s[j]);
            }
        }
        lemma_others(p, sender);
        assert forall|k: int| 0 <= k < p.len() implies #[trigger] p[k].addr != l.addr by {
            assert(p[k] == s[k]);
        }
        assert forall|a: Addr|
            #[trigger] others(s, sender).contains(a) <==> a != sender && exists|k: int|
                0 <= k < s.len() && s[k].addr == a by {
            let o = others(s, sender);
            let op = others(p, sender);
            if l.addr != sender {
                assert(o == op.push(l.addr));
                if op.contains(a) {
                    let j = choose|j: int| 0 <= j < op.len() && op[j] == a;
                    assert(o[j] == a);
                }
                if a == l.addr {
                    assert(o[op.len() as int] == a);
                }
                if o.contains(a) {
                    let j = choose|j: int| 0 <= j < o.len() && o[j] == a;
                    if j < op.len() {
                        assert(op[j] == a);
                    }
                }
            } else {
                assert(o == op);
            }
            if a != sender && exists|k: int| 0 <= k < s.len() && s[k].addr == a {
                let k = choose|k: int| 0 <= k < s.len() && s[k].addr == a;
                if k < n {
                    assert(p[k] == s[k]);
                }
            }
            if exists|k: int| 0 <= k < p.len() && p[k].addr == a {
                let k = choose|k: int| 0 <= k < p.len() && p[k].addr == a;
                assert(s[k] == p[k]);
            }
        }
        if l.addr != sender {
            assert(!others(p, sender).contains(l.addr));
            if let Some(i) = index_of(s, sender) {
                assert(i != n);
                assert(p[i] == s[i]);
            }
            if let Some(i) = index_of(p, sender) {
                assert(p[i] == s[i]);
            }
        } else {
            lemma_index_of_found(s, n);
            if let Some(i) = index_of(p, sender) {
                assert(p[i] == s[i]);
            }
        }
    }
}

/// A broadcast goes, with the sender's bytes unchanged, to each registered
/// client other than the sender, once each, and to no one else.
pub proof fn lemma_broadcast(v: RelayView, sender: Addr, bytes: Vec<u8>, now: u64, r: Effect)
    requires
        v.wf(),
        v.effect_of(Event::DataReceived(sender, bytes), now, r),
    ensures
        r matches Effect::Broadcast { recipients, bytes: out } && {
            &&& out@ == bytes@
            &&& recipients@.no_duplicates()
            &&& recipients@.len() == v.clients.len() - if v.contains(sender) { 1int } else { 0int }
            &&& !recipients@.contains(sender)
            &&& forall|a: Addr| #[trigger] recipients@.contains(a) <==> a != sender && v.contains(a)
        },
{
    lemma_others(v.clients, sender);
    assert forall|a: Addr| v.contains(a) <==> exists|k: int|
        0 <= k < v.clients.len() && v.clients[k].addr == a by {}
}

/// A departure of an address that is not registered leaves the state as it
/// was.
pub proof fn lemma_absent_departure(v: RelayView, a: Addr)
    requires
        !v.contains(a),
    ensures
        v.disconnect(a) == v,
{
}

} // verus!
