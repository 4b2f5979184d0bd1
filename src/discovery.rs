//! The decisions of a discovery round: when to stop listening, which candidates
//! answered, and how the answer is published.
use vstd::prelude::*;
use vstd::string::*;

use crate::cluster::names_of;

verus! {

/// How long a listener waits: it stops after `idle_ms` without a reply, and in any case
/// once `ceiling_ms` have passed since it started.
#[derive(Clone, Copy, Debug, PartialEq, Eq, Structural)]
pub struct DrainWindow {
    pub idle_ms: u64,
    pub ceiling_ms: u64,
}

/// The state of one listener: when it started, when it last heard a reply, and the
/// distinct responders heard so far, in order of first sighting.
#[derive(Debug)]
pub struct Drain {
    started_ms: u64,
    last_ms: u64,
    seen: Vec<u32>,
}

/// The time from `from` to `now`, or zero when the clock reads earlier than `from`.
pub open spec fn elapsed(from: u64, now: u64) -> int {
    if now >= from { now - from } else { 0 }
}

impl Drain {
    pub closed spec fn started(&self) -> u64 {
        self.started_ms
    }

    pub closed spec fn last(&self) -> u64 {
        self.last_ms
    }

    /// The distinct responders heard so far.
    pub closed spec fn responders(&self) -> Seq<u32> {
        self.seen@
    }

    /// A listener that starts at `now`, having heard nothing.
    pub fn start(now: u64) -> (r: Drain)
        ensures
            r.started() == now,
            r.last() == now,
            r.responders() == Seq::<u32>::empty(),
    {
        Drain { started_ms: now, last_ms: now, seen: Vec::new() }
    }

    /// Records a reply from `addr` heard at `now`: the idle wait restarts, and `addr` is
    /// added unless it was heard before.
    pub fn on_reply(&mut self, now: u64, addr: u32)
        ensures
            final(self).started() == old(self).started(),
            final(self).last() == now,
            final(self).responders() == if old(self).responders().contains(addr) {
                old(self).responders()
            } else {
                old(self).responders().push(addr)
            },
    {
        self.last_ms = now;
        let mut i: usize = 0;
        while i < self.seen.len()
            invariant
                i <= self.seen@.len(),
                self.seen@ == old(self).seen@,
                self.started_ms == old(self).started_ms,
                self.last_ms == now,
                forall|j: int| 0 <= j < i ==> self.seen@[j] != addr,
            decreases self.seen@.len() - i,
        {
            if self.seen[i] == addr {
                return;
            }
            i = i + 1;
        }
        self.seen.push(addr);
    }

    /// Whether the listener is done at `now`.
    pub fn should_stop(&self, window: DrainWindow, now: u64) -> (r: bool)
        ensures
            r == stops(*self, window, now),
    {
        let idle: u64 = if now >= self.last_ms { now - self.last_ms } else { 0 };
        let total: u64 = if now >= self.started_ms { now - self.started_ms } else { 0 };
        idle >= window.idle_ms || total >= window.ceiling_ms
    }

    /// The distinct responders heard, in order of first sighting.
    pub fn into_responders(self) -> (r: Vec<u32>)
        ensures
            r@ == self.responders(),
    {
        self.seen
    }
}

/// A listener is done at `now`: it has waited `idle_ms` since the last reply (or since it
/// started), or `ceiling_ms` since it started.
pub open spec fn stops(d: Drain, window: DrainWindow, now: u64) -> bool {
    elapsed(d.last(), now) >= window.idle_ms || elapsed(d.started(), now) >= window.ceiling_ms
}

/// Listening is bounded: whatever replies arrived, a listener is done once its ceiling has
/// passed since it started, and one that never heard a reply is done once its idle wait
/// has passed. A round in which nothing answered finds no reachable host.
pub proof fn lemma_drain_bounded(d: Drain, window: DrainWindow, now: u64, candidates: Seq<(String, u32)>)
    ensures
        elapsed(d.started(), now) >= window.ceiling_ms ==> stops(d, window, now),
        d.last() == d.started() && elapsed(d.started(), now) >= window.idle_ms ==> stops(d, window, now),
        reachable(candidates, Seq::empty()) == Seq::<(String, u32)>::empty(),
    decreases candidates.len(),
{
    if candidates.len() > 0 {
        lemma_drain_bounded(d, window, now, candidates.drop_last());
        assert(!Seq::<u32>::empty().contains(candidates.last().1));
        reveal_with_fuel(Seq::filter, 1);
    }
}

/// The candidates whose address is among the responders, in candidate order.
pub open spec fn reachable(candidates: Seq<(String, u32)>, responders: Seq<u32>) -> Seq<(String, u32)> {
    candidates.filter(|c: (String, u32)| responders.contains(c.1))
}

/// Picks the candidate hosts whose address answered a probe.
pub fn reachable_hosts(candidates: &Vec<(String, u32)>, responders: &Vec<u32>) -> (r: Vec<(String, u32)>)
    ensures
        r@ == reachable(candidates@, responders@),
{
    let ghost pred = |c: (String, u32)| responders@.contains(c.1);
    let mut out: Vec<(String, u32)> = Vec::new();
    let mut i: usize = 0;
    while i < candidates.len()
        invariant
            i <= candidates@.len(),
            pred == (|c: (String, u32)| responders@.contains(c.1)),
            out@ == candidates@.subrange(0, i as int).filter(pred),
        decreases candidates@.len() - i,
    {
        let addr = candidates[i].1;
        let mut found = false;
        let mut j: usize = 0;
        while j < responders.len()
            invariant
                j <= responders@.len(),
                found == exists|k: int| 0 <= k < j && responders@[k] == addr,
            decreases responders@.len() - j,
        {
            if responders[j] == addr {
                found = true;
            }
            j = j + 1;
        }
        assert(found == responders@.contains(addr));
        let ghost c = candidates@[i as int];
        if found {
            let name = candidates[i].0.clone();
            out.push((name, addr));
            assert((name, addr) == c);
        }
        assert(candidates@.subrange(0, i + 1).drop_last() =~= candidates@.subrange(0, i as int));
        assert(out@ == candidates@.subrange(0, i + 1).filter(pred)) by {
            reveal_with_fuel(Seq::filter, 1);
            assert(candidates@.subrange(0, i + 1).last() == c);
        }
        i = i + 1;
    }
    assert(candidates@.subrange(0, candidates@.len() as int) =~= candidates@);
    out
}

/// Names separated by single spaces.
pub open spec fn joined(names: Seq<Seq<char>>) -> Seq<char>
    decreases names.len(),
{
    if names.len() == 0 {
        Seq::empty()
    } else if names.len() == 1 {
        names[0]
    } else {
        joined(names.drop_last()) + seq![' '] + names.last()
    }
}

/// The neighbour list as it is published: the names separated by single spaces.
pub fn format_neighbors(names: &Vec<String>) -> (r: String)
    ensures
        r@ == joined(names_of(names@)),
{
    let mut out = String::new();
    let mut i: usize = 0;
    while i < names.len()
        invariant
            i <= names@.len(),
            out@ == joined(names_of(names@.subrange(0, i as int))),
        decreases names@.len() - i,
    {
        let ghost prev = names_of(names@.subrange(0, i as int));
        assert(names_of(names@.subrange(0, i + 1)).drop_last() =~= prev);
        assert(names_of(names@.subrange(0, i + 1)).last() == names@[i as int]@);
        if i > 0 {
            out.append(" ");
            proof {
                reveal_strlit(" ");
            }
        }
        out.append(names[i].as_str());
        i = i + 1;
    }
    assert(names@.subrange(0, names@.len() as int) =~= names@);
    out
}

} // verus!
