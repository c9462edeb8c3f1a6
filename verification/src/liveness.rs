//! Which peers a node still hears from. A peer whose last message is at
//! least the heartbeat timeout old is marked expired and retried on every
//! tick until it is heard from again. Times are in nanoseconds on the node's
//! monotonic clock.
use vstd::prelude::*;
use std::collections::{HashMap, HashSet};
use vstd::std_specs::hash::{spec_hash_keys_iter, spec_hash_map_iter};
use vstd::std_specs::iter::IteratorSpec;

verus! {

broadcast use vstd::std_specs::hash::group_hash_axioms;

/// How long a peer may stay silent before it counts as expired: 100 ms.
pub const HEARTBEAT_TIMEOUT_NANOS: u64 = 100_000_000;

/// The time from `since` to `now`, or zero when `since` is later (an
/// instant's `duration_since` saturates the same way).
pub open spec fn elapsed(since: u64, now: u64) -> nat {
    if now >= since {
        (now - since) as nat
    } else {
        0
    }
}

/// The peers in `last_seen` that have been silent for the heartbeat timeout at `now`.
pub open spec fn stale_peers(last_seen: Map<u64, u64>, now: u64) -> Set<u64> {
    Set::new(|id: u64| last_seen.contains_key(id) && elapsed(last_seen[id], now) >= HEARTBEAT_TIMEOUT_NANOS)
}

proof fn lemma_to_set_push(s: Seq<u64>, e: u64)
    ensures
        s.push(e).to_set() == s.to_set().insert(e),
{
    assert forall|x: u64| #[trigger] s.push(e).to_set().contains(x) == s.to_set().insert(e).contains(x) by {
        if s.contains(x) {
            let w = choose|w: int| 0 <= w < s.len() && s[w] == x;
            assert(s.push(e)[w] == x);
        }
        if x == e {
            assert(s.push(e)[s.len() as int] == e);
        }
        if s.push(e).contains(x) {
            let w = choose|w: int| 0 <= w < s.push(e).len() && s.push(e)[w] == x;
            if w < s.len() {
                assert(s[w] == x);
            }
        }
    }
    assert(s.push(e).to_set() =~= s.to_set().insert(e));
}

/// What a node knows of its peers' liveness.
#[verifier::ext_equal]
pub struct LivenessView {
    /// When each peer that is not expired was last heard from.
    pub last_seen: Map<u64, u64>,
    /// The peers marked as unresponsive.
    pub expired: Set<u64>,
}

impl LivenessView {
    /// No peer is at once tracked and expired.
    pub open spec fn wf(self) -> bool {
        self.last_seen.dom().disjoint(self.expired)
    }

    /// The bookkeeping after hearing from `sender` at `now`.
    pub open spec fn heard(self, sender: u64, now: u64) -> LivenessView {
        LivenessView { last_seen: self.last_seen.insert(sender, now), expired: self.expired.remove(sender) }
    }

    /// The bookkeeping after a tick at `now`.
    pub open spec fn ticked(self, now: u64) -> LivenessView {
        let stale = stale_peers(self.last_seen, now);
        LivenessView { last_seen: self.last_seen.remove_keys(stale), expired: self.expired + stale }
    }
}

/// The peers to reconnect to after a tick, and whether the node must also
/// reconnect itself because it knows of no leader.
pub struct TickOutcome {
    pub reconnect: Vec<u64>,
    pub reconnect_self: bool,
}

/// Heartbeat bookkeeping for the peers of a node.
pub struct Liveness {
    heartbeats: HashMap<u64, u64>,
    expired_nodes: HashSet<u64>,
}

impl View for Liveness {
    type V = LivenessView;

    closed spec fn view(&self) -> LivenessView {
        LivenessView { last_seen: self.heartbeats@, expired: self.expired_nodes@ }
    }
}

impl Liveness {
    /// No peer is at once tracked and expired.
    #[verifier::type_invariant]
    spec fn inv(&self) -> bool {
        self@.wf()
    }

    /// Nothing heard, nothing expired.
    pub fn new() -> (l: Liveness)
        ensures
            l@.last_seen == Map::<u64, u64>::empty(),
            l@.expired == Set::<u64>::empty(),
            l@.wf(),
    {
        let l = Liveness { heartbeats: HashMap::new(), expired_nodes: HashSet::new() };
        assert(l@.last_seen.dom() =~= Set::<u64>::empty());
        l
    }

    /// A message from `sender` arrived at `now`: it is alive again.
    pub fn record_heartbeat(&mut self, sender: u64, now: u64)
        ensures
            final(self)@.wf(),
            final(self)@ == old(self)@.heard(sender, now),
    {
        proof {
            use_type_invariant(&*self);
        }
        let mut hb: HashMap<u64, u64> = HashMap::new();
        std::mem::swap(&mut hb, &mut self.heartbeats);
        let mut ex: HashSet<u64> = HashSet::new();
        std::mem::swap(&mut ex, &mut self.expired_nodes);
        ex.remove(&sender);
        hb.insert(sender, now);
        assert(hb@.dom().disjoint(ex@));
        *self = Liveness { heartbeats: hb, expired_nodes: ex };
        assert(self@ =~= old(self)@.heard(sender, now));
    }

    /// A tick at `now`: peers silent for the heartbeat timeout stop being
    /// tracked and become expired; every expired peer is to be reconnected,
    /// each once; and the node reconnects itself when it knows of no leader.
    pub fn on_tick(&mut self, now: u64, leader_known: bool) -> (out: TickOutcome)
        ensures
            final(self)@.wf(),
            final(self)@ == old(self)@.ticked(now),
            out.reconnect@.to_set() == final(self)@.expired,
            out.reconnect@.no_duplicates(),
            out.reconnect_self == !leader_known,
    {
        proof {
            use_type_invariant(&*self);
        }
        let mut hb: HashMap<u64, u64> = HashMap::new();
        std::mem::swap(&mut hb, &mut self.heartbeats);
        let mut ex: HashSet<u64> = HashSet::new();
        std::mem::swap(&mut ex, &mut self.expired_nodes);
        let ghost stale_set = stale_peers(hb@, now);
        let mut stale: Vec<u64> = Vec::new();
        let ghost pairs = spec_hash_map_iter(&hb).remaining();
        for entry in it: hb.iter()
            invariant
                it.seq() == pairs,
                it.seq().len() == old(self)@.last_seen.dom().len(),
                stale_set == stale_peers(old(self)@.last_seen, now),
                hb@ == old(self)@.last_seen,
                ex@ == old(self)@.expired,
                forall|j: int| 0 <= j < it.seq().len() ==> hb@.contains_key(*it.seq()[j].0)
                    && hb@[*it.seq()[j].0] == *it.seq()[j].1,
                forall|k: u64| #[trigger] hb@.contains_key(k) ==> it.seq().contains((&k, &hb@[k])),
                forall|x: u64| stale@.contains(x) ==> #[trigger] stale_set.contains(x),
                forall|j: int| 0 <= j < it.index() ==> (stale_set.contains(*it.seq()[j].0) ==> stale@.contains(*it.seq()[j].0)),
        {
            let ghost k = it.index() as int;
            assert(k < it.seq().len() && entry == it.seq()[k]);
            let ghost before = stale@;
            let (id, seen) = entry;
            assert(hb@.contains_key(*id) && hb@[*id] == *seen);
            let elapsed_now: u64 = if now >= *seen { now - *seen } else { 0 };
            if elapsed_now >= HEARTBEAT_TIMEOUT_NANOS {
                stale.push(*id);
                assert(stale@[stale@.len() - 1] == *id);
            }
            assert(stale_set.contains(*id) ==> stale@.contains(*id));
            assert forall|x: u64| before.contains(x) implies stale@.contains(x) by {
                let w = choose|w: int| 0 <= w < before.len() && before[w] == x;
                assert(stale@[w] == x);
            }
        }
        assert(stale@.to_set() =~= stale_set) by {
            assert forall|x: u64| stale_set.contains(x) implies stale@.to_set().contains(x) by {
                let w = choose|w: int| 0 <= w < pairs.len() && pairs[w] == (&x, &hb@[x]);
                assert(*pairs[w].0 == x);
            }
        }
        let n: usize = stale.len();
        for i in 0..n
            invariant
                n == stale@.len(),
                stale@.to_set() == stale_set,
                old(self)@.wf(),
                ex@ == old(self)@.expired,
                hb@ == old(self)@.last_seen.remove_keys(stale@.take(i as int).to_set()),
        {
            hb.remove(&stale[i]);
            proof {
                assert(stale@.take(i + 1) =~= stale@.take(i as int).push(stale@[i as int]));
                lemma_to_set_push(stale@.take(i as int), stale@[i as int]);
                assert(hb@ =~= old(self)@.last_seen.remove_keys(stale@.take(i + 1).to_set()));
            }
        }
        assert(stale@.take(n as int) =~= stale@);
        for i in 0..n
            invariant
                n == stale@.len(),
                stale@.to_set() == stale_set,
                old(self)@.wf(),
                hb@ == old(self)@.last_seen.remove_keys(stale_set),
                ex@ == old(self)@.expired + stale@.take(i as int).to_set(),
        {
            ex.insert(stale[i]);
            proof {
                assert(stale@.take(i + 1) =~= stale@.take(i as int).push(stale@[i as int]));
                lemma_to_set_push(stale@.take(i as int), stale@[i as int]);
            }
        }
        assert(stale@.take(n as int) =~= stale@);
        let mut reconnect: Vec<u64> = Vec::new();
        let ghost ids = spec_hash_keys_iter(&ex).remaining();
        for id in it2: ex.iter()
            invariant
                it2.seq() == ids,
                reconnect@.len() == it2.index(),
                forall|j: int| 0 <= j < it2.index() ==> reconnect@[j] == *it2.seq()[j],
        {
            reconnect.push(*id);
        }
        assert(reconnect@ =~= ids.unref());
        assert(hb@.dom().disjoint(ex@));
        *self = Liveness { heartbeats: hb, expired_nodes: ex };
        assert(self@ =~= old(self)@.ticked(now));
        TickOutcome { reconnect, reconnect_self: !leader_known }
    }
}

/// A tick keeps the bookkeeping well formed, and a heartbeat does too.
pub proof fn lemma_steps_keep_wf(v: LivenessView, sender: u64, now: u64)
    requires
        v.wf(),
    ensures
        v.ticked(now).wf(),
        v.heard(sender, now).wf(),
{
}

/// After a tick at `now`, no tracked peer has been silent for the timeout,
/// and every peer that was expired before still is.
pub proof fn lemma_tick_leaves_no_stale_peer(v: LivenessView, now: u64)
    ensures
        stale_peers(v.ticked(now).last_seen, now) == Set::<u64>::empty(),
        v.expired.subset_of(v.ticked(now).expired),
{
    assert(stale_peers(v.ticked(now).last_seen, now) =~= Set::<u64>::empty());
}

/// A peer heard from at `now` is neither expired nor dropped by a tick
/// that comes less than the timeout later.
pub proof fn lemma_heard_peer_survives_tick(v: LivenessView, sender: u64, now: u64, later: u64)
    requires
        elapsed(now, later) < HEARTBEAT_TIMEOUT_NANOS,
    ensures
        v.heard(sender, now).ticked(later).last_seen.contains_key(sender),
        v.heard(sender, now).ticked(later).last_seen[sender] == now,
        !v.heard(sender, now).ticked(later).expired.contains(sender),
{
}

/// A peer last heard at `since` is expired by a tick at `now` exactly when
/// `now` is at least 100 ms (in nanoseconds) after `since`.
pub proof fn lemma_expiry_threshold(v: LivenessView, sender: u64, since: u64, now: u64)
    ensures
        v.heard(sender, since).ticked(now).expired.contains(sender) <==> (since <= now && now - since >= 100_000_000),
        v.heard(sender, since).ticked(now).last_seen.contains_key(sender) <==> !(since <= now && now - since >= 100_000_000),
{
}

/// A peer that stays silent for the timeout is expired by the next tick.
pub proof fn lemma_silent_peer_expires(v: LivenessView, sender: u64, now: u64, later: u64)
    requires
        elapsed(now, later) >= HEARTBEAT_TIMEOUT_NANOS,
    ensures
        v.heard(sender, now).ticked(later).expired.contains(sender),
        !v.heard(sender, now).ticked(later).last_seen.contains_key(sender),
{
}

} // verus!
