//! The subscriber registry: the shared state of the server.
//!
//! One entry per subscriber, keyed by its broadcast address, holding its
//! ticker filter, its bounded delivery channel and its last-seen instant
//! (milliseconds; the later of registration and the last liveness ping).
//! The registry is a plain value: the process around the library guards it
//! with a lock and calls the operations here, which carry the whole
//! protocol's meaning — replace-on-re-register, skip-on-full fan-out and
//! liveness-driven eviction.

use vstd::prelude::*;

use crate::addr::Addr;
use crate::stock::{quotes_view, texts_view, QuoteView, StockQuote};

verus! {

/// Bound of a delivery channel: at most one undelivered snapshot, as the
/// one-slot handoff of the broadcast design demands.
pub const CHANNEL_CAPACITY: usize = 1;

/// A bounded, closable queue of snapshots, the delivery channel of one
/// subscriber.
pub struct Channel {
    msgs: Vec<Vec<StockQuote>>,
    accepting: bool,
}

/// The spec-level image of a channel: its queued snapshots and whether it
/// still accepts them.
pub ghost struct ChannelView {
    pub msgs: Seq<Seq<QuoteView>>,
    pub is_open: bool,
}

/// The views of a sequence of queued snapshots.
pub open spec fn snapshots_view(v: Seq<Vec<StockQuote>>) -> Seq<Seq<QuoteView>> {
    Seq::new(v.len(), |i: int| quotes_view(v[i]@))
}

impl View for Channel {
    type V = ChannelView;

    closed spec fn view(&self) -> ChannelView {
        ChannelView { msgs: snapshots_view(self.msgs@), is_open: self.accepting }
    }
}

impl Channel {
    /// A fresh, empty, open channel.
    pub fn new() -> (r: Channel)
        ensures
            r@.msgs.len() == 0,
            r@.is_open,
    {
        Channel { msgs: Vec::new(), accepting: true }
    }

    /// Whether the channel was closed by eviction or replacement.
    pub fn is_closed(&self) -> (r: bool)
        ensures
            r == !self@.is_open,
    {
        !self.accepting
    }

    /// How many snapshots wait in the channel.
    pub fn queued(&self) -> (r: usize)
        ensures
            r == self@.msgs.len(),
    {
        self.msgs.len()
    }

    /// Takes the oldest queued snapshot, if any; the delivery worker's
    /// blocking receive, seen one step at a time.
    pub fn recv(&mut self) -> (r: Option<Vec<StockQuote>>)
        ensures
            final(self)@.is_open == old(self)@.is_open,
            old(self)@.msgs.len() > 0 ==> {
                &&& r is Some
                &&& quotes_view(r.unwrap()@) == old(self)@.msgs[0]
                &&& final(self)@.msgs == old(self)@.msgs.skip(1)
            },
            old(self)@.msgs.len() == 0 ==> r is None && final(self)@.msgs == old(self)@.msgs,
    {
        if self.msgs.len() == 0 {
            None
        } else {
            let first = self.msgs.remove(0);
            proof {
                assert(self@.msgs =~= old(self)@.msgs.skip(1));
            }
            Some(first)
        }
    }
}

/// One subscriber: address, ticker filter, delivery channel, last-seen
/// instant.
pub struct Subscriber {
    addr: Addr,
    tickers: Vec<String>,
    chan: Channel,
    last_seen: u64,
}

/// The spec-level image of a subscriber.
pub ghost struct SubscriberView {
    pub addr: Addr,
    pub tickers: Seq<Seq<char>>,
    pub chan: ChannelView,
    pub last_seen: u64,
}

impl View for Subscriber {
    type V = SubscriberView;

    closed spec fn view(&self) -> SubscriberView {
        SubscriberView {
            addr: self.addr,
            tickers: texts_view(self.tickers@),
            chan: self.chan@,
            last_seen: self.last_seen,
        }
    }
}

/// The views of a sequence of subscriber entries.
pub open spec fn subs_view(v: Seq<Subscriber>) -> Seq<SubscriberView> {
    Seq::new(v.len(), |i: int| v[i]@)
}

/// The registry itself: the subscriber table in registration order.
pub struct SubscriberRegistry {
    subs: Vec<Subscriber>,
}

impl View for SubscriberRegistry {
    type V = Seq<SubscriberView>;

    closed spec fn view(&self) -> Seq<SubscriberView> {
        subs_view(self.subs@)
    }
}

/// Whether some entry carries this address.
pub open spec fn has_addr(rv: Seq<SubscriberView>, a: Addr) -> bool {
    exists|i: int| 0 <= i < rv.len() && rv[i].addr == a
}

/// Well-formed registry state: addresses unique, every held channel open.
pub open spec fn reg_wf(rv: Seq<SubscriberView>) -> bool {
    &&& forall|i: int, j: int|
        0 <= i < rv.len() && 0 <= j < rv.len() && i != j ==> rv[i].addr != rv[j].addr
    &&& forall|i: int| 0 <= i < rv.len() ==> (#[trigger] rv[i]).chan.is_open
}

/// The registry without the entries of one address, order kept.
pub open spec fn without_addr(rv: Seq<SubscriberView>, a: Addr) -> Seq<SubscriberView>
    decreases rv.len(),
{
    if rv.len() == 0 {
        rv
    } else {
        let rest = without_addr(rv.drop_last(), a);
        if rv.last().addr == a {
            rest
        } else {
            rest.push(rv.last())
        }
    }
}

/// Milliseconds since an entry was last seen; zero when the clock reads
/// earlier than the stamp.
pub open spec fn age_of(now: u64, last_seen: u64) -> int {
    if now >= last_seen {
        now - last_seen
    } else {
        0
    }
}

/// Whether an entry's silence has outlived the eviction timeout.
pub open spec fn expired(e: SubscriberView, now: u64, timeout: u64) -> bool {
    age_of(now, e.last_seen) > timeout
}

/// An entry after a liveness ping at `now`: the stamp moves to the later
/// of the two instants; nothing else changes.
pub open spec fn touched(e: SubscriberView, now: u64) -> SubscriberView {
    SubscriberView {
        last_seen: if now > e.last_seen {
            now
        } else {
            e.last_seen
        },
        ..e
    }
}

/// The registry after a ping from `a`: only entries of that address are
/// stamped; a ping from an unknown address changes nothing.
pub open spec fn touch_view(rv: Seq<SubscriberView>, a: Addr, now: u64) -> Seq<SubscriberView> {
    Seq::new(
        rv.len(),
        |i: int|
            if rv[i].addr == a {
                touched(rv[i], now)
            } else {
                rv[i]
            },
    )
}

/// The entries an eviction scan at `now` keeps, in order.
pub open spec fn live_view(rv: Seq<SubscriberView>, now: u64, timeout: u64) -> Seq<SubscriberView>
    decreases rv.len(),
{
    if rv.len() == 0 {
        rv
    } else {
        let rest = live_view(rv.drop_last(), now, timeout);
        if expired(rv.last(), now, timeout) {
            rest
        } else {
            rest.push(rv.last())
        }
    }
}

/// An evicted entry as the scan hands it out: its address and its
/// channel, closed, contents intact.
pub open spec fn closed_pair(e: SubscriberView) -> (Addr, ChannelView) {
    (e.addr, ChannelView { msgs: e.chan.msgs, is_open: false })
}

/// The entries an eviction scan at `now` removes, in order, as closed
/// pairs.
pub open spec fn evicted_view(rv: Seq<SubscriberView>, now: u64, timeout: u64) -> Seq<
    (Addr, ChannelView),
>
    decreases rv.len(),
{
    if rv.len() == 0 {
        Seq::empty()
    } else {
        let rest = evicted_view(rv.drop_last(), now, timeout);
        if expired(rv.last(), now, timeout) {
            rest.push(closed_pair(rv.last()))
        } else {
            rest
        }
    }
}

/// The views of the pairs an eviction returns.
pub open spec fn pairs_view(v: Seq<(Addr, Channel)>) -> Seq<(Addr, ChannelView)> {
    Seq::new(v.len(), |i: int| (v[i].0, v[i].1@))
}

/// An entry after one broadcast offer: the snapshot joins the queue when
/// the channel is open and has room; a full or closed channel is skipped
/// and left as it was.
pub open spec fn snap_pushed(e: SubscriberView, snap: Seq<QuoteView>) -> SubscriberView {
    if e.chan.is_open && e.chan.msgs.len() < CHANNEL_CAPACITY {
        SubscriberView {
            chan: ChannelView { msgs: e.chan.msgs.push(snap), is_open: e.chan.is_open },
            ..e
        }
    } else {
        e
    }
}

/// The registry after one broadcast cycle offers `snap` to every entry.
pub open spec fn fan_out_view(rv: Seq<SubscriberView>, snap: Seq<QuoteView>) -> Seq<
    SubscriberView,
> {
    Seq::new(rv.len(), |i: int| snap_pushed(rv[i], snap))
}

/// An entry after its worker took the oldest queued snapshot.
pub open spec fn after_recv(e: SubscriberView) -> SubscriberView {
    SubscriberView {
        chan: ChannelView { msgs: e.chan.msgs.skip(1), is_open: e.chan.is_open },
        ..e
    }
}

/// A fresh entry as registration writes it.
pub open spec fn fresh_entry(a: Addr, tickers: Seq<Seq<char>>, now: u64) -> SubscriberView {
    SubscriberView {
        addr: a,
        tickers,
        chan: ChannelView { msgs: Seq::empty(), is_open: true },
        last_seen: now,
    }
}

/// Removing an address leaves no entry of it, leaves every other entry in
/// place, and changes nothing when the address is absent.
pub proof fn lemma_without_addr(rv: Seq<SubscriberView>, a: Addr)
    ensures
        !has_addr(without_addr(rv, a), a),
        forall|i: int|
            0 <= i < without_addr(rv, a).len() ==> rv.contains(#[trigger] without_addr(rv, a)[i])
                && without_addr(rv, a)[i].addr != a,
        !has_addr(rv, a) ==> without_addr(rv, a) == rv,
        without_addr(rv, a).len() <= rv.len(),
    decreases rv.len(),
{
    if rv.len() == 0 {
    } else {
        lemma_without_addr(rv.drop_last(), a);
        let rest = without_addr(rv.drop_last(), a);
        assert forall|i: int| 0 <= i < without_addr(rv, a).len() implies rv.contains(
            #[trigger] without_addr(rv, a)[i],
        ) && without_addr(rv, a)[i].addr != a by {
            if rv.last().addr == a {
                assert(rv.drop_last().contains(rest[i]));
                let j = choose|j: int| 0 <= j < rv.drop_last().len() && rv.drop_last()[j] == rest[i];
                assert(rv[j] == rest[i]);
            } else {
                if i < rest.len() {
                    assert(rv.drop_last().contains(rest[i]));
                    let j = choose|j: int|
                        0 <= j < rv.drop_last().len() && rv.drop_last()[j] == rest[i];
                    assert(rv[j] == rest[i]);
                } else {
                    assert(without_addr(rv, a)[i] == rv.last());
                    assert(rv.contains(rv.last()));
                }
            }
        }
        if !has_addr(rv, a) {
            assert(rv.last().addr != a);
            assert(!has_addr(rv.drop_last(), a)) by {
                if has_addr(rv.drop_last(), a) {
                    let j = choose|j: int|
                        0 <= j < rv.drop_last().len() && rv.drop_last()[j].addr == a;
                    assert(rv[j].addr == a);
                }
            }
            assert(without_addr(rv, a) =~= rv);
        }
    }
}

impl SubscriberRegistry {
    /// An empty registry.
    pub fn new() -> (r: SubscriberRegistry)
        ensures
            r@.len() == 0,
            reg_wf(r@),
    {
        SubscriberRegistry { subs: Vec::new() }
    }

    /// How many subscribers are registered.
    pub fn count(&self) -> (r: usize)
        ensures
            r == self@.len(),
    {
        self.subs.len()
    }

    /// Whether this address is registered.
    pub fn is_registered(&self, a: &Addr) -> (r: bool)
        ensures
            r == has_addr(self@, *a),
    {
        let mut i: usize = 0;
        let n = self.subs.len();
        while i < n
            invariant
                0 <= i <= n,
                n == self@.len(),
                forall|j: int| 0 <= j < i ==> self@[j].addr != *a,
            decreases n - i,
        {
            if self.subs[i].addr == *a {
                proof {
                    assert(self@[i as int].addr == *a);
                }
                return true;
            }
            i = i + 1;
        }
        false
    }

    /// The registered addresses, in registration order.
    pub fn list_live(&self) -> (r: Vec<Addr>)
        ensures
            r@.len() == self@.len(),
            forall|i: int| 0 <= i < r@.len() ==> r@[i] == self@[i].addr,
    {
        let mut out: Vec<Addr> = Vec::new();
        let mut i: usize = 0;
        let n = self.subs.len();
        while i < n
            invariant
                0 <= i <= n,
                n == self@.len(),
                out@.len() == i,
                forall|j: int| 0 <= j < i ==> out@[j] == self@[j].addr,
            decreases n - i,
        {
            out.push(self.subs[i].addr);
            i = i + 1;
        }
        out
    }

    /// Registers a subscriber, replacing any entry of the same address.
    /// The new entry carries the given filter, a fresh empty channel and
    /// `now` as its first liveness stamp.  The replaced channel — open
    /// until this call, closed by it and never touched again — is handed
    /// back; `None` when the address is new.
    pub fn register(&mut self, a: Addr, tickers: Vec<String>, now: u64) -> (r: Option<Channel>)
        requires
            reg_wf(old(self)@),
        ensures
            reg_wf(final(self)@),
            final(self)@ == without_addr(old(self)@, a).push(
                fresh_entry(a, texts_view(tickers@), now),
            ),
            has_addr(old(self)@, a) ==> {
                &&& r is Some
                &&& !r.unwrap()@.is_open
                &&& exists|i: int|
                    0 <= i < old(self)@.len() && old(self)@[i].addr == a && r.unwrap()@.msgs == (
                    #[trigger] old(self)@[i]).chan.msgs && old(self)@[i].chan.is_open
            },
            !has_addr(old(self)@, a) ==> r is None && final(self)@ == old(self)@.push(
                fresh_entry(a, texts_view(tickers@), now),
            ),
    {
        let ghost rv0 = self@;
        let mut kept: Vec<Subscriber> = Vec::new();
        let mut removed: Option<Channel> = None;
        let ghost mut i: int = 0;
        let ghost n = rv0.len();
        while self.subs.len() > 0
            invariant
                0 <= i,
                i + self.subs@.len() == n,
                n == rv0.len(),
                self@ == rv0.skip(i),
                subs_view(kept@) == without_addr(rv0.subrange(0, i), a),
                reg_wf(rv0),
                match removed {
                    Some(c) => {
                        &&& !c@.is_open
                        &&& exists|j: int|
                            0 <= j < i && rv0[j].addr == a && c@.msgs == (
                            #[trigger] rv0[j]).chan.msgs
                    },
                    None => forall|j: int| 0 <= j < i ==> rv0[j].addr != a,
                },
            decreases self.subs@.len(),
        {
            let ghost pre = rv0.subrange(0, i);
            let ghost post = rv0.subrange(0, i + 1);
            let ghost subs0 = self.subs@;
            proof {
                assert(post.drop_last() =~= pre);
                assert(post.last() == rv0[i]);
                assert(subs_view(subs0)[0] == rv0[i]);
            }
            let entry = self.subs.remove(0);
            proof {
                assert(entry@ == subs0[0]@);
                assert(entry@ == rv0[i]);
                assert(subs_view(subs0.remove(0)) =~= subs_view(subs0).skip(1));
                assert(subs_view(subs0).skip(1) =~= rv0.skip(i + 1));
            }
            if entry.addr == a {
                proof {
                    assert(entry@.addr == a);
                    assert(rv0[i].chan.is_open);
                    assert(subs_view(kept@) == without_addr(post, a));
                }
                let Subscriber { addr: _, tickers: _, chan: mut c, last_seen: _ } = entry;
                c.accepting = false;
                removed = Some(c);
            } else {
                proof {
                    assert(entry@.addr != a);
                }
                kept.push(entry);
                proof {
                    assert(subs_view(kept@) =~= without_addr(pre, a).push(rv0[i]));
                    assert(subs_view(kept@) =~= without_addr(post, a));
                }
            }
            proof {
                i = i + 1;
            }
        }
        let chan = Channel::new();
        proof {
            assert(chan@.msgs =~= Seq::<Seq<QuoteView>>::empty());
        }
        let fresh = Subscriber { addr: a, tickers, chan, last_seen: now };
        proof {
            assert(fresh@ == fresh_entry(a, texts_view(fresh.tickers@), now));
        }
        kept.push(fresh);
        self.subs = kept;
        proof {
            assert(rv0.subrange(0, n as int) =~= rv0);
            assert(self@ =~= without_addr(rv0, a).push(
                fresh_entry(a, texts_view(tickers@), now),
            ));
            lemma_without_addr(rv0, a);
            lemma_without_addr_wf(rv0, a, texts_view(tickers@), now);
            if !has_addr(rv0, a) {
                assert(self@ =~= rv0.push(fresh_entry(a, texts_view(tickers@), now)));
            }
        }
        removed
    }

    /// Removes one subscriber outright, whatever its liveness, handing
    /// its channel back closed; `None` when the address is unknown.
    pub fn evict(&mut self, a: &Addr) -> (r: Option<Channel>)
        requires
            reg_wf(old(self)@),
        ensures
            reg_wf(final(self)@),
            final(self)@ == without_addr(old(self)@, *a),
            has_addr(old(self)@, *a) ==> {
                &&& r is Some
                &&& !r.unwrap()@.is_open
                &&& exists|i: int|
                    0 <= i < old(self)@.len() && old(self)@[i].addr == *a && r.unwrap()@.msgs == (
                    #[trigger] old(self)@[i]).chan.msgs && old(self)@[i].chan.is_open
            },
            !has_addr(old(self)@, *a) ==> r is None && final(self)@ == old(self)@,
    {
        let ghost rv0 = self@;
        let mut kept: Vec<Subscriber> = Vec::new();
        let mut removed: Option<Channel> = None;
        let ghost mut i: int = 0;
        let ghost n = rv0.len();
        while self.subs.len() > 0
            invariant
                0 <= i,
                i + self.subs@.len() == n,
                n == rv0.len(),
                self@ == rv0.skip(i),
                subs_view(kept@) == without_addr(rv0.subrange(0, i), *a),
                reg_wf(rv0),
                match removed {
                    Some(c) => {
                        &&& !c@.is_open
                        &&& exists|j: int|
                            0 <= j < i && rv0[j].addr == *a && c@.msgs == (
                            #[trigger] rv0[j]).chan.msgs
                    },
                    None => forall|j: int| 0 <= j < i ==> rv0[j].addr != *a,
                },
            decreases self.subs@.len(),
        {
            let ghost pre = rv0.subrange(0, i);
            let ghost post = rv0.subrange(0, i + 1);
            let ghost subs0 = self.subs@;
            proof {
                assert(post.drop_last() =~= pre);
                assert(post.last() == rv0[i]);
                assert(subs_view(subs0)[0] == rv0[i]);
            }
            let entry = self.subs.remove(0);
            proof {
                assert(entry@ == rv0[i]);
                assert(subs_view(subs0.remove(0)) =~= subs_view(subs0).skip(1));
                assert(subs_view(subs0).skip(1) =~= rv0.skip(i + 1));
            }
            if entry.addr == *a {
                proof {
                    assert(rv0[i].chan.is_open);
                    assert(subs_view(kept@) == without_addr(post, *a));
                }
                let Subscriber { addr: _, tickers: _, chan: mut c, last_seen: _ } = entry;
                c.accepting = false;
                removed = Some(c);
            } else {
                kept.push(entry);
                proof {
                    assert(subs_view(kept@) =~= without_addr(pre, *a).push(rv0[i]));
                    assert(subs_view(kept@) =~= without_addr(post, *a));
                }
            }
            proof {
                i = i + 1;
            }
        }
        self.subs = kept;
        proof {
            assert(rv0.subrange(0, n as int) =~= rv0);
            lemma_without_addr(rv0, *a);
            lemma_without_addr_keeps_wf(rv0, *a);
        }
        removed
    }

    /// Stamps a liveness ping from `a` at `now`.  A ping from an address
    /// that is not registered changes nothing and is not an error.
    pub fn touch(&mut self, a: &Addr, now: u64)
        ensures
            final(self)@ == touch_view(old(self)@, *a, now),
    {
        let ghost rv0 = self@;
        let mut kept: Vec<Subscriber> = Vec::new();
        let ghost mut i: int = 0;
        let ghost n = rv0.len();
        while self.subs.len() > 0
            invariant
                0 <= i,
                i + self.subs@.len() == n,
                n == rv0.len(),
                self@ == rv0.skip(i),
                subs_view(kept@).len() == i,
                forall|j: int|
                    0 <= j < i ==> subs_view(kept@)[j] == (if rv0[j].addr == *a {
                        touched(rv0[j], now)
                    } else {
                        rv0[j]
                    }),
            decreases self.subs@.len(),
        {
            let ghost subs0 = self.subs@;
            proof {
                assert(subs_view(subs0)[0] == rv0[i]);
            }
            let mut entry = self.subs.remove(0);
            proof {
                assert(entry@ == rv0[i]);
                assert(subs_view(subs0.remove(0)) =~= subs_view(subs0).skip(1));
                assert(subs_view(subs0).skip(1) =~= rv0.skip(i + 1));
            }
            if entry.addr == *a {
                if now > entry.last_seen {
                    entry.last_seen = now;
                }
                proof {
                    assert(entry@ == touched(rv0[i], now));
                }
            }
            let ghost kept0 = kept@;
            let ghost ev = entry@;
            kept.push(entry);
            proof {
                assert(subs_view(kept@) =~= subs_view(kept0).push(ev));
                i = i + 1;
            }
        }
        self.subs = kept;
        proof {
            assert(self@ =~= touch_view(rv0, *a, now));
        }
    }

    /// Removes every entry whose silence has outlived `timeout`, handing
    /// each back as its address and its channel, closed with its queued
    /// snapshots intact.  Entries still within the window stay untouched,
    /// in order.  Passage of time alone removes a subscriber nowhere else.
    pub fn evict_expired(&mut self, now: u64, timeout: u64) -> (r: Vec<(Addr, Channel)>)
        requires
            reg_wf(old(self)@),
        ensures
            final(self)@ == live_view(old(self)@, now, timeout),
            reg_wf(final(self)@),
            pairs_view(r@) == evicted_view(old(self)@, now, timeout),
    {
        let ghost rv0 = self@;
        let mut kept: Vec<Subscriber> = Vec::new();
        let mut removed: Vec<(Addr, Channel)> = Vec::new();
        let ghost mut i: int = 0;
        let ghost n = rv0.len();
        while self.subs.len() > 0
            invariant
                0 <= i,
                i + self.subs@.len() == n,
                n == rv0.len(),
                self@ == rv0.skip(i),
                subs_view(kept@) == live_view(rv0.subrange(0, i), now, timeout),
                pairs_view(removed@) == evicted_view(rv0.subrange(0, i), now, timeout),
            decreases self.subs@.len(),
        {
            let ghost pre = rv0.subrange(0, i);
            let ghost post = rv0.subrange(0, i + 1);
            let ghost subs0 = self.subs@;
            proof {
                assert(post.drop_last() =~= pre);
                assert(post.last() == rv0[i]);
                assert(subs_view(subs0)[0] == rv0[i]);
            }
            let entry = self.subs.remove(0);
            proof {
                assert(entry@ == rv0[i]);
                assert(subs_view(subs0.remove(0)) =~= subs_view(subs0).skip(1));
                assert(subs_view(subs0).skip(1) =~= rv0.skip(i + 1));
            }
            let age = if now >= entry.last_seen {
                now - entry.last_seen
            } else {
                0
            };
            if age > timeout {
                proof {
                    assert(expired(rv0[i], now, timeout));
                }
                let Subscriber { addr, tickers: _, chan: mut c, last_seen: _ } = entry;
                c.accepting = false;
                removed.push((addr, c));
                proof {
                    assert(pairs_view(removed@) =~= evicted_view(post, now, timeout));
                }
            } else {
                proof {
                    assert(!expired(rv0[i], now, timeout));
                }
                kept.push(entry);
                proof {
                    assert(subs_view(kept@) =~= live_view(post, now, timeout));
                }
            }
            proof {
                i = i + 1;
            }
        }
        self.subs = kept;
        proof {
            assert(rv0.subrange(0, n as int) =~= rv0);
            lemma_live_wf(rv0, now, timeout);
        }
        removed
    }

    /// Offers one snapshot to every registered subscriber: a channel with
    /// room receives it at the back of its queue; a full channel is
    /// skipped for this cycle — delivery congestion never evicts anyone.
    pub fn fan_out(&mut self, snapshot: &Vec<StockQuote>)
        ensures
            final(self)@ == fan_out_view(old(self)@, quotes_view(snapshot@)),
    {
        let ghost rv0 = self@;
        let ghost snap = quotes_view(snapshot@);
        let mut kept: Vec<Subscriber> = Vec::new();
        let ghost mut i: int = 0;
        let ghost n = rv0.len();
        while self.subs.len() > 0
            invariant
                0 <= i,
                i + self.subs@.len() == n,
                n == rv0.len(),
                self@ == rv0.skip(i),
                snap == quotes_view(snapshot@),
                subs_view(kept@).len() == i,
                forall|j: int| 0 <= j < i ==> subs_view(kept@)[j] == snap_pushed(rv0[j], snap),
            decreases self.subs@.len(),
        {
            let ghost subs0 = self.subs@;
            proof {
                assert(subs_view(subs0)[0] == rv0[i]);
            }
            let mut entry = self.subs.remove(0);
            proof {
                assert(entry@ == rv0[i]);
                assert(subs_view(subs0.remove(0)) =~= subs_view(subs0).skip(1));
                assert(subs_view(subs0).skip(1) =~= rv0.skip(i + 1));
            }
            if entry.chan.accepting && entry.chan.msgs.len() < CHANNEL_CAPACITY {
                let copy = duplicate_quotes(snapshot);
                entry.chan.msgs.push(copy);
                proof {
                    assert(entry@.chan.msgs =~= rv0[i].chan.msgs.push(snap));
                    assert(entry@ == snap_pushed(rv0[i], snap));
                }
            } else {
                proof {
                    assert(entry@ == snap_pushed(rv0[i], snap));
                }
            }
            let ghost kept0 = kept@;
            let ghost ev = entry@;
            kept.push(entry);
            proof {
                assert(subs_view(kept@) =~= subs_view(kept0).push(ev));
                i = i + 1;
            }
        }
        self.subs = kept;
        proof {
            assert(self@ =~= fan_out_view(rv0, snap));
        }
    }

    /// Takes the oldest snapshot queued for `a`, if any: the step a
    /// delivery worker makes when it wakes.
    pub fn recv_from(&mut self, a: &Addr) -> (r: Option<Vec<StockQuote>>)
        requires
            reg_wf(old(self)@),
        ensures
            reg_wf(final(self)@),
            !has_addr(old(self)@, *a) ==> r is None && final(self)@ == old(self)@,
            has_addr(old(self)@, *a) ==> exists|i: int|
                {
                    &&& 0 <= i < old(self)@.len()
                    &&& (#[trigger] old(self)@[i]).addr == *a
                    &&& if old(self)@[i].chan.msgs.len() > 0 {
                        &&& r is Some
                        &&& quotes_view(r.unwrap()@) == old(self)@[i].chan.msgs[0]
                        &&& final(self)@ == old(self)@.update(i, after_recv(old(self)@[i]))
                    } else {
                        r is None && final(self)@ == old(self)@
                    }
                },
    {
        let ghost rv0 = self@;
        let mut kept: Vec<Subscriber> = Vec::new();
        let mut out: Option<Vec<StockQuote>> = None;
        let ghost mut i: int = 0;
        let ghost mut found: Option<int> = None;
        let ghost n = rv0.len();
        while self.subs.len() > 0
            invariant
                0 <= i,
                i + self.subs@.len() == n,
                n == rv0.len(),
                self@ == rv0.skip(i),
                reg_wf(rv0),
                subs_view(kept@).len() == i,
                match found {
                    None => {
                        &&& out is None
                        &&& forall|j: int| 0 <= j < i ==> rv0[j].addr != *a
                        &&& forall|j: int| 0 <= j < i ==> subs_view(kept@)[j] == rv0[j]
                    },
                    Some(k) => {
                        &&& 0 <= k < i
                        &&& rv0[k].addr == *a
                        &&& forall|j: int| 0 <= j < i && j != k ==> subs_view(kept@)[j] == rv0[j]
                        &&& if rv0[k].chan.msgs.len() > 0 {
                            &&& out is Some
                            &&& quotes_view(out.unwrap()@) == rv0[k].chan.msgs[0]
                            &&& subs_view(kept@)[k] == after_recv(rv0[k])
                        } else {
                            out is None && subs_view(kept@)[k] == rv0[k]
                        }
                    },
                },
            decreases self.subs@.len(),
        {
            let ghost subs0 = self.subs@;
            proof {
                assert(subs_view(subs0)[0] == rv0[i]);
            }
            let mut entry = self.subs.remove(0);
            proof {
                assert(entry@ == rv0[i]);
                assert(subs_view(subs0.remove(0)) =~= subs_view(subs0).skip(1));
                assert(subs_view(subs0).skip(1) =~= rv0.skip(i + 1));
            }
            if out.is_none() && entry.addr == *a {
                let got = entry.chan.recv();
                proof {
                    if rv0[i].chan.msgs.len() > 0 {
                        assert(entry@ == after_recv(rv0[i]));
                    } else {
                        assert(entry@ == rv0[i]);
                    }
                    found = Some(i);
                }
                out = got;
            }
            let ghost kept0 = kept@;
            let ghost ev = entry@;
            kept.push(entry);
            proof {
                assert(subs_view(kept@) =~= subs_view(kept0).push(ev));
                i = i + 1;
            }
        }
        self.subs = kept;
        proof {
            match found {
                None => {
                    assert(self@ =~= rv0);
                    if has_addr(rv0, *a) {
                        let j = choose|j: int| 0 <= j < rv0.len() && rv0[j].addr == *a;
                        assert(false);
                    }
                },
                Some(k) => {
                    assert(has_addr(rv0, *a));
                    if rv0[k].chan.msgs.len() > 0 {
                        assert(self@ =~= rv0.update(k, after_recv(rv0[k])));
                        assert(reg_wf(self@));
                    } else {
                        assert(self@ =~= rv0);
                    }
                },
            }
        }
        out
    }
}

impl SubscriberRegistry {
    /// The delivery step for one subscriber: takes its oldest queued
    /// snapshot and filters it to its requested tickers.  What comes out
    /// is, content for content, that snapshot restricted to the filter —
    /// ticker filtering happens here, at delivery time, never in the
    /// generator.
    pub fn next_delivery(&mut self, a: &Addr) -> (r: Option<Vec<StockQuote>>)
        requires
            reg_wf(old(self)@),
        ensures
            reg_wf(final(self)@),
            !has_addr(old(self)@, *a) ==> r is None && final(self)@ == old(self)@,
            has_addr(old(self)@, *a) ==> exists|i: int|
                {
                    &&& 0 <= i < old(self)@.len()
                    &&& (#[trigger] old(self)@[i]).addr == *a
                    &&& if old(self)@[i].chan.msgs.len() > 0 {
                        &&& r is Some
                        &&& quotes_view(r.unwrap()@) == crate::stock::filter_view(
                            old(self)@[i].chan.msgs[0],
                            old(self)@[i].tickers,
                        )
                        &&& final(self)@ == old(self)@.update(i, after_recv(old(self)@[i]))
                    } else {
                        r is None && final(self)@ == old(self)@
                    }
                },
    {
        let filter = match self.tickers_of(a) {
            Some(t) => t,
            None => {
                return None;
            },
        };
        match self.recv_from(a) {
            Some(snapshot) => Some(crate::stock::filter_quotes(&snapshot, &filter)),
            None => None,
        }
    }

    /// The ticker filter registered for `a`, if any.
    pub fn tickers_of(&self, a: &Addr) -> (r: Option<Vec<String>>)
        requires
            reg_wf(self@),
        ensures
            match r {
                Some(t) => exists|i: int|
                    0 <= i < self@.len() && (#[trigger] self@[i]).addr == *a && texts_view(t@)
                        == self@[i].tickers,
                None => !has_addr(self@, *a),
            },
    {
        let n = self.subs.len();
        let mut i: usize = 0;
        while i < n
            invariant
                0 <= i <= n,
                n == self@.len(),
                reg_wf(self@),
                forall|j: int| 0 <= j < i ==> self@[j].addr != *a,
            decreases n - i,
        {
            if self.subs[i].addr == *a {
                let t = crate::stock::duplicate_texts(&self.subs[i].tickers);
                proof {
                    assert(self@[i as int].addr == *a);
                    assert(texts_view(t@) == self@[i as int].tickers);
                }
                return Some(t);
            }
            i = i + 1;
        }
        proof {
            if has_addr(self@, *a) {
                let j = choose|j: int| 0 <= j < self@.len() && self@[j].addr == *a;
                assert(false);
            }
        }
        None
    }
}

/// The entries an eviction keeps come from the registry, unexpired and in
/// place; with unique addresses they stay unique and open, so a
/// well-formed registry stays well formed.
pub proof fn lemma_live_entries(rv: Seq<SubscriberView>, now: u64, timeout: u64)
    ensures
        forall|i: int|
            0 <= i < live_view(rv, now, timeout).len() ==> rv.contains(
                #[trigger] live_view(rv, now, timeout)[i],
            ) && !expired(live_view(rv, now, timeout)[i], now, timeout),
        live_view(rv, now, timeout).len() <= rv.len(),
    decreases rv.len(),
{
    if rv.len() > 0 {
        lemma_live_entries(rv.drop_last(), now, timeout);
        let rest = live_view(rv.drop_last(), now, timeout);
        assert forall|i: int| 0 <= i < live_view(rv, now, timeout).len() implies rv.contains(
            #[trigger] live_view(rv, now, timeout)[i],
        ) && !expired(live_view(rv, now, timeout)[i], now, timeout) by {
            if i < rest.len() {
                assert(rv.drop_last().contains(rest[i]));
                let j = choose|j: int| 0 <= j < rv.drop_last().len() && rv.drop_last()[j] == rest[i];
                assert(rv[j] == rest[i]);
            } else {
                assert(live_view(rv, now, timeout)[i] == rv.last());
                assert(rv.contains(rv.last()));
            }
        }
    }
}

/// Two surviving entries keep distinct addresses.
proof fn lemma_live_unique(rv: Seq<SubscriberView>, now: u64, timeout: u64, i: int, j: int)
    requires
        forall|p: int, q: int|
            0 <= p < rv.len() && 0 <= q < rv.len() && p != q ==> rv[p].addr != rv[q].addr,
        0 <= i < live_view(rv, now, timeout).len(),
        0 <= j < live_view(rv, now, timeout).len(),
        i != j,
    ensures
        live_view(rv, now, timeout)[i].addr != live_view(rv, now, timeout)[j].addr,
    decreases rv.len(),
{
    if rv.len() > 0 {
        let rest = live_view(rv.drop_last(), now, timeout);
        if expired(rv.last(), now, timeout) {
            lemma_live_unique(rv.drop_last(), now, timeout, i, j);
        } else {
            if i < rest.len() && j < rest.len() {
                lemma_live_unique(rv.drop_last(), now, timeout, i, j);
            } else {
                lemma_live_entries(rv.drop_last(), now, timeout);
                if i < rest.len() {
                    assert(rv.drop_last().contains(rest[i]));
                    let k = choose|k: int|
                        0 <= k < rv.drop_last().len() && rv.drop_last()[k] == rest[i];
                    assert(rv[k] == rest[i]);
                    assert(rv[k].addr != rv.last().addr);
                } else {
                    assert(rv.drop_last().contains(rest[j]));
                    let k = choose|k: int|
                        0 <= k < rv.drop_last().len() && rv.drop_last()[k] == rest[j];
                    assert(rv[k] == rest[j]);
                    assert(rv[k].addr != rv.last().addr);
                }
            }
        }
    }
}

/// An eviction scan leaves a well-formed registry well formed.
pub proof fn lemma_live_wf(rv: Seq<SubscriberView>, now: u64, timeout: u64)
    requires
        reg_wf(rv),
    ensures
        reg_wf(live_view(rv, now, timeout)),
{
    lemma_live_entries(rv, now, timeout);
    let live = live_view(rv, now, timeout);
    assert forall|i: int, j: int|
        0 <= i < live.len() && 0 <= j < live.len() && i != j implies live[i].addr
        != live[j].addr by {
        lemma_live_unique(rv, now, timeout, i, j);
    }
    assert forall|i: int| 0 <= i < live.len() implies (#[trigger] live[i]).chan.is_open by {
        assert(rv.contains(live[i]));
        let k = choose|k: int| 0 <= k < rv.len() && rv[k] == live[i];
        assert(rv[k].chan.is_open);
    }
}

/// A subscriber whose silence has outlived the timeout is gone after one
/// eviction scan: no entry of its address survives, and its channel comes
/// back closed, queued snapshots intact — removed and closed exactly once,
/// by this scan.
pub proof fn lemma_eviction_removes_silent(
    rv: Seq<SubscriberView>,
    now: u64,
    timeout: u64,
    k: int,
)
    requires
        reg_wf(rv),
        0 <= k < rv.len(),
        expired(rv[k], now, timeout),
    ensures
        !has_addr(live_view(rv, now, timeout), rv[k].addr),
        evicted_view(rv, now, timeout).contains(closed_pair(rv[k])),
{
    lemma_live_entries(rv, now, timeout);
    let live = live_view(rv, now, timeout);
    if has_addr(live, rv[k].addr) {
        let i = choose|i: int| 0 <= i < live.len() && live[i].addr == rv[k].addr;
        assert(rv.contains(live[i]));
        let j = choose|j: int| 0 <= j < rv.len() && rv[j] == live[i];
        assert(j == k);
        assert(!expired(live[i], now, timeout));
    }
    lemma_evicted_contains(rv, now, timeout, k);
}

/// An expired entry appears among the pairs an eviction scan returns.
proof fn lemma_evicted_contains(rv: Seq<SubscriberView>, now: u64, timeout: u64, k: int)
    requires
        0 <= k < rv.len(),
        expired(rv[k], now, timeout),
    ensures
        evicted_view(rv, now, timeout).contains(closed_pair(rv[k])),
    decreases rv.len(),
{
    if k == rv.len() - 1 {
        let ev = evicted_view(rv, now, timeout);
        assert(ev.last() == closed_pair(rv[k]));
    } else {
        assert(rv.drop_last()[k] == rv[k]);
        lemma_evicted_contains(rv.drop_last(), now, timeout, k);
        let rest = evicted_view(rv.drop_last(), now, timeout);
        let i = choose|i: int| 0 <= i < rest.len() && rest[i] == closed_pair(rv[k]);
        assert(evicted_view(rv, now, timeout)[i] == closed_pair(rv[k]));
    }
}

/// An entry still within its liveness window survives an eviction scan
/// exactly as it was.
pub proof fn lemma_eviction_spares_live(rv: Seq<SubscriberView>, now: u64, timeout: u64, k: int)
    requires
        0 <= k < rv.len(),
        !expired(rv[k], now, timeout),
    ensures
        live_view(rv, now, timeout).contains(rv[k]),
    decreases rv.len(),
{
    if k == rv.len() - 1 {
        let live = live_view(rv, now, timeout);
        assert(live.last() == rv[k]);
    } else {
        assert(rv.drop_last()[k] == rv[k]);
        lemma_eviction_spares_live(rv.drop_last(), now, timeout, k);
        let rest = live_view(rv.drop_last(), now, timeout);
        let i = choose|i: int| 0 <= i < rest.len() && rest[i] == rv[k];
        if expired(rv.last(), now, timeout) {
            assert(live_view(rv, now, timeout)[i] == rv[k]);
        } else {
            assert(live_view(rv, now, timeout)[i] == rv[k]);
        }
    }
}

/// One liveness cycle, seen from one subscriber's side: its ping at
/// `ping_at` is stamped, then the eviction scan runs at `scan_at`.
pub open spec fn cycle_view(
    rv: Seq<SubscriberView>,
    a: Addr,
    ping_at: u64,
    scan_at: u64,
    timeout: u64,
) -> Seq<SubscriberView> {
    live_view(touch_view(rv, a, ping_at), scan_at, timeout)
}

/// Any number of liveness cycles in sequence; each event is a ping
/// instant followed by a scan instant.
pub open spec fn run_cycles(
    rv: Seq<SubscriberView>,
    a: Addr,
    events: Seq<(u64, u64)>,
    timeout: u64,
) -> Seq<SubscriberView>
    decreases events.len(),
{
    if events.len() == 0 {
        rv
    } else {
        run_cycles(cycle_view(rv, a, events[0].0, events[0].1, timeout), a, events.skip(1), timeout)
    }
}

/// A ping keeps every address in place and no channel changes.
proof fn lemma_touch_wf(rv: Seq<SubscriberView>, a: Addr, now: u64)
    requires
        reg_wf(rv),
    ensures
        reg_wf(touch_view(rv, a, now)),
        touch_view(rv, a, now).len() == rv.len(),
        forall|i: int|
            0 <= i < rv.len() ==> (#[trigger] touch_view(rv, a, now)[i]).addr == rv[i].addr,
{
}

/// A subscriber that pings within the eviction timeout of every scan is
/// never evicted, for any number of cycles.
pub proof fn lemma_steady_ping_survives(
    rv: Seq<SubscriberView>,
    a: Addr,
    events: Seq<(u64, u64)>,
    timeout: u64,
)
    requires
        reg_wf(rv),
        has_addr(rv, a),
        forall|k: int| 0 <= k < events.len() ==> (#[trigger] events[k]).1 <= events[k].0 + timeout,
    ensures
        reg_wf(run_cycles(rv, a, events, timeout)),
        has_addr(run_cycles(rv, a, events, timeout), a),
    decreases events.len(),
{
    if events.len() > 0 {
        let ping_at = events[0].0;
        let scan_at = events[0].1;
        let tv = touch_view(rv, a, ping_at);
        lemma_touch_wf(rv, a, ping_at);
        let i = choose|i: int| 0 <= i < rv.len() && rv[i].addr == a;
        assert(tv[i] == touched(rv[i], ping_at));
        assert(tv[i].last_seen >= ping_at);
        assert(!expired(tv[i], scan_at, timeout));
        lemma_eviction_spares_live(tv, scan_at, timeout, i);
        let next = cycle_view(rv, a, ping_at, scan_at, timeout);
        let j = choose|j: int| 0 <= j < next.len() && next[j] == tv[i];
        assert(next[j].addr == a);
        assert(has_addr(next, a));
        lemma_live_wf(tv, scan_at, timeout);
        assert(forall|k: int|
            0 <= k < events.skip(1).len() ==> (#[trigger] events.skip(1)[k]).1 <= events.skip(
                1,
            )[k].0 + timeout);
        lemma_steady_ping_survives(next, a, events.skip(1), timeout);
    }
}

/// Within one generation cycle, every subscriber registered when the
/// broadcaster reads the table is offered that cycle's snapshot: a
/// channel with room receives exactly it at the back of its queue, a full
/// channel is skipped unchanged for this cycle only — and the fan-out
/// removes nobody and touches no filter or liveness stamp.
pub proof fn lemma_fan_out_delivers(rv: Seq<SubscriberView>, snap: Seq<QuoteView>, k: int)
    requires
        0 <= k < rv.len(),
    ensures
        fan_out_view(rv, snap).len() == rv.len(),
        fan_out_view(rv, snap)[k].addr == rv[k].addr,
        fan_out_view(rv, snap)[k].tickers == rv[k].tickers,
        fan_out_view(rv, snap)[k].last_seen == rv[k].last_seen,
        rv[k].chan.is_open && rv[k].chan.msgs.len() < CHANNEL_CAPACITY ==> {
            &&& fan_out_view(rv, snap)[k].chan.msgs == rv[k].chan.msgs.push(snap)
            &&& fan_out_view(rv, snap)[k].chan.msgs.last() == snap
        },
        !(rv[k].chan.is_open && rv[k].chan.msgs.len() < CHANNEL_CAPACITY) ==> fan_out_view(
            rv,
            snap,
        )[k].chan == rv[k].chan,
{
}

/// Stripping an address from a well-formed registry leaves it well
/// formed.
proof fn lemma_without_addr_keeps_wf(rv: Seq<SubscriberView>, a: Addr)
    requires
        reg_wf(rv),
    ensures
        reg_wf(without_addr(rv, a)),
{
    lemma_without_addr(rv, a);
    let out = without_addr(rv, a);
    assert forall|i: int, j: int|
        0 <= i < out.len() && 0 <= j < out.len() && i != j implies out[i].addr != out[j].addr by {
        lemma_without_addr_unique(rv, a, i, j);
    }
    assert forall|i: int| 0 <= i < out.len() implies (#[trigger] out[i]).chan.is_open by {
        assert(rv.contains(out[i]));
        let k = choose|k: int| 0 <= k < rv.len() && rv[k] == out[i];
        assert(rv[k].chan.is_open);
    }
}

/// Appending a fresh entry to a registry stripped of its address keeps
/// the registry well formed.
proof fn lemma_without_addr_wf(
    rv: Seq<SubscriberView>,
    a: Addr,
    tickers: Seq<Seq<char>>,
    now: u64,
)
    requires
        reg_wf(rv),
    ensures
        reg_wf(without_addr(rv, a).push(fresh_entry(a, tickers, now))),
{
    lemma_without_addr(rv, a);
    let out = without_addr(rv, a).push(fresh_entry(a, tickers, now));
    let base = without_addr(rv, a);
    assert forall|i: int, j: int|
        0 <= i < out.len() && 0 <= j < out.len() && i != j implies out[i].addr != out[j].addr by {
        if i < base.len() && j < base.len() {
            lemma_without_addr_unique(rv, a, i, j);
        }
    }
}

/// Entries surviving an address removal keep distinct addresses.
proof fn lemma_without_addr_unique(rv: Seq<SubscriberView>, a: Addr, i: int, j: int)
    requires
        reg_wf(rv),
        0 <= i < without_addr(rv, a).len(),
        0 <= j < without_addr(rv, a).len(),
        i != j,
    ensures
        without_addr(rv, a)[i].addr != without_addr(rv, a)[j].addr,
    decreases rv.len(),
{
    if rv.len() > 0 {
        let rest = without_addr(rv.drop_last(), a);
        assert(reg_wf(rv.drop_last()));
        if rv.last().addr == a {
            lemma_without_addr_unique(rv.drop_last(), a, i, j);
        } else {
            if i < rest.len() && j < rest.len() {
                lemma_without_addr_unique(rv.drop_last(), a, i, j);
            } else {
                // One of the two is the appended last entry; the other
                // survives from the front and differs from it.
                lemma_without_addr(rv.drop_last(), a);
                if i < rest.len() {
                    assert(rv.drop_last().contains(rest[i]));
                    let k = choose|k: int|
                        0 <= k < rv.drop_last().len() && rv.drop_last()[k] == rest[i];
                    assert(rv[k] == rest[i]);
                    assert(rv[k].addr != rv.last().addr);
                } else {
                    assert(rv.drop_last().contains(rest[j]));
                    let k = choose|k: int|
                        0 <= k < rv.drop_last().len() && rv.drop_last()[k] == rest[j];
                    assert(rv[k] == rest[j]);
                    assert(rv[k].addr != rv.last().addr);
                }
            }
        }
    }
}

/// An exact copy of a list of quotes.
pub fn duplicate_quotes(v: &Vec<StockQuote>) -> (r: Vec<StockQuote>)
    ensures
        quotes_view(r@) == quotes_view(v@),
        r@.len() == v@.len(),
{
    let mut out: Vec<StockQuote> = Vec::new();
    let mut i: usize = 0;
    let n = v.len();
    while i < n
        invariant
            0 <= i <= n,
            n == v@.len(),
            out@.len() == i,
            forall|j: int| 0 <= j < i ==> (#[trigger] out@[j])@ == v@[j]@,
        decreases n - i,
    {
        out.push(v[i].duplicate());
        i = i + 1;
    }
    proof {
        assert(quotes_view(out@) =~= quotes_view(v@));
    }
    out
}

} // verus!
