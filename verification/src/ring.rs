//! The in-memory ring of recent events kept beside an append-only event
//! file: events are numbered as they arrive, the newest `RING_CAP` stay in
//! memory, and older ones are read back from the file.
use vstd::prelude::*;

use crate::events::{tail, Ev};

verus! {

/// Number of events kept in memory.
pub const RING_CAP: usize = 2000;

/// Pushes between two checks of the event file's size.
pub const ROTATE_EVERY: usize = 64;

/// Recent events, oldest first, and numbering state.
pub struct EventRing {
    pub ring: Vec<Ev>,
    pub last_seq: u64,
    pub pushes_since_rotate: usize,
}

/// The ring after appending `e` and dropping the oldest events beyond
/// `RING_CAP`.
pub open spec fn ring_after_push(s: Seq<Ev>, e: Ev) -> Seq<Ev> {
    if s.len() + 1 > RING_CAP {
        s.push(e).subrange(s.len() + 1 - RING_CAP, s.len() + 1 as int)
    } else {
        s.push(e)
    }
}

impl EventRing {
    /// An empty ring numbering from `last_seq + 1`.
    pub fn new(last_seq: u64) -> (r: EventRing)
        ensures
            r.ring@.len() == 0,
            ring_ordered(r.ring@, r.last_seq),
            r.last_seq == last_seq,
            r.pushes_since_rotate == 0,
    {
        EventRing { ring: Vec::new(), last_seq, pushes_since_rotate: 0 }
    }
}

/// The ring's events are in increasing sequence order, none numbered
/// after the last number given out.
pub open spec fn ring_ordered(s: Seq<Ev>, last_seq: u64) -> bool {
    &&& forall|i: int, j: int| 0 <= i < j < s.len() ==> #[trigger] s[i].seq < #[trigger] s[j].seq
    &&& forall|i: int| 0 <= i < s.len() ==> #[trigger] s[i].seq <= last_seq
}

/// Appending the next-numbered event keeps the ring ordered.
proof fn lemma_ring_push_ordered(s: Seq<Ev>, last_seq: u64, e: Ev)
    requires
        ring_ordered(s, last_seq),
        e.seq == last_seq + 1,
    ensures
        ring_ordered(ring_after_push(s, e), e.seq),
{
    let t = s.push(e);
    assert(ring_ordered(t, e.seq)) by {
        assert forall|i: int, j: int| 0 <= i < j < t.len() implies #[trigger] t[i].seq
            < #[trigger] t[j].seq by {
            if j < s.len() {
                assert(t[i] == s[i] && t[j] == s[j]);
            } else {
                assert(t[i] == s[i]);
            }
        }
        assert forall|i: int| 0 <= i < t.len() implies #[trigger] t[i].seq <= e.seq by {
            if i < s.len() {
                assert(t[i] == s[i]);
            }
        }
    }
    if s.len() + 1 > RING_CAP {
        let k = s.len() + 1 - RING_CAP;
        let u = t.subrange(k, t.len() as int);
        assert forall|i: int, j: int| 0 <= i < j < u.len() implies #[trigger] u[i].seq
            < #[trigger] u[j].seq by {
            assert(u[i] == t[i + k] && u[j] == t[j + k]);
        }
        assert forall|i: int| 0 <= i < u.len() implies #[trigger] u[i].seq <= e.seq by {
            assert(u[i] == t[i + k]);
        }
    }
}

/// Numbers `ev` after the last one, keeps it in the ring and returns it
/// with whether the event file is due for a size check.
pub fn push(r: &mut EventRing, ev: Ev) -> (out: (Ev, bool))
    requires
        old(r).last_seq < u64::MAX,
        old(r).pushes_since_rotate < ROTATE_EVERY,
    ensures
        final(r).last_seq == old(r).last_seq + 1,
        out.0 == (Ev { seq: final(r).last_seq, ..ev }),
        final(r).ring@ == ring_after_push(old(r).ring@, out.0),
        out.1 == (old(r).pushes_since_rotate + 1 >= ROTATE_EVERY),
        final(r).pushes_since_rotate == if out.1 {
            0
        } else {
            old(r).pushes_since_rotate + 1
        },
        ring_ordered(old(r).ring@, old(r).last_seq) ==> ring_ordered(
            final(r).ring@,
            final(r).last_seq,
        ),
{
    let ghost s = r.ring@;
    let ghost last0 = r.last_seq;
    r.last_seq = r.last_seq + 1;
    let e = Ev { seq: r.last_seq, ..ev };
    proof {
        if ring_ordered(s, last0) {
            lemma_ring_push_ordered(s, last0, e);
        }
    }
    let kept = e.duplicate();
    r.ring.push(kept);
    if r.ring.len() > RING_CAP {
        let extra = r.ring.len() - RING_CAP;
        let mut rest: Vec<Ev> = Vec::new();
        let mut i = extra;
        while i < r.ring.len()
            invariant
                extra <= i <= r.ring@.len(),
                r.ring@ == s.push(e),
                extra == r.ring@.len() - RING_CAP,
                rest@ == r.ring@.subrange(extra as int, i as int),
            decreases r.ring@.len() - i,
        {
            rest.push(r.ring[i].duplicate());
            i += 1;
            assert(rest@ =~= r.ring@.subrange(extra as int, i as int));
        }
        r.ring = rest;
    }
    r.pushes_since_rotate = r.pushes_since_rotate + 1;
    let rotate = r.pushes_since_rotate >= ROTATE_EVERY;
    if rotate {
        r.pushes_since_rotate = 0;
    }
    (e, rotate)
}

/// Events with a sequence number above `after`.
pub open spec fn newer_than(s: Seq<Ev>, after: u64) -> Seq<Ev> {
    s.filter(|e: Ev| e.seq > after)
}

/// Whether the ring alone answers a query for events after `after`: its
/// oldest event is at most one past `after`.
pub open spec fn ring_covers(s: Seq<Ev>, after: u64) -> bool {
    s.len() > 0 && s[0].seq <= after + 1
}

/// The last `limit` events numbered above `after`, when the ring holds
/// them all; `None` when older events must be read from the file.
pub fn query(r: &EventRing, after: u64, limit: usize) -> (out: Option<Vec<Ev>>)
    ensures
        match out {
            Some(v) => ring_covers(r.ring@, after) && v@ == tail(
                newer_than(r.ring@, after),
                limit as nat,
            ),
            None => !ring_covers(r.ring@, after),
        },
{
    if r.ring.len() == 0 || (r.ring[0].seq > after && r.ring[0].seq - after > 1) {
        return None;
    }
    Some(newer_tail(&r.ring, after, limit))
}

/// After a push onto an ordered ring, the ring alone answers a query for
/// the events after the previous last number, and a query for one such
/// event gives back exactly the pushed event.
pub proof fn lemma_ring_read_back(s: Seq<Ev>, last_seq: u64, e: Ev)
    requires
        ring_ordered(s, last_seq),
        e.seq == last_seq + 1,
    ensures
        ring_covers(ring_after_push(s, e), last_seq),
        newer_than(ring_after_push(s, e), last_seq) == seq![e],
        tail(newer_than(ring_after_push(s, e), last_seq), 1) == seq![e],
{
    lemma_ring_push_ordered(s, last_seq, e);
    let t = ring_after_push(s, e);
    let n = t.len() as int;
    assert(t[n - 1] == e);
    assert forall|i: int| 0 <= i < n - 1 implies #[trigger] t[i].seq <= last_seq by {
        assert(t[i].seq < t[n - 1].seq);
    }
    let pre = t.drop_last();
    assert(pre.all(|x: Ev| !(x.seq > last_seq))) by {
        assert forall|i: int| 0 <= i < pre.len() implies !(#[trigger] pre[i].seq > last_seq) by {
            assert(pre[i] == t[i]);
        }
    }
    pre.lemma_all_neg_filter_empty(|x: Ev| x.seq > last_seq);
    reveal(Seq::filter);
    assert(t.filter(|x: Ev| x.seq > last_seq) =~= seq![e]);
    assert(t[0].seq <= last_seq + 1);
    assert(seq![e].subrange(0, 1) =~= seq![e]);
}

/// The last `limit` events of `v` numbered above `after`, in their order
/// in `v` (also used on events read back from the event file).
pub fn newer_tail(v: &Vec<Ev>, after: u64, limit: usize) -> (out: Vec<Ev>)
    ensures
        out@ == tail(newer_than(v@, after), limit as nat),
{
    let ghost s = v@;
    let mut found: Vec<Ev> = Vec::new();
    let mut i: usize = 0;
    while i < v.len()
        invariant
            i <= s.len(),
            s == v@,
            found@ == newer_than(s.take(i as int), after),
        decreases s.len() - i,
    {
        proof {
            assert(s.take(i + 1).drop_last() =~= s.take(i as int));
            reveal_with_fuel(Seq::filter, 1);
        }
        if v[i].seq > after {
            found.push(v[i].duplicate());
        }
        i += 1;
    }
    proof {
        assert(s.take(i as int) =~= s);
    }
    take_last(found, limit)
}

/// The last `limit` elements of `v` (all of them when fewer).
pub fn take_last(v: Vec<Ev>, limit: usize) -> (r: Vec<Ev>)
    ensures
        r@ == tail(v@, limit as nat),
{
    if v.len() <= limit {
        return v;
    }
    let start = v.len() - limit;
    let mut out: Vec<Ev> = Vec::new();
    let mut i = start;
    while i < v.len()
        invariant
            start <= i <= v@.len(),
            start == v@.len() - limit,
            out@ == v@.subrange(start as int, i as int),
        decreases v@.len() - i,
    {
        out.push(v[i].duplicate());
        i += 1;
        assert(out@ =~= v@.subrange(start as int, i as int));
    }
    out
}

/// `e` numbered `n`.
pub open spec fn numbered(e: Ev, n: u64) -> Ev {
    Ev { seq: n, ..e }
}

/// The ring and last number after pushing `evs` in order, as `push` does
/// it: each event numbered one past the last number, the oldest dropped
/// past `RING_CAP`.
pub open spec fn pushed_all(ring: Seq<Ev>, last: u64, evs: Seq<Ev>) -> (Seq<Ev>, u64)
    decreases evs.len(),
{
    if evs.len() == 0 {
        (ring, last)
    } else {
        let p = pushed_all(ring, last, evs.drop_last());
        (ring_after_push(p.0, numbered(evs.last(), (p.1 + 1) as u64)), (p.1 + 1) as u64)
    }
}

/// Pushing `evs` advances the numbering by their count. Onto an empty
/// ring, at most `RING_CAP` of them are all kept, in order, numbered from
/// one past the last number; a query after any number from the last one
/// on is then answered from the ring alone.
pub proof fn lemma_ring_history(ring: Seq<Ev>, last: u64, evs: Seq<Ev>)
    requires
        last + evs.len() <= u64::MAX,
    ensures
        pushed_all(ring, last, evs).1 == last + evs.len(),
        ring.len() == 0 && evs.len() <= RING_CAP ==> pushed_all(ring, last, evs).0 == Seq::new(
            evs.len(),
            |i: int| numbered(evs[i], (last + i + 1) as u64),
        ),
        ring.len() == 0 && 0 < evs.len() <= RING_CAP ==> forall|after: u64|
            after >= last ==> #[trigger] ring_covers(pushed_all(ring, last, evs).0, after),
    decreases evs.len(),
{
    if evs.len() > 0 {
        let prev = evs.drop_last();
        lemma_ring_history(ring, last, prev);
        if ring.len() == 0 && evs.len() <= RING_CAP {
            let p = pushed_all(ring, last, prev);
            let want = Seq::new(evs.len(), |i: int| numbered(evs[i], (last + i + 1) as u64));
            assert(p.0.len() + 1 <= RING_CAP);
            assert(pushed_all(ring, last, evs).0 =~= want) by {
                assert forall|i: int| 0 <= i < prev.len() implies #[trigger] p.0[i] == want[i] by {
                    assert(prev[i] == evs[i]);
                }
            }
            assert(want[0].seq == last + 1);
        }
    }
}

/// Sequence number of the newest event.
pub fn newest_seq(r: &EventRing) -> (n: u64)
    ensures
        n == r.last_seq,
{
    r.last_seq
}

/// Forgets the events held in memory; numbering continues.
pub fn clear(r: &mut EventRing)
    ensures
        final(r).ring@.len() == 0,
        ring_ordered(final(r).ring@, final(r).last_seq),
        final(r).last_seq == old(r).last_seq,
        final(r).pushes_since_rotate == old(r).pushes_since_rotate,
{
    r.ring = Vec::new();
}

} // verus!
