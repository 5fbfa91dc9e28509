//! The queue: a chain of segments whose first element is the head (where
//! consumers claim slots) and whose last element is the tail (where producers
//! reserve slots).
use vstd::prelude::*;

use crate::segment::{empty_cells, Segment, CAPACITY};

verus! {

/// The payloads among `cs`, in order, leaving out the empty slots.
pub open spec fn somes<T>(cs: Seq<Option<T>>) -> Seq<T>
    decreases cs.len(),
{
    if cs.len() == 0 {
        Seq::empty()
    } else {
        match cs.last() {
            Some(v) => somes(cs.drop_last()).push(v),
            None => somes(cs.drop_last()),
        }
    }
}

/// The payloads that a segment still holds for consumers, oldest first: those
/// in the slots from the consumers' counter up to the last slot producers
/// reserved. A slot in that range that is empty belongs to a producer that has
/// not published yet; consumers skip it.
pub open spec fn seg_items<T>(s: Segment<T>) -> Seq<T> {
    if s.deq() >= s.limit() {
        Seq::empty()
    } else {
        somes(s.cells().subrange(s.deq() as int, s.limit() as int))
    }
}

/// The payloads of a chain of segments, head first.
pub open spec fn items_of<T>(segs: Seq<Segment<T>>) -> Seq<T>
    decreases segs.len(),
{
    if segs.len() == 0 {
        Seq::empty()
    } else {
        items_of(segs.drop_last()) + seg_items(segs.last())
    }
}

/// A segment of the chain: consumers never ran ahead of producers, and every
/// slot past the producers' counter is still empty.
pub open spec fn seg_ok<T>(s: Segment<T>) -> bool {
    &&& s.wf()
    &&& s.deq() <= s.enq() <= CAPACITY + 1
    &&& forall|j: int| s.enq() <= j < CAPACITY ==> (#[trigger] s.cells()[j]) is None
}

/// The shape of the chain: never empty; every segment but the tail has seen
/// its overflow reservation; the tail has not; every segment after the head
/// was made with its first payload and has not been touched by consumers.
pub open spec fn chain_ok<T>(segs: Seq<Segment<T>>) -> bool {
    &&& segs.len() >= 1
    &&& forall|k: int| 0 <= k < segs.len() ==> seg_ok(#[trigger] segs[k])
    &&& forall|k: int| 0 <= k < segs.len() - 1 ==> (#[trigger] segs[k]).enq() == CAPACITY + 1
    &&& segs.last().enq() <= CAPACITY
    &&& forall|k: int| 1 <= k < segs.len() ==> (#[trigger] segs[k]).deq() == 0 && segs[k].enq() >= 1
}

/// The queue after `value` is enqueued.
pub open spec fn after_push<T>(q: Seq<T>, value: T) -> Seq<T> {
    q.push(value)
}

/// The queue after one dequeue, and what that dequeue returns.
pub open spec fn after_pop<T>(q: Seq<T>) -> (Seq<T>, Option<T>) {
    if q.len() == 0 {
        (q, None)
    } else {
        (q.drop_first(), Some(q[0]))
    }
}

/// Where `id` first occurs in `ids`, or -1.
pub open spec fn position_of(ids: Seq<usize>, id: usize) -> int
    decreases ids.len(),
{
    if ids.len() == 0 {
        -1
    } else if ids[0] == id {
        0
    } else {
        let p = position_of(ids.drop_first(), id);
        if p < 0 { -1 } else { p + 1 }
    }
}

/// A producer's claim on one slot: the segment (by its id) and the index.
#[derive(Clone, Copy, Debug)]
pub struct Ticket {
    pub segment: usize,
    pub index: usize,
}

/// An unbounded first-in-first-out queue of `T`.
///
/// `segments` runs from the head (index 0) to the tail (the last); `ids`
/// holds the id of each, and `next_id` the id the next linked segment gets.
/// `count` is the number of payloads and `retired` the number of segments
/// the head has advanced past.
pub struct Leitio<T> {
    segments: Vec<Segment<T>>,
    ids: Vec<usize>,
    next_id: usize,
    count: usize,
    retired: usize,
}

impl<T> View for Leitio<T> {
    type V = Seq<T>;

    /// The payloads in the queue, the next one to be dequeued first.
    closed spec fn view(&self) -> Seq<T> {
        items_of(self.segments@)
    }
}

proof fn lemma_somes_concat<T>(a: Seq<Option<T>>, b: Seq<Option<T>>)
    ensures
        somes(a + b) == somes(a) + somes(b),
    decreases b.len(),
{
    if b.len() == 0 {
        assert(a + b =~= a);
        assert(somes(a) + somes(b) =~= somes(a));
    } else {
        assert((a + b).drop_last() =~= a + b.drop_last());
        assert((a + b).last() == b.last());
        lemma_somes_concat(a, b.drop_last());
        match b.last() {
            Some(v) => {
                assert(somes(a + b) =~= somes(a) + somes(b));
            },
            None => {},
        }
    }
}

proof fn lemma_somes_single<T>(c: Option<T>)
    ensures
        somes(seq![c]) == (match c {
            Some(v) => seq![v],
            None => Seq::<T>::empty(),
        }),
{
    assert(seq![c].drop_last() =~= Seq::<Option<T>>::empty());
    assert(seq![c].last() == c);
    assert(somes(Seq::<Option<T>>::empty()) =~= Seq::<T>::empty());
    assert(Seq::<T>::empty().push(c->0) =~= seq![c->0]);
}

proof fn lemma_items_concat<T>(a: Seq<Segment<T>>, b: Seq<Segment<T>>)
    ensures
        items_of(a + b) == items_of(a) + items_of(b),
    decreases b.len(),
{
    if b.len() == 0 {
        assert(a + b =~= a);
        assert(items_of(a) + items_of(b) =~= items_of(a));
    } else {
        assert((a + b).drop_last() =~= a + b.drop_last());
        assert((a + b).last() == b.last());
        lemma_items_concat(a, b.drop_last());
        assert(items_of(a + b) =~= items_of(a) + items_of(b));
    }
}

proof fn lemma_items_single<T>(s: Segment<T>)
    ensures
        items_of(seq![s]) == seg_items(s),
{
    assert(seq![s].drop_last() =~= Seq::<Segment<T>>::empty());
    assert(seq![s].last() == s);
    assert(items_of(Seq::<Segment<T>>::empty()) =~= Seq::<T>::empty());
    assert(items_of(seq![s]) =~= seg_items(s));
}

proof fn lemma_items_front<T>(segs: Seq<Segment<T>>)
    requires
        segs.len() >= 1,
    ensures
        items_of(segs) == seg_items(segs[0]) + items_of(segs.drop_first()),
{
    assert(segs =~= seq![segs[0]] + segs.drop_first());
    lemma_items_concat(seq![segs[0]], segs.drop_first());
    lemma_items_single(segs[0]);
}

/// Advancing the head past an exhausted segment keeps the shape of the chain
/// and loses no payload.
proof fn lemma_drop_exhausted<T>(segs: Seq<Segment<T>>)
    requires
        chain_ok(segs),
        segs.len() >= 2,
        segs[0].deq() >= CAPACITY,
    ensures
        chain_ok(segs.drop_first()),
        items_of(segs) == items_of(segs.drop_first()),
{
    let rest = segs.drop_first();
    lemma_items_front(segs);
    assert(seg_ok(segs[0]));
    assert(seg_items(segs[0]) =~= Seq::<T>::empty());
    assert(items_of(segs) =~= items_of(rest));
    assert forall|k: int| 0 <= k < rest.len() implies seg_ok(#[trigger] rest[k]) by {
        assert(rest[k] == segs[k + 1]);
    }
    assert forall|k: int| 0 <= k < rest.len() - 1 implies (#[trigger] rest[k]).enq() == CAPACITY
        + 1 by {
        assert(rest[k] == segs[k + 1]);
    }
    assert forall|k: int| 1 <= k < rest.len() implies (#[trigger] rest[k]).deq() == 0
        && rest[k].enq() >= 1 by {
        assert(rest[k] == segs[k + 1]);
    }
}

/// Claiming the oldest reserved slot of the head: if it holds a payload, that
/// is the first payload of the queue and it leaves the queue; if it is empty,
/// the queue's payloads stay as they are.
proof fn lemma_claim_front<T>(c: Seq<Segment<T>>, n: Seq<Segment<T>>, r: Option<T>)
    requires
        chain_ok(c),
        c[0].deq() < c[0].limit(),
        n == c.update(0, n[0]),
        n[0].wf(),
        n[0].deq() == c[0].deq() + 1,
        n[0].enq() == c[0].enq(),
        n[0].cells() == c[0].cells().update(c[0].deq() as int, None),
        r == c[0].cells()[c[0].deq() as int],
    ensures
        chain_ok(n),
        r is Some ==> items_of(c).len() > 0 && items_of(n) == items_of(c).drop_first() && r == Some(
            items_of(c)[0],
        ),
        r is None ==> items_of(n) == items_of(c),
        r is None ==> seg_items(n[0]) == seg_items(c[0]),
        r is Some ==> seg_items(c[0]).len() > 0,
{
    let h = c[0];
    let s2 = n[0];
    let d = h.deq() as int;
    let lim = h.limit() as int;
    assert(seg_ok(h));
    lemma_items_front(c);
    lemma_items_front(n);
    assert(n.drop_first() =~= c.drop_first());
    let tail = h.cells().subrange(d + 1, lim);
    assert(h.cells().subrange(d, lim) =~= seq![r] + tail);
    lemma_somes_concat(seq![r], tail);
    lemma_somes_single(r);
    if d + 1 < lim {
        assert(s2.cells().subrange(d + 1, lim) =~= tail);
    } else {
        assert(tail =~= Seq::<Option<T>>::empty());
    }
    assert(seg_items(s2) =~= somes(tail));
    if r is Some {
        assert(seg_items(h) =~= seq![r->0] + somes(tail));
        assert(items_of(n) =~= items_of(c).drop_first());
    } else {
        assert(seg_items(h) =~= somes(tail));
        assert(items_of(n) =~= items_of(c));
    }
    assert forall|k: int| 0 <= k < n.len() implies seg_ok(#[trigger] n[k]) by {
        if k > 0 {
            assert(n[k] == c[k]);
        }
    }
    assert forall|k: int| 1 <= k < n.len() implies (#[trigger] n[k]).deq() == 0 && n[k].enq()
        >= 1 by {
        assert(n[k] == c[k]);
    }
    assert forall|k: int| 0 <= k < n.len() - 1 implies (#[trigger] n[k]).enq() == CAPACITY
        + 1 by {
        assert(n[k].enq() == c[k].enq());
    }
}

/// A chain holds no payloads exactly when none of its segments does.
pub proof fn lemma_items_empty<T>(segs: Seq<Segment<T>>)
    ensures
        items_of(segs).len() == 0 <==> forall|k: int|
            0 <= k < segs.len() ==> seg_items(#[trigger] segs[k]).len() == 0,
    decreases segs.len(),
{
    if segs.len() > 0 {
        let init = segs.drop_last();
        lemma_items_empty(init);
        assert forall|k: int| 0 <= k < init.len() implies init[k] == segs[k] by {}
        if items_of(segs).len() == 0 {
            assert forall|k: int| 0 <= k < segs.len() implies seg_items(#[trigger] segs[k]).len()
                == 0 by {
                if k < init.len() {
                    assert(init[k] == segs[k]);
                }
            }
        } else if forall|k: int| 0 <= k < segs.len() ==> seg_items(#[trigger] segs[k]).len() == 0 {
            assert(seg_items(segs[segs.len() - 1]).len() == 0);
            assert forall|k: int| 0 <= k < init.len() implies seg_items(#[trigger] init[k]).len()
                == 0 by {
                assert(init[k] == segs[k]);
            }
        }
    }
}

/// The tail takes one more reservation, and `c` is what its slot then holds.
proof fn lemma_tail_append<T>(s: Segment<T>, s2: Segment<T>, c: Option<T>)
    requires
        seg_ok(s),
        s.enq() < CAPACITY,
        s2.wf(),
        s2.cells() == s.cells().update(s.enq() as int, c),
        s2.enq() == s.enq() + 1,
        s2.deq() == s.deq(),
    ensures
        seg_ok(s2),
        seg_items(s2) == seg_items(s) + somes(seq![c]),
{
    let d = s.deq() as int;
    let e = s.enq() as int;
    assert(s2.cells().subrange(d, e + 1) =~= s.cells().subrange(d, e) + seq![c]);
    lemma_somes_concat(s.cells().subrange(d, e), seq![c]);
    if d == e {
        assert(s.cells().subrange(d, e) =~= Seq::<Option<T>>::empty());
        assert(somes(Seq::<Option<T>>::empty()) =~= Seq::<T>::empty());
    }
    assert(seg_items(s) == somes(s.cells().subrange(d, e)));
    assert(seg_items(s2) =~= seg_items(s) + somes(seq![c]));
}

/// `position_of` finds the first index holding `id`.
proof fn lemma_position_of(ids: Seq<usize>, id: usize, p: int)
    requires
        0 <= p <= ids.len(),
        forall|k: int| 0 <= k < p ==> ids[k] != id,
        p == ids.len() || ids[p] == id,
    ensures
        position_of(ids, id) == (if p == ids.len() { -1 } else { p }),
    decreases ids.len(),
{
    if ids.len() > 0 && ids[0] != id {
        assert forall|k: int| 0 <= k < p - 1 implies ids.drop_first()[k] != id by {
            assert(ids.drop_first()[k] == ids[k + 1]);
        }
        lemma_position_of(ids.drop_first(), id, p - 1);
    }
}

/// The payloads of a chain, split around segment `p`.
proof fn lemma_items_split<T>(c: Seq<Segment<T>>, p: int)
    requires
        0 <= p < c.len(),
    ensures
        items_of(c) == items_of(c.take(p)) + seg_items(c[p]) + items_of(c.skip(p + 1)),
{
    assert(c =~= c.take(p) + seq![c[p]] + c.skip(p + 1));
    lemma_items_concat(c.take(p) + seq![c[p]], c.skip(p + 1));
    lemma_items_concat(c.take(p), seq![c[p]]);
    lemma_items_single(c[p]);
}

/// Publishing into slot `i` of segment `p`, reserved and not yet reached
/// by consumers, inserts the value after the payloads of earlier segments and
/// earlier slots.
proof fn lemma_publish<T>(c: Seq<Segment<T>>, n: Seq<Segment<T>>, p: int, i: int, value: T)
    requires
        chain_ok(c),
        0 <= p < c.len(),
        0 <= i < CAPACITY,
        c[p].deq() <= i < c[p].enq(),
        c[p].cells()[i] is None,
        n == c.update(p, n[p]),
        n[p].wf(),
        n[p].deq() == c[p].deq(),
        n[p].enq() == c[p].enq(),
        n[p].cells() == c[p].cells().update(i, Some(value)),
    ensures
        chain_ok(n),
        items_of(c.take(p)).len() + somes(c[p].cells().subrange(c[p].deq() as int, i)).len()
            <= items_of(c).len(),
        items_of(n).len() == items_of(c).len() + 1,
        items_of(n) == items_of(c).insert(
            (items_of(c.take(p)).len() + somes(c[p].cells().subrange(c[p].deq() as int, i)).len()) as int,
            value,
        ),
{
    let s = c[p];
    let s2 = n[p];
    let d = s.deq() as int;
    let lim = s.limit() as int;
    assert(seg_ok(s));
    lemma_items_split(c, p);
    lemma_items_split(n, p);
    assert(n.take(p) =~= c.take(p));
    assert(n.skip(p + 1) =~= c.skip(p + 1));
    let b = s.cells().subrange(d, i);
    let rest = s.cells().subrange(i + 1, lim);
    assert(s.cells().subrange(d, lim) =~= b + seq![None] + rest);
    assert(s2.cells().subrange(d, lim) =~= b + seq![Some(value)] + rest);
    lemma_somes_concat(b + seq![None], rest);
    lemma_somes_concat(b, seq![None]);
    lemma_somes_concat(b + seq![Some(value)], rest);
    lemma_somes_concat(b, seq![Some(value)]);
    lemma_somes_single(None::<T>);
    lemma_somes_single(Some(value));
    assert(seg_items(s) =~= somes(b) + somes(rest));
    assert(seg_items(s2) =~= somes(b) + seq![value] + somes(rest));
    let a = items_of(c.take(p));
    let z = items_of(c.skip(p + 1));
    assert(items_of(n) =~= items_of(c).insert((a.len() + somes(b).len()) as int, value));
    assert forall|k: int| 0 <= k < n.len() implies seg_ok(#[trigger] n[k]) by {
        if k != p {
            assert(n[k] == c[k]);
        }
    }
    assert forall|k: int| 1 <= k < n.len() implies (#[trigger] n[k]).deq() == 0 && n[k].enq()
        >= 1 by {
        assert(n[k].deq() == c[k].deq());
    }
    assert forall|k: int| 0 <= k < n.len() - 1 implies (#[trigger] n[k]).enq() == CAPACITY
        + 1 by {
        assert(n[k].enq() == c[k].enq());
    }
}

/// The number of distinct values of a `usize`: segment ids wrap around at it.
pub open spec fn id_span() -> int {
    usize::MAX as int + 1
}

/// Segment ids are consecutive, wrapping around at `id_span`, and `next` is
/// the id after the last.
pub open spec fn ids_consecutive(ids: Seq<usize>, next: usize) -> bool {
    &&& 1 <= ids.len() <= id_span()
    &&& forall|k: int| 0 <= k < ids.len() ==> #[trigger] ids[k] as int == (ids[0] + k) % id_span()
    &&& next as int == (ids[0] + ids.len()) % id_span()
}

/// Consecutive ids are distinct.
proof fn lemma_ids_distinct(ids: Seq<usize>, next: usize)
    requires
        ids_consecutive(ids, next),
    ensures
        forall|k: int, n: int| 0 <= k < n < ids.len() ==> #[trigger] ids[k] != #[trigger] ids[n],
{
    let m = id_span();
    assert forall|k: int, n: int| 0 <= k < n < ids.len() implies #[trigger] ids[k] != #[trigger] ids[n] by {
        vstd::arithmetic::div_mod::lemma_mod_equivalence(ids[0] + n, ids[0] + k, m);
        vstd::arithmetic::div_mod::lemma_small_mod((n - k) as nat, m as nat);
        assert((ids[0] + n) - (ids[0] + k) == n - k);
    }
}

/// Consecutive ids are distinct, so the last one is found at the end.
proof fn lemma_last_id(ids: Seq<usize>, next: usize)
    requires
        ids_consecutive(ids, next),
    ensures
        position_of(ids, ids.last()) == ids.len() - 1,
{
    lemma_ids_distinct(ids, next);
    let n = ids.len() - 1;
    assert forall|k: int| 0 <= k < n implies ids[k] != ids[n] by {}
    lemma_position_of(ids, ids.last(), n);
}

/// Among distinct ids, dropping the first shifts every position down by one
/// and loses the first id.
proof fn lemma_position_drop_first(ids: Seq<usize>, id: usize)
    requires
        ids.len() >= 1,
        forall|k: int, n: int| 0 <= k < n < ids.len() ==> #[trigger] ids[k] != #[trigger] ids[n],
    ensures
        position_of(ids.drop_first(), id) == (if position_of(ids, id) <= 0 {
            -1
        } else {
            position_of(ids, id) - 1
        }),
{
    let rest = ids.drop_first();
    if ids[0] == id {
        assert forall|k: int| 0 <= k < rest.len() implies rest[k] != id by {
            assert(rest[k] == ids[k + 1]);
        }
        lemma_position_of(rest, id, rest.len() as int);
    }
}

/// Linking a segment with id `next` keeps the ids consecutive.
proof fn lemma_ids_push(ids: Seq<usize>, next: usize, after: usize)
    requires
        ids_consecutive(ids, next),
        ids.len() < id_span(),
        after == (if next == usize::MAX { 0 } else { next + 1 }),
    ensures
        ids_consecutive(ids.push(next), after),
{
    let m = id_span();
    let s = ids.push(next);
    assert forall|k: int| 0 <= k < s.len() implies #[trigger] s[k] as int == (s[0] + k) % m by {
        if k < ids.len() {
            assert(s[k] == ids[k]);
        }
    }
    vstd::arithmetic::div_mod::lemma_add_mod_noop(ids[0] + ids.len(), 1, m);
    vstd::arithmetic::div_mod::lemma_small_mod(1, m as nat);
    if next == usize::MAX {
        vstd::arithmetic::div_mod::lemma_mod_self_0(m);
    } else {
        vstd::arithmetic::div_mod::lemma_small_mod((next + 1) as nat, m as nat);
    }
}

/// Retiring the head's id keeps the ids consecutive.
proof fn lemma_ids_drop_first(ids: Seq<usize>, next: usize)
    requires
        ids_consecutive(ids, next),
        ids.len() >= 2,
    ensures
        ids_consecutive(ids.drop_first(), next),
{
    let m = id_span();
    let s = ids.drop_first();
    assert forall|k: int| 0 <= k < s.len() implies #[trigger] s[k] as int == (s[0] + k) % m by {
        assert(s[k] == ids[k + 1]);
        assert(s[0] == ids[1]);
        vstd::arithmetic::div_mod::lemma_add_mod_noop(ids[0] + 1, k, m);
        vstd::arithmetic::div_mod::lemma_small_mod(k as nat, m as nat);
        vstd::arithmetic::div_mod::lemma_small_mod(((ids[0] + 1) % m) as nat, m as nat);
    }
    assert(s[0] == ids[1]);
    vstd::arithmetic::div_mod::lemma_add_mod_noop(ids[0] + 1, s.len() as int, m);
    vstd::arithmetic::div_mod::lemma_small_mod(s.len(), m as nat);
}

pub open spec fn saturating_add(a: nat, b: nat) -> nat {
    if a + b < usize::MAX { a + b } else { usize::MAX as nat }
}

/// `position_of` gives an index of `ids` holding `id`, or -1.
proof fn lemma_position_bound(ids: Seq<usize>, id: usize)
    ensures
        -1 <= position_of(ids, id) < ids.len(),
        position_of(ids, id) >= 0 ==> ids[position_of(ids, id)] == id,
    decreases ids.len(),
{
    if ids.len() > 0 && ids[0] != id {
        lemma_position_bound(ids.drop_first(), id);
    }
}

/// Slots `d..i` with slot `d` empty hold the same payloads as slots `d+1..i`.
proof fn lemma_somes_skip_front<T>(cs: Seq<Option<T>>, d: int, i: int)
    requires
        0 <= d < i <= cs.len(),
    ensures
        somes(cs.subrange(d, i)) == somes(seq![cs[d]]) + somes(cs.subrange(d + 1, i)),
{
    assert(cs.subrange(d, i) =~= seq![cs[d]] + cs.subrange(d + 1, i));
    lemma_somes_concat(seq![cs[d]], cs.subrange(d + 1, i));
}

impl<T> Leitio<T> {
    /// Skipping the empty slot at the head's consumer counter keeps every
    /// ticket that can still be published at the same rank.
    proof fn lemma_skip_keeps_tickets(cur: Self, next: Self)
        requires
            cur.wf(),
            next.ids() == cur.ids(),
            next.chain() == cur.chain().update(0, next.chain()[0]),
            next.chain()[0].deq() == cur.chain()[0].deq() + 1,
            next.chain()[0].enq() == cur.chain()[0].enq(),
            next.chain()[0].cells() == cur.chain()[0].cells(),
            cur.chain()[0].deq() < cur.chain()[0].limit(),
            cur.chain()[0].cells()[cur.chain()[0].deq() as int] is None,
        ensures
            seg_items(next.chain()[0]) == seg_items(cur.chain()[0]),
            forall|t: Ticket|
                #[trigger] next.can_publish(t) ==> cur.can_publish(t) && next.rank(t) == cur.rank(
                    t,
                ),
    {
        let h = cur.chain()[0];
        let h2 = next.chain()[0];
        let d = h.deq() as int;
        assert(seg_ok(h));
        lemma_somes_skip_front(h.cells(), d, h.limit() as int);
        lemma_somes_single(None::<T>);
        assert(seg_items(h) =~= seg_items(h2));
        assert forall|t: Ticket| #[trigger] next.can_publish(t) implies cur.can_publish(t)
            && next.rank(t) == cur.rank(t) by {
            let p = position_of(cur.ids(), t.segment);
            lemma_position_bound(cur.ids(), t.segment);
            if p == 0 {
                assert(next.chain().take(0) =~= cur.chain().take(0));
                lemma_somes_skip_front(h.cells(), d, t.index as int);
            } else {
                assert(next.chain()[p] == cur.chain()[p]);
                let a = cur.chain().take(p);
                let b = next.chain().take(p);
                lemma_items_front(a);
                lemma_items_front(b);
                assert(a.drop_first() =~= b.drop_first());
            }
        }
    }

    /// Advancing the head past an exhausted segment keeps every ticket that
    /// can still be published at the same rank.
    proof fn lemma_advance_keeps_tickets(cur: Self, next: Self)
        requires
            cur.wf(),
            cur.chain().len() >= 2,
            cur.chain()[0].deq() >= CAPACITY,
            next.chain() == cur.chain().drop_first(),
            next.ids() == cur.ids().drop_first(),
        ensures
            forall|t: Ticket|
                #[trigger] next.can_publish(t) ==> cur.can_publish(t) && next.rank(t) == cur.rank(
                    t,
                ),
    {
        cur.lemma_chain_ok();
        assert(seg_ok(cur.chain()[0]));
        assert(seg_items(cur.chain()[0]) =~= Seq::<T>::empty());
        assert forall|t: Ticket| #[trigger] next.can_publish(t) implies cur.can_publish(t)
            && next.rank(t) == cur.rank(t) by {
            lemma_position_drop_first(cur.ids(), t.segment);
            lemma_position_bound(next.ids(), t.segment);
            let p = position_of(cur.ids(), t.segment);
            assert(p >= 1);
            assert(next.chain()[p - 1] == cur.chain()[p]);
            let a = cur.chain().take(p);
            lemma_items_front(a);
            assert(a.drop_first() =~= next.chain().take(p - 1));
        }
    }

    /// Taking the payload at the head's consumer counter: every ticket that
    /// can still be published afterwards could be before, behind that payload.
    proof fn lemma_take_passes_tickets(cur: Self, fin: Self)
        requires
            cur.wf(),
            fin.ids() == cur.ids(),
            fin.chain() == cur.chain().update(0, fin.chain()[0]),
            fin.chain()[0].deq() == cur.chain()[0].deq() + 1,
            fin.chain()[0].enq() == cur.chain()[0].enq(),
            fin.chain()[0].cells() == cur.chain()[0].cells().update(
                cur.chain()[0].deq() as int,
                None,
            ),
            cur.chain()[0].deq() < cur.chain()[0].limit(),
            cur.chain()[0].cells()[cur.chain()[0].deq() as int] is Some,
        ensures
            forall|t: Ticket| #[trigger] fin.can_publish(t) ==> cur.can_publish(t) && cur.rank(t) >= 1,
    {
        let h = cur.chain()[0];
        let d = h.deq() as int;
        let c = h.cells()[d];
        assert(seg_ok(h));
        lemma_somes_single(c);
        lemma_somes_skip_front(h.cells(), d, h.limit() as int);
        assert forall|t: Ticket| #[trigger] fin.can_publish(t) implies cur.can_publish(t)
            && cur.rank(t) >= 1 by {
            let p = position_of(cur.ids(), t.segment);
            lemma_position_bound(cur.ids(), t.segment);
            if p == 0 {
                lemma_somes_skip_front(h.cells(), d, t.index as int);
            } else {
                assert(fin.chain()[p] == cur.chain()[p]);
                let a = cur.chain().take(p);
                lemma_items_front(a);
            }
        }
    }

    /// The chain of segments, head first.
    pub closed spec fn chain(&self) -> Seq<Segment<T>> {
        self.segments@
    }

    /// The id of each segment of the chain, head first.
    pub closed spec fn ids(&self) -> Seq<usize> {
        self.ids@
    }

    /// How many segments the queue has advanced past and let go of
    /// (saturating).
    pub closed spec fn retired(&self) -> nat {
        self.retired as nat
    }

    pub closed spec fn wf(&self) -> bool {
        &&& chain_ok(self.segments@)
        &&& self.ids@.len() == self.segments@.len()
        &&& ids_consecutive(self.ids@, self.next_id)
        &&& self.count == self@.len()
    }

    /// Whether publishing into the slot of `ticket` succeeds: its segment is
    /// still in the chain, the slot has been reserved, no consumer has reached
    /// it yet, and it is empty.
    pub open spec fn can_publish(&self, ticket: Ticket) -> bool {
        let p = position_of(self.ids(), ticket.segment);
        &&& 0 <= p < self.chain().len()
        &&& ticket.index < CAPACITY
        &&& self.chain()[p].deq() <= ticket.index < self.chain()[p].enq()
        &&& self.chain()[p].cells()[ticket.index as int] is None
    }

    /// Where a payload published for `ticket` stands among the payloads of the
    /// queue: after every payload of an earlier segment or an earlier slot.
    pub open spec fn rank(&self, ticket: Ticket) -> int {
        let p = position_of(self.ids(), ticket.segment);
        let s = self.chain()[p];
        items_of(self.chain().take(p)).len() + somes(
            s.cells().subrange(s.deq() as int, ticket.index as int),
        ).len() as int
    }

    /// The chain of a well-formed queue has the shape `chain_ok` describes,
    /// and each of its segments has an id of its own.
    pub proof fn lemma_chain_ok(&self)
        requires
            self.wf(),
        ensures
            chain_ok(self.chain()),
            self.ids().len() == self.chain().len(),
            self@ == items_of(self.chain()),
            forall|k: int, n: int| 0 <= k < n < self.ids().len() ==> #[trigger] self.ids()[k] != #[trigger] self.ids()[n],
    {
        lemma_ids_distinct(self.ids@, self.next_id);
    }

    /// An empty queue: one sentinel segment, which is both head and tail.
    pub fn new() -> (q: Self)
        ensures
            q.wf(),
            q@ == Seq::<T>::empty(),
            q.chain().len() == 1,
            q.ids().len() == 1,
            q.chain()[0].enq() == 0,
            q.chain()[0].deq() == 0,
            q.chain()[0].cells() == empty_cells::<T>(CAPACITY as nat),
            q.retired() == 0,
    {
        let mut segments: Vec<Segment<T>> = Vec::new();
        segments.push(Segment::sentinel());
        let mut ids: Vec<usize> = Vec::new();
        ids.push(0);
        let q = Leitio { segments, ids, next_id: 1, count: 0, retired: 0 };
        proof {
            vstd::arithmetic::div_mod::lemma_small_mod(0, id_span() as nat);
            vstd::arithmetic::div_mod::lemma_small_mod(1, id_span() as nat);
            let s = q.segments@[0];
            assert(q.segments@.drop_last() =~= Seq::<Segment<T>>::empty());
            assert(seg_items(s) =~= Seq::<T>::empty());
            assert(items_of(Seq::<Segment<T>>::empty()) =~= Seq::<T>::empty());
            assert(q@ =~= Seq::<T>::empty());
        }
        q
    }

    /// The number of payloads in the queue.
    pub fn count(&self) -> (r: usize)
        requires
            self.wf(),
        ensures
            r == self@.len(),
    {
        self.count
    }

    /// The number of segments from head to tail.
    pub fn live_segments(&self) -> (r: usize)
        ensures
            r == self.chain().len(),
    {
        self.segments.len()
    }

    /// The number of segments that the head has advanced past (saturating).
    pub fn retired_segments(&self) -> (r: usize)
        ensures
            r == self.retired(),
    {
        self.retired
    }

    /// Enqueues `value` at the tail. A reservation below `CAPACITY` publishes
    /// into that slot of the tail; the overflow reservation links a new
    /// segment that carries `value` in its slot 0 and makes it the tail.
    /// With exclusive access the slot just reserved is always still empty and
    /// the tail is always the last segment, so neither a failed publish nor a
    /// lagging tail has to be retried.
    pub fn push(&mut self, value: T)
        requires
            old(self).wf(),
            old(self)@.len() < usize::MAX,
        ensures
            final(self).wf(),
            final(self)@ == after_push(old(self)@, value),
            final(self).retired() == old(self).retired(),
            old(self).chain().last().enq() < CAPACITY ==> {
                &&& final(self).chain().len() == old(self).chain().len()
                &&& final(self).ids() == old(self).ids()
                &&& final(self).chain().drop_last() == old(self).chain().drop_last()
                &&& final(self).chain().last().enq() == old(self).chain().last().enq() + 1
                &&& final(self).chain().last().deq() == old(self).chain().last().deq()
                &&& final(self).chain().last().cells() == old(self).chain().last().cells().update(
                    old(self).chain().last().enq() as int,
                    Some(value),
                )
            },
            old(self).chain().last().enq() >= CAPACITY ==> {
                &&& final(self).chain().len() == old(self).chain().len() + 1
                &&& final(self).ids().drop_last() == old(self).ids()
                &&& final(self).chain().drop_last().drop_last() == old(self).chain().drop_last()
                &&& final(self).chain()[old(self).chain().len() - 1].enq() == CAPACITY + 1
                &&& final(self).chain()[old(self).chain().len() - 1].deq() == old(
                    self,
                ).chain().last().deq()
                &&& final(self).chain()[old(self).chain().len() - 1].cells() == old(
                    self,
                ).chain().last().cells()
                &&& final(self).chain().last().cells() == empty_cells::<T>(CAPACITY as nat).update(
                    0,
                    Some(value),
                )
                &&& final(self).chain().last().enq() == 1
                &&& final(self).chain().last().deq() == 0
            },
    {
        let ghost segs = self.segments@;
        let t = self.segments.len() - 1;
        assert(seg_ok(segs[t as int]));
        let i = self.segments[t].reserve_enqueue();
        if i < CAPACITY {
            let stored = self.segments[t].try_store(i, value);
            assert(stored is Ok);
            proof {
                let s = segs[t as int];
                let s2 = self.segments@[t as int];
                lemma_tail_append(s, s2, Some(value));
                lemma_somes_single(Some(value));
                assert(self.segments@ == segs.update(t as int, s2));
                assert(self.segments@.drop_last() =~= segs.drop_last());
                assert(items_of(self.segments@) =~= items_of(segs).push(value));
                assert forall|k: int| 0 <= k < self.segments@.len() implies seg_ok(
                    #[trigger] self.segments@[k],
                ) by {
                    if k != t {
                        assert(self.segments@[k] == segs[k]);
                    }
                }
            }
        } else {
            self.segments.push(Segment::with_first(value));
            let ghost ids_before = self.ids@;
            let ghost next_before = self.next_id;
            self.ids.push(self.next_id);
            self.next_id = if self.next_id == usize::MAX {
                0
            } else {
                self.next_id + 1
            };
            proof {
                let s = segs[t as int];
                lemma_ids_push(ids_before, next_before, self.next_id);
                let mid = segs.update(t as int, self.segments@[t as int]);
                let n = self.segments@.last();
                assert(self.segments@ == mid.push(n));
                assert(self.segments@.drop_last() =~= mid);
                assert(mid.drop_last() =~= segs.drop_last());
                assert(seg_items(mid.last()) =~= seg_items(s));
                assert(n.cells().subrange(0, 1) =~= seq![Some(value)]);
                lemma_somes_single(Some(value));
                assert(seg_items(n) =~= seq![value]);
                assert(items_of(mid) == items_of(segs.drop_last()) + seg_items(mid.last()));
                assert(items_of(self.segments@) == items_of(mid) + seg_items(n));
                assert(items_of(self.segments@) =~= items_of(segs).push(value));
                assert forall|k: int| 0 <= k < self.segments@.len() implies seg_ok(
                    #[trigger] self.segments@[k],
                ) by {
                    if k < t {
                        assert(self.segments@[k] == segs[k]);
                    }
                }
            }
        }
        self.count = self.count + 1;
    }

    /// A producer's reservation of the next slot of the tail, to be filled
    /// later with `publish`. While the slot stays empty consumers that reach
    /// it skip it. When the tail has no slot left nothing is reserved and the
    /// result is `None`: an enqueue then links the next segment with `push`.
    pub fn reserve(&mut self) -> (t: Option<Ticket>)
        requires
            old(self).wf(),
        ensures
            final(self).wf(),
            final(self)@ == old(self)@,
            final(self).ids() == old(self).ids(),
            final(self).retired() == old(self).retired(),
            final(self).chain().len() == old(self).chain().len(),
            old(self).chain().last().enq() < CAPACITY ==> t == Some(
                Ticket {
                    segment: old(self).ids().last(),
                    index: old(self).chain().last().enq() as usize,
                },
            ) && final(self).chain().last().enq() == old(self).chain().last().enq() + 1
                && final(self).chain().last().deq() == old(self).chain().last().deq()
                && final(self).chain().last().cells() == old(self).chain().last().cells()
                && final(self).chain().drop_last() == old(self).chain().drop_last()
                && final(self).can_publish(t->0) && final(self).rank(t->0) == final(self)@.len(),
            old(self).chain().last().enq() >= CAPACITY ==> t is None && final(self).chain()
                == old(self).chain(),
    {
        let ghost segs = self.segments@;
        let t = self.segments.len() - 1;
        assert(seg_ok(segs[t as int]));
        if self.segments[t].enq_index() >= CAPACITY {
            return None;
        }
        let i = self.segments[t].reserve_enqueue();
        proof {
            let s = segs[t as int];
            let s2 = self.segments@[t as int];
            assert(s.cells().update(s.enq() as int, None) =~= s.cells());
            lemma_tail_append(s, s2, None);
            lemma_somes_single(None::<T>);
            lemma_last_id(self.ids@, self.next_id);
            lemma_items_split(self.segments@, t as int);
            assert(self.segments@.skip(t + 1) =~= Seq::<Segment<T>>::empty());
            assert(items_of(Seq::<Segment<T>>::empty()) =~= Seq::<T>::empty());
            assert(s.cells().subrange(s.deq() as int, s.enq() as int) =~= s2.cells().subrange(
                s2.deq() as int,
                s.enq() as int,
            ));
            if s.deq() == s.enq() {
                assert(s.cells().subrange(s.deq() as int, s.enq() as int) =~= Seq::<
                    Option<T>,
                >::empty());
                assert(somes(Seq::<Option<T>>::empty()) =~= Seq::<T>::empty());
            }
            assert(self.segments@ == segs.update(t as int, s2));
            assert(self.segments@.drop_last() =~= segs.drop_last());
            assert(items_of(self.segments@) =~= items_of(segs));
            assert forall|k: int| 0 <= k < self.segments@.len() implies seg_ok(
                #[trigger] self.segments@[k],
            ) by {
                if k != t {
                    assert(self.segments@[k] == segs[k]);
                }
            }
        }
        Some(Ticket { segment: self.ids[t], index: i })
    }

    /// Fills the slot that `ticket` reserved: a compare-and-swap from empty.
    /// It succeeds when `can_publish` holds, and the value then takes its
    /// place among the payloads by reservation order. Otherwise the value is
    /// handed back: consumers have already skipped the slot, its segment has
    /// been retired, or the ticket names no reserved empty slot.
    pub fn publish(&mut self, ticket: Ticket, value: T) -> (r: Result<(), T>)
        requires
            old(self).wf(),
            old(self)@.len() < usize::MAX,
        ensures
            final(self).wf(),
            final(self).ids() == old(self).ids(),
            final(self).retired() == old(self).retired(),
            final(self).chain().len() == old(self).chain().len(),
            old(self).can_publish(ticket) ==> 0 <= old(self).rank(ticket) <= old(self)@.len(),
            old(self).can_publish(ticket) ==> r is Ok && final(self)@ == old(self)@.insert(
                old(self).rank(ticket),
                value,
            ),
            !old(self).can_publish(ticket) ==> r == Err::<(), T>(value) && final(self)@ == old(
                self,
            )@,
    {
        let ghost c = self.segments@;
        let mut p: usize = 0;
        while p < self.ids.len() && self.ids[p] != ticket.segment
            invariant
                *self == *old(self),
                self.wf(),
                p <= self.ids@.len(),
                forall|k: int| 0 <= k < p ==> self.ids@[k] != ticket.segment,
            decreases self.ids@.len() - p,
        {
            p = p + 1;
        }
        proof {
            lemma_position_of(self.ids@, ticket.segment, p as int);
        }
        if p == self.ids.len() || ticket.index >= CAPACITY {
            return Err(value);
        }
        let i = ticket.index;
        if i < self.segments[p].deq_index() || i >= self.segments[p].enq_index() {
            return Err(value);
        }
        let r = self.segments[p].try_store(i, value);
        if r.is_ok() {
            self.count = self.count + 1;
            proof {
                assert(self.segments@ =~= c.update(p as int, self.segments@[p as int]));
                lemma_publish(c, self.segments@, p as int, i as int, value);
                assert(self@ =~= old(self)@.insert(old(self).rank(ticket), value));
            }
        } else {
            proof {
                assert(self.segments@ =~= c);
            }
        }
        r
    }

    /// Dequeues the oldest payload, or returns `None` when the queue holds
    /// none. Each round reserves the next index of the head: an index past
    /// the head's slots makes the queue advance the head to the next segment
    /// and retire the old one; a slot that is still empty (its producer has
    /// not published) is skipped for good.
    pub fn pop(&mut self) -> (r: Option<T>)
        requires
            old(self).wf(),
        ensures
            final(self).wf(),
            (final(self)@, r) == after_pop(old(self)@),
            final(self).chain().len() <= old(self).chain().len(),
            final(self).ids() == old(self).ids().skip(
                old(self).chain().len() - final(self).chain().len(),
            ),
            final(self).retired() == saturating_add(
                old(self).retired(),
                (old(self).chain().len() - final(self).chain().len()) as nat,
            ),
            // the segments let go of are exactly the leading ones without payloads
            forall|k: int|
                0 <= k < old(self).chain().len() - final(self).chain().len() ==> seg_items(
                    #[trigger] old(self).chain()[k],
                ) == Seq::<T>::empty(),
            r is Some ==> {
                &&& seg_items(
                    old(self).chain()[old(self).chain().len() - final(self).chain().len()],
                ).len() > 0
                &&& final(self).chain().drop_first() == old(self).chain().skip(
                    old(self).chain().len() - final(self).chain().len() + 1,
                )
            },
            r is None ==> final(self).chain().len() == 1 && final(self).chain()[0].deq()
                >= final(self).chain()[0].enq(),
            // an empty reserved slot that the dequeue passed is used up
            forall|t: Ticket|
                old(self).can_publish(t) && (r is None || old(self).rank(t) == 0)
                    ==> !#[trigger] final(self).can_publish(t),
    {
        let ghost start = self@;
        let ghost n0 = self.segments@.len();
        let ghost ids0 = self.ids@;
        let ghost c0 = self.segments@;
        let ghost r0 = self.retired as nat;
        proof {
            assert(ids0.skip(0) =~= ids0);
        }
        loop
            invariant
                self.wf(),
                self@ == start,
                start == old(self)@,
                n0 == old(self).chain().len(),
                ids0 == old(self).ids(),
                c0 == old(self).chain(),
                ids0.len() == n0,
                r0 == old(self).retired(),
                1 <= self.segments@.len() <= n0,
                self.ids@ == ids0.skip(n0 - self.segments@.len()),
                self.retired as nat == saturating_add(r0, (n0 - self.segments@.len()) as nat),
                forall|k: int|
                    0 <= k < n0 - self.segments@.len() ==> seg_items(#[trigger] c0[k])
                        == Seq::<T>::empty(),
                forall|j: int|
                    1 <= j < self.segments@.len() ==> #[trigger] self.segments@[j] == c0[n0
                        - self.segments@.len() + j],
                seg_items(self.segments@[0]) == seg_items(c0[n0 - self.segments@.len()]),
                forall|t: Ticket|
                    #[trigger] self.can_publish(t) ==> old(self).can_publish(t) && self.rank(t)
                        == old(self).rank(t),
            decreases self.segments@.len(), CAPACITY + 1 - self.segments@[0].deq(),
        {
            let ghost c = self.segments@;
            let ghost ic = self.ids@;
            let ghost cur = *self;
            proof {
                assert(seg_ok(c[0]));
                lemma_items_front(c);
                if c.len() >= 2 {
                    assert(c[0].enq() == CAPACITY + 1);
                }
            }
            if self.segments.len() == 1 && self.segments[0].looks_drained() {
                proof {
                    assert(c.drop_first() =~= Seq::<Segment<T>>::empty());
                    assert(self@ =~= Seq::<T>::empty());
                    assert forall|t: Ticket| !#[trigger] self.can_publish(t) by {
                        lemma_position_bound(self.ids@, t.segment);
                    }
                }
                return None;
            }
            let i = self.segments[0].reserve_dequeue();
            if i >= CAPACITY {
                proof {
                    lemma_drop_exhausted(c);
                    assert(seg_items(c[0]) =~= Seq::<T>::empty());
                }
                self.segments.remove(0);
                proof {
                    lemma_ids_drop_first(self.ids@, self.next_id);
                }
                self.ids.remove(0);
                if self.retired < usize::MAX {
                    self.retired = self.retired + 1;
                }
                proof {
                    assert(self.segments@ =~= c.drop_first());
                    assert(self.ids@ =~= ic.drop_first());
                    assert(ic.drop_first() =~= ids0.skip(n0 - c.len() + 1));
                    assert(self.ids@ =~= ids0.skip(n0 - self.segments@.len()));
                    Self::lemma_advance_keeps_tickets(cur, *self);
                    assert(self.segments@[0] == c[1]);
                    assert forall|j: int| 1 <= j < self.segments@.len() implies #[trigger] self.segments@[j]
                        == c0[n0 - self.segments@.len() + j] by {
                        assert(self.segments@[j] == c[j + 1]);
                    }
                }
            } else {
                let r = self.segments[0].take(i);
                let ghost fin = *self;
                proof {
                    assert(self.segments@ =~= c.update(0, self.segments@[0]));
                    lemma_claim_front(c, self.segments@, r);
                    assert forall|j: int| 1 <= j < self.segments@.len() implies #[trigger] self.segments@[j]
                        == c0[n0 - self.segments@.len() + j] by {
                        assert(self.segments@[j] == c[j]);
                    }
                    if r is None {
                        assert(self.segments@[0].cells() =~= c[0].cells());
                        Self::lemma_skip_keeps_tickets(cur, *self);
                    } else {
                        Self::lemma_take_passes_tickets(cur, *self);
                        assert(self.segments@.drop_first() =~= c0.skip(
                            n0 - self.segments@.len() + 1,
                        ));
                    }
                }
                if r.is_some() {
                    self.count = self.count - 1;
                    proof {
                        assert forall|t: Ticket| old(self).can_publish(t) && old(self).rank(t) == 0
                            implies !#[trigger] self.can_publish(t) by {
                            if self.can_publish(t) {
                                assert(fin.can_publish(t));
                                assert(cur.can_publish(t));
                            }
                        }
                    }
                    return r;
                }
            }
        }
    }

    /// Dequeues every payload, oldest first, and hands them back in that
    /// order; the queue is left empty.
    pub fn iter(&mut self) -> (r: Vec<T>)
        requires
            old(self).wf(),
        ensures
            final(self).wf(),
            r@ == old(self)@,
            final(self)@ == Seq::<T>::empty(),
    {
        let ghost start = self@;
        let mut out: Vec<T> = Vec::new();
        while self.count() > 0
            invariant
                self.wf(),
                out@ + self@ == start,
            decreases self@.len(),
        {
            let next = self.pop();
            if let Some(v) = next {
                out.push(v);
                assert(out@ + self@ =~= start);
            }
        }
        assert(self@ =~= Seq::<T>::empty());
        assert(out@ + self@ =~= out@);
        out
    }
}

impl<T> Default for Leitio<T> {
    fn default() -> (q: Self)
        ensures
            q.wf(),
            q@ == Seq::<T>::empty(),
    {
        Self::new()
    }
}

} // verus!
