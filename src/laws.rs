//! What holds of every run of the queue, stated over the queue's abstract
//! contents: `push`, `publish` and `pop` change those contents exactly as
//! `after_push`, `Seq::insert` at the ticket's `rank`, and `after_pop` say.
use vstd::prelude::*;

use crate::leitio::{after_pop, after_push, position_of, seg_ok, Leitio, Ticket};
use crate::segment::Segment;

verus! {

/// One operation on a queue.
pub enum Op<T> {
    /// An enqueue of the value at the tail (`push`).
    Enqueue(T),
    /// A successful publish into a slot reserved earlier (`reserve`, then
    /// `publish`), whose value lands at the given position among the
    /// payloads (its `rank`).
    Publish(nat, T),
    /// A dequeue (`pop`).
    Dequeue,
}

/// The queue after a publish whose value lands at position `k`; a position
/// past the end means the end.
pub open spec fn publish_at<T>(q: Seq<T>, k: nat, value: T) -> Seq<T> {
    q.insert(if k <= q.len() { k as int } else { q.len() as int }, value)
}

/// Running `ops` in order on a queue that holds `q`: what the queue holds
/// afterwards, and what the dequeues returned, in the order they returned it.
pub open spec fn run<T>(q: Seq<T>, ops: Seq<Op<T>>) -> (Seq<T>, Seq<T>)
    decreases ops.len(),
{
    if ops.len() == 0 {
        (q, Seq::empty())
    } else {
        let (held, out) = run(q, ops.drop_last());
        match ops.last() {
            Op::Enqueue(v) => (after_push(held, v), out),
            Op::Publish(k, v) => (publish_at(held, k, v), out),
            Op::Dequeue => {
                let (rest, got) = after_pop(held);
                match got {
                    Some(v) => (rest, out.push(v)),
                    None => (rest, out),
                }
            },
        }
    }
}

/// The values that `ops` enqueue or publish, in order.
pub open spec fn enqueued<T>(ops: Seq<Op<T>>) -> Seq<T>
    decreases ops.len(),
{
    if ops.len() == 0 {
        Seq::empty()
    } else {
        match ops.last() {
            Op::Enqueue(v) => enqueued(ops.drop_last()).push(v),
            Op::Publish(_, v) => enqueued(ops.drop_last()).push(v),
            Op::Dequeue => enqueued(ops.drop_last()),
        }
    }
}

/// First in, first out: over any run in which values are only enqueued with
/// `push` (one producer, one consumer), what came out followed by what is
/// still held is what was held at the start followed by what went in. From
/// an empty queue, the dequeued values are therefore exactly the enqueued
/// ones, in the same order. `Leitio::push` and `Leitio::pop` change a queue's
/// view exactly as `after_push` and `after_pop`, the steps of `run`.
pub proof fn law_fifo<T>(q: Seq<T>, ops: Seq<Op<T>>)
    requires
        forall|k: int| 0 <= k < ops.len() ==> !(#[trigger] ops[k] is Publish),
    ensures
        run(q, ops).1 + run(q, ops).0 == q + enqueued(ops),
    decreases ops.len(),
{
    if ops.len() > 0 {
        let prev = ops.drop_last();
        assert forall|k: int| 0 <= k < prev.len() implies !(#[trigger] prev[k] is Publish) by {
            assert(prev[k] == ops[k]);
        }
        law_fifo(q, prev);
        let (held, out) = run(q, prev);
        match ops.last() {
            Op::Enqueue(v) => {
                assert(out + held.push(v) =~= (out + held).push(v));
            },
            Op::Dequeue => {
                if held.len() > 0 {
                    assert(out.push(held[0]) + held.drop_first() =~= out + held);
                }
            },
            Op::Publish(_, _) => {
                assert(ops[ops.len() - 1] is Publish);
            },
        }
    }
}

/// Nothing is lost and nothing is made up: over any run, with any number of
/// producers enqueueing or publishing, the values dequeued together with
/// those still held are, as a multiset, the values held at the start together
/// with those enqueued or published.
pub proof fn law_conservation<T>(q: Seq<T>, ops: Seq<Op<T>>)
    ensures
        run(q, ops).1.to_multiset().add(run(q, ops).0.to_multiset()) == q.to_multiset().add(
            enqueued(ops).to_multiset(),
        ),
    decreases ops.len(),
{
    broadcast use vstd::seq_lib::group_to_multiset_ensures, vstd::multiset::group_multiset_axioms;

    if ops.len() == 0 {
        assert(Seq::<T>::empty().to_multiset() =~= vstd::multiset::Multiset::<T>::empty());
        assert(run(q, ops).1.to_multiset().add(run(q, ops).0.to_multiset()) =~= q.to_multiset().add(
            enqueued(ops).to_multiset(),
        ));
    } else {
        let prev = ops.drop_last();
        law_conservation(q, prev);
        let (held, out) = run(q, prev);
        let mq = q.to_multiset();
        let me = enqueued(prev).to_multiset();
        assert(out.to_multiset().add(held.to_multiset()) == mq.add(me));
        match ops.last() {
            Op::Enqueue(v) => {
                assert(run(q, ops) == (held.push(v), out));
                assert(enqueued(ops) == enqueued(prev).push(v));
                assert(held.push(v).to_multiset() =~= held.to_multiset().insert(v));
                assert(enqueued(prev).push(v).to_multiset() =~= me.insert(v));
                assert(out.to_multiset().add(held.to_multiset().insert(v)) =~= out.to_multiset().add(
                    held.to_multiset(),
                ).insert(v));
                assert(mq.add(me).insert(v) =~= mq.add(me.insert(v)));
            },
            Op::Publish(k, v) => {
                let at = if k <= held.len() { k as int } else { held.len() as int };
                assert(0 <= at <= held.len());
                assert(run(q, ops) == (held.insert(at, v), out));
                assert(enqueued(ops) == enqueued(prev).push(v));
                assert(held.insert(at, v).to_multiset() == held.to_multiset().insert(v));
                assert(enqueued(prev).push(v).to_multiset() =~= me.insert(v));
                assert(out.to_multiset().add(held.to_multiset().insert(v)) =~= out.to_multiset().add(
                    held.to_multiset(),
                ).insert(v));
                assert(mq.add(me).insert(v) =~= mq.add(me.insert(v)));
            },
            Op::Dequeue => {
                assert(enqueued(ops) == enqueued(prev));
                if held.len() > 0 {
                    let h = held[0];
                    assert(run(q, ops) == (held.drop_first(), out.push(h)));
                    assert(held.remove(0) =~= held.drop_first());
                    assert(held.remove(0).to_multiset() == held.to_multiset().remove(h));
                    assert(out.push(h).to_multiset() =~= out.to_multiset().insert(h));
                    assert(held.contains(h));
                    assert(held.to_multiset().count(h) > 0);
                    assert(out.to_multiset().insert(h).add(held.to_multiset().remove(h))
                        =~= out.to_multiset().add(held.to_multiset()));
                } else {
                    assert(run(q, ops) == (held, out));
                }
            },
        }
    }
}

/// A value enqueued on an idle, empty queue is what the next dequeue returns,
/// and the queue is empty again.
pub proof fn law_round_trip<T>(q: Seq<T>, v: T)
    requires
        q.len() == 0,
    ensures
        after_pop(after_push(q, v)) == (q, Some(v)),
{
    assert(after_push(q, v).drop_first() =~= q);
}

/// Once no producer is active and the queue is empty, any number of dequeues
/// return nothing and leave it empty.
pub proof fn law_drained_stays_drained<T>(q: Seq<T>, ops: Seq<Op<T>>)
    requires
        q.len() == 0,
        forall|k: int| 0 <= k < ops.len() ==> #[trigger] ops[k] == Op::<T>::Dequeue,
    ensures
        run(q, ops) == (q, Seq::<T>::empty()),
    decreases ops.len(),
{
    if ops.len() > 0 {
        let prev = ops.drop_last();
        assert forall|k: int| 0 <= k < prev.len() implies #[trigger] prev[k] == Op::<T>::Dequeue by {
            assert(prev[k] == ops[k]);
        }
        law_drained_stays_drained(q, prev);
        assert(ops.last() == Op::<T>::Dequeue);
    }
}

/// Enqueues each of `xs`, in order.
pub open spec fn enqueue_all<T>(xs: Seq<T>) -> Seq<Op<T>> {
    xs.map_values(|x: T| Op::Enqueue(x))
}

/// `n` dequeues.
pub open spec fn dequeue_times<T>(n: nat) -> Seq<Op<T>> {
    Seq::new(n, |k: int| Op::<T>::Dequeue)
}

proof fn lemma_run_concat<T>(q: Seq<T>, a: Seq<Op<T>>, b: Seq<Op<T>>)
    ensures
        run(q, a + b) == (run(run(q, a).0, b).0, run(q, a).1 + run(run(q, a).0, b).1),
    decreases b.len(),
{
    let mid = run(q, a);
    if b.len() == 0 {
        assert(a + b =~= a);
        assert(mid.1 + Seq::<T>::empty() =~= mid.1);
    } else {
        assert((a + b).drop_last() =~= a + b.drop_last());
        assert((a + b).last() == b.last());
        lemma_run_concat(q, a, b.drop_last());
        let inner = run(mid.0, b.drop_last());
        if let Op::Dequeue = b.last() {
            if inner.0.len() > 0 {
                assert((mid.1 + inner.1).push(inner.0[0]) =~= mid.1 + inner.1.push(inner.0[0]));
            }
        }
    }
}

proof fn lemma_run_enqueue_all<T>(q: Seq<T>, xs: Seq<T>)
    ensures
        run(q, enqueue_all(xs)) == (q + xs, Seq::<T>::empty()),
    decreases xs.len(),
{
    if xs.len() == 0 {
        assert(enqueue_all(xs) =~= Seq::<Op<T>>::empty());
        assert(q + xs =~= q);
    } else {
        assert(enqueue_all(xs).drop_last() =~= enqueue_all(xs.drop_last()));
        lemma_run_enqueue_all(q, xs.drop_last());
        assert((q + xs.drop_last()).push(xs.last()) =~= q + xs);
    }
}

proof fn lemma_run_dequeue_times<T>(q: Seq<T>, n: nat)
    requires
        n <= q.len(),
    ensures
        run(q, dequeue_times(n)) == (q.skip(n as int), q.take(n as int)),
    decreases n,
{
    if n == 0 {
        assert(dequeue_times::<T>(n) =~= Seq::<Op<T>>::empty());
        assert(q.skip(0) =~= q);
        assert(q.take(0) =~= Seq::<T>::empty());
    } else {
        assert(dequeue_times::<T>(n).drop_last() =~= dequeue_times::<T>((n - 1) as nat));
        lemma_run_dequeue_times(q, (n - 1) as nat);
        assert(q.skip(n - 1).drop_first() =~= q.skip(n as int));
        assert(q.take(n - 1).push(q.skip(n - 1)[0]) =~= q.take(n as int));
    }
}

/// Enqueue any number of values on an empty queue, dequeue them all, and
/// enqueue one more: the dequeues return the values in order, the last one
/// returns the value enqueued last, and the queue is empty again.
pub proof fn law_refill<T>(xs: Seq<T>, v: T)
    ensures
        run(
            Seq::<T>::empty(),
            enqueue_all(xs) + dequeue_times(xs.len()) + seq![Op::Enqueue(v), Op::Dequeue],
        ) == (Seq::<T>::empty(), xs.push(v)),
{
    let e = Seq::<T>::empty();
    let a = enqueue_all(xs);
    let b = dequeue_times::<T>(xs.len());
    let c = seq![Op::Enqueue(v), Op::Dequeue];
    lemma_run_enqueue_all(e, xs);
    assert(e + xs =~= xs);
    lemma_run_dequeue_times(xs, xs.len());
    lemma_run_concat(e, a, b);
    assert(xs.skip(xs.len() as int) =~= e);
    assert(xs.take(xs.len() as int) =~= xs);
    assert(e + xs =~= xs);
    lemma_run_concat(e, a + b, c);
    assert(c.drop_last() =~= seq![Op::Enqueue(v)]);
    assert(c.drop_last().drop_last() =~= Seq::<Op<T>>::empty());
    assert(e.push(v).drop_first() =~= e);
    assert(xs + seq![v] =~= xs.push(v));
    assert(e.push(v)[0] == v);
    assert(run(e, a + b) == (e, xs));
    assert(run(e, c.drop_last().drop_last()) == (e, e));
    assert(run(e, c.drop_last()) == (e.push(v), e));
    assert(e.push(v) =~= seq![v]);
    assert(run(e, c) == (e, e.push(v)));
}

/// In every segment of a well-formed queue, consumers have not reserved more
/// indices than producers.
pub proof fn law_reservations_bounded<T>(queue: Leitio<T>)
    requires
        queue.wf(),
    ensures
        forall|k: int|
            0 <= k < queue.chain().len() ==> (#[trigger] queue.chain()[k]).deq()
                <= queue.chain()[k].enq(),
{
    queue.lemma_chain_ok();
    assert forall|k: int| 0 <= k < queue.chain().len() implies (
    #[trigger] queue.chain()[k]).deq() <= queue.chain()[k].enq() by {
        assert(seg_ok(queue.chain()[k]));
    }
}

/// A slot that consumers have already reserved past is skipped for good:
/// publishing into it no longer succeeds, so a stalled producer cannot put a
/// payload behind consumers that have moved on.
pub proof fn law_skipped_slot_stays_skipped<T>(queue: Leitio<T>, ticket: Ticket)
    requires
        queue.wf(),
        position_of(queue.ids(), ticket.segment) >= 0,
        ticket.index < queue.chain()[position_of(queue.ids(), ticket.segment)].deq(),
    ensures
        !queue.can_publish(ticket),
{
}

/// A reservation published before anything else happens to the queue acts as
/// an enqueue: the value lands at the end.
pub proof fn law_reserve_then_publish<T>(queue: Leitio<T>, ticket: Ticket, value: T)
    requires
        queue.wf(),
        queue.can_publish(ticket),
        queue.rank(ticket) == queue@.len(),
    ensures
        queue@.insert(queue.rank(ticket), value) == after_push(queue@, value),
{
    assert(queue@.insert(queue.rank(ticket), value) =~= queue@.push(value));
}

/// A claimed slot is empty afterwards: a second claim of the same slot, with
/// no store in between, returns nothing, so no payload is handed out twice.
pub proof fn law_claimed_once<T>(before: Segment<T>, after: Segment<T>, i: int)
    requires
        0 <= i < before.cells().len(),
        after.cells() == before.cells().update(i, None),
    ensures
        after.cells()[i] is None,
{
}

} // verus!
