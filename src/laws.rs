use crate::ring::{pop_model, push_model};
use vstd::prelude::*;

verus! {

/// One operation on the ring, as seen by its contracts.
pub enum RingOp {
    Push(Seq<u8>),
    Pop,
}

/// The queue after `op`, on a queue holding `q` with room for `cap`.
pub open spec fn apply_op(q: Seq<Seq<u8>>, cap: nat, op: RingOp) -> Seq<Seq<u8>> {
    match op {
        RingOp::Push(x) => push_model(q, cap, x),
        RingOp::Pop => pop_model(q),
    }
}

/// The queue after every operation of `ops`, in order.
pub open spec fn run_ops(q: Seq<Seq<u8>>, cap: nat, ops: Seq<RingOp>) -> Seq<Seq<u8>>
    decreases ops.len(),
{
    if ops.len() == 0 {
        q
    } else {
        run_ops(apply_op(q, cap, ops[0]), cap, ops.drop_first())
    }
}

/// The packets that the pops of `ops` return, in order.
pub open spec fn popped(q: Seq<Seq<u8>>, cap: nat, ops: Seq<RingOp>) -> Seq<Seq<u8>>
    decreases ops.len(),
{
    if ops.len() == 0 {
        Seq::empty()
    } else {
        let first = match ops[0] {
            RingOp::Pop => if q.len() > 0 {
                seq![q[0]]
            } else {
                Seq::empty()
            },
            RingOp::Push(_) => Seq::empty(),
        };
        first + popped(apply_op(q, cap, ops[0]), cap, ops.drop_first())
    }
}

/// The packets that the pushes of `ops` get into the queue, in order.
pub open spec fn accepted(q: Seq<Seq<u8>>, cap: nat, ops: Seq<RingOp>) -> Seq<Seq<u8>>
    decreases ops.len(),
{
    if ops.len() == 0 {
        Seq::empty()
    } else {
        let first = match ops[0] {
            RingOp::Push(x) => if q.len() < cap {
                seq![x]
            } else {
                Seq::empty()
            },
            RingOp::Pop => Seq::empty(),
        };
        first + accepted(apply_op(q, cap, ops[0]), cap, ops.drop_first())
    }
}

/// The packets that the pushes of `ops` get handed back, in order.
pub open spec fn rejected(q: Seq<Seq<u8>>, cap: nat, ops: Seq<RingOp>) -> Seq<Seq<u8>>
    decreases ops.len(),
{
    if ops.len() == 0 {
        Seq::empty()
    } else {
        let first = match ops[0] {
            RingOp::Push(x) => if q.len() < cap {
                Seq::empty()
            } else {
                seq![x]
            },
            RingOp::Pop => Seq::empty(),
        };
        first + rejected(apply_op(q, cap, ops[0]), cap, ops.drop_first())
    }
}

/// The packets that `ops` offers to the ring, in order.
pub open spec fn offered(ops: Seq<RingOp>) -> Seq<Seq<u8>>
    decreases ops.len(),
{
    if ops.len() == 0 {
        Seq::empty()
    } else {
        let first = match ops[0] {
            RingOp::Push(x) => seq![x],
            RingOp::Pop => Seq::empty(),
        };
        first + offered(ops.drop_first())
    }
}

/// Nothing is lost, duplicated or reordered: what the queue held, followed
/// by what it accepted, is exactly what was popped followed by what it
/// still holds; the queue never holds more than its capacity; and every
/// offered packet is either accepted or handed back whole.
pub proof fn lemma_conservation(q: Seq<Seq<u8>>, cap: nat, ops: Seq<RingOp>)
    requires
        q.len() <= cap,
    ensures
        q + accepted(q, cap, ops) == popped(q, cap, ops) + run_ops(q, cap, ops),
        run_ops(q, cap, ops).len() <= cap,
        accepted(q, cap, ops).len() + rejected(q, cap, ops).len() == offered(ops).len(),
    decreases ops.len(),
{
    if ops.len() > 0 {
        let q1 = apply_op(q, cap, ops[0]);
        let rest = ops.drop_first();
        lemma_conservation(q1, cap, rest);
        match ops[0] {
            RingOp::Push(x) => {
                if q.len() < cap {
                    assert(q + accepted(q, cap, ops) =~= q1 + accepted(q1, cap, rest));
                } else {
                    assert(accepted(q, cap, ops) =~= accepted(q1, cap, rest));
                }
                assert(popped(q, cap, ops) =~= popped(q1, cap, rest));
            },
            RingOp::Pop => {
                if q.len() > 0 {
                    assert(q =~= seq![q[0]] + q1);
                    assert(popped(q, cap, ops) =~= seq![q[0]] + popped(q1, cap, rest));
                    assert(q + accepted(q, cap, ops) =~= seq![q[0]] + (q1 + accepted(
                        q1,
                        cap,
                        rest,
                    )));
                } else {
                    assert(popped(q, cap, ops) =~= popped(q1, cap, rest));
                }
                assert(accepted(q, cap, ops) =~= accepted(q1, cap, rest));
            },
        }
    } else {
        assert(q + accepted(q, cap, ops) =~= q);
        assert(popped(q, cap, ops) + q =~= q);
    }
}

/// One push of each packet of `items`, in order.
pub open spec fn pushes(items: Seq<Seq<u8>>) -> Seq<RingOp>
    decreases items.len(),
{
    if items.len() == 0 {
        Seq::empty()
    } else {
        seq![RingOp::Push(items[0])] + pushes(items.drop_first())
    }
}

/// A push of each packet of `items`, each followed at once by a pop.
pub open spec fn push_pop_pairs(items: Seq<Seq<u8>>) -> Seq<RingOp>
    decreases items.len(),
{
    if items.len() == 0 {
        Seq::empty()
    } else {
        seq![RingOp::Push(items[0]), RingOp::Pop] + push_pop_pairs(items.drop_first())
    }
}

/// Pushing each packet and popping right after, on an empty queue of any
/// positive capacity, pops the packets in the order they were pushed and
/// leaves the queue empty, however many rounds are made.
pub proof fn lemma_push_pop_in_order(cap: nat, items: Seq<Seq<u8>>)
    requires
        cap > 0,
    ensures
        popped(Seq::empty(), cap, push_pop_pairs(items)) == items,
        run_ops(Seq::empty(), cap, push_pop_pairs(items)) == Seq::<Seq<u8>>::empty(),
    decreases items.len(),
{
    let e = Seq::<Seq<u8>>::empty();
    let ops = push_pop_pairs(items);
    if items.len() > 0 {
        let x = items[0];
        let rest = push_pop_pairs(items.drop_first());
        lemma_push_pop_in_order(cap, items.drop_first());
        assert(ops.drop_first() =~= seq![RingOp::Pop] + rest);
        assert((seq![RingOp::Pop] + rest).drop_first() =~= rest);
        assert(apply_op(e, cap, ops[0]) =~= seq![x]);
        assert(apply_op(seq![x], cap, RingOp::Pop) =~= e);
        assert(popped(e, cap, ops) =~= popped(seq![x], cap, seq![RingOp::Pop] + rest));
        assert(popped(seq![x], cap, seq![RingOp::Pop] + rest) =~= seq![x] + popped(e, cap, rest));
        assert(items =~= seq![x] + items.drop_first());
        assert(run_ops(e, cap, ops) == run_ops(seq![x], cap, seq![RingOp::Pop] + rest));
        assert(run_ops(seq![x], cap, seq![RingOp::Pop] + rest) == run_ops(e, cap, rest));
    } else {
        assert(popped(e, cap, ops) =~= items);
    }
}

/// Pushes into a queue with room for all of them are all accepted and land
/// at the back in order.
pub proof fn lemma_pushes_with_room(q: Seq<Seq<u8>>, cap: nat, items: Seq<Seq<u8>>)
    requires
        q.len() + items.len() <= cap,
    ensures
        run_ops(q, cap, pushes(items)) == q + items,
        accepted(q, cap, pushes(items)) == items,
        rejected(q, cap, pushes(items)) == Seq::<Seq<u8>>::empty(),
    decreases items.len(),
{
    let ops = pushes(items);
    if items.len() > 0 {
        let q1 = q.push(items[0]);
        lemma_pushes_with_room(q1, cap, items.drop_first());
        assert(ops.drop_first() =~= pushes(items.drop_first()));
        assert(q1 + items.drop_first() =~= q + items);
        assert(items =~= seq![items[0]] + items.drop_first());
        assert(rejected(q, cap, ops) =~= rejected(q1, cap, pushes(items.drop_first())));
    } else {
        assert(q + items =~= q);
        assert(accepted(q, cap, ops) =~= items);
    }
}

/// Once the queue is full, every further push is handed back and the queue
/// stays as it was; a single pop then makes room again.
pub proof fn lemma_full_queue_rejects(q: Seq<Seq<u8>>, cap: nat, items: Seq<Seq<u8>>)
    requires
        q.len() == cap,
    ensures
        run_ops(q, cap, pushes(items)) == q,
        accepted(q, cap, pushes(items)) == Seq::<Seq<u8>>::empty(),
        rejected(q, cap, pushes(items)) == items,
        cap > 0 ==> pop_model(q).len() < cap,
    decreases items.len(),
{
    let ops = pushes(items);
    if items.len() > 0 {
        lemma_full_queue_rejects(q, cap, items.drop_first());
        assert(ops.drop_first() =~= pushes(items.drop_first()));
        assert(items =~= seq![items[0]] + items.drop_first());
        assert(accepted(q, cap, ops) =~= accepted(q, cap, pushes(items.drop_first())));
    } else {
        assert(rejected(q, cap, ops) =~= items);
    }
}

/// On an empty queue of capacity `cap`: `cap` pushes all succeed, the next
/// is refused, a pop returns the first packet, and a push after it
/// succeeds.
pub proof fn lemma_capacity_boundary(
    cap: nat,
    items: Seq<Seq<u8>>,
    extra: Seq<u8>,
    late: Seq<u8>,
)
    requires
        cap > 0,
        items.len() == cap,
    ensures
        accepted(Seq::empty(), cap, pushes(items)) == items,
        run_ops(Seq::empty(), cap, pushes(items)) == items,
        push_model(items, cap, extra) == items,
        pop_model(items) == items.drop_first(),
        pop_model(items).len() < cap,
        push_model(pop_model(items), cap, late) == items.drop_first().push(late),
{
    lemma_pushes_with_room(Seq::empty(), cap, items);
    assert(Seq::<Seq<u8>>::empty() + items =~= items);
}

/// Each push of `ops` is either accepted or handed back, in order.
proof fn lemma_offered_split(q: Seq<Seq<u8>>, cap: nat, ops: Seq<RingOp>)
    ensures
        rejected(q, cap, ops).len() == 0 ==> accepted(q, cap, ops) == offered(ops),
    decreases ops.len(),
{
    if ops.len() > 0 {
        lemma_offered_split(apply_op(q, cap, ops[0]), cap, ops.drop_first());
    } else {
        assert(accepted(q, cap, ops) =~= offered(ops));
    }
}

/// With one producer and one consumer taking turns in any interleaving on
/// an initially empty queue: if no push is refused, and the consumer has
/// popped as many packets as were pushed, then it received exactly the
/// pushed packets, once each and in push order, and the queue is empty.
pub proof fn lemma_delivery_without_loss(cap: nat, ops: Seq<RingOp>)
    requires
        rejected(Seq::empty(), cap, ops).len() == 0,
        popped(Seq::empty(), cap, ops).len() == offered(ops).len(),
    ensures
        popped(Seq::empty(), cap, ops) == offered(ops),
        run_ops(Seq::empty(), cap, ops) == Seq::<Seq<u8>>::empty(),
{
    let e = Seq::<Seq<u8>>::empty();
    lemma_conservation(e, cap, ops);
    lemma_offered_split(e, cap, ops);
    assert(e + accepted(e, cap, ops) =~= offered(ops));
    let p = popped(e, cap, ops);
    let r = run_ops(e, cap, ops);
    assert((p + r).len() == p.len() + r.len());
    assert(r.len() == 0);
    assert(r =~= e);
    assert(p + r =~= p);
}

} // verus!
