//! Properties of the engine's queue model that hold across operations.

use vstd::prelude::*;

use crate::envelope::framed;
use crate::queue::{
    created, has_queue, names_unique, pending_of, popped, pushed, subscribed, subscribers_of,
    QueueModel,
};
use crate::subscriber::{count_true, lemma_survivors_len, survivors};

verus! {

/// `m` after pushing each of `ts` to `q` in turn, the `k`-th broadcast having
/// send outcomes `oks[k]`.
pub open spec fn push_all(
    m: Seq<QueueModel>,
    q: Seq<char>,
    ts: Seq<Seq<char>>,
    oks: Seq<Seq<bool>>,
) -> Seq<QueueModel>
    decreases ts.len(),
{
    if ts.len() == 0 {
        m
    } else {
        pushed(push_all(m, q, ts.drop_last(), oks.drop_last()), q, ts.last(), oks.last())
    }
}

/// `m` after `n` pops from `q`.
pub open spec fn pop_n(m: Seq<QueueModel>, q: Seq<char>, n: nat) -> Seq<QueueModel>
    decreases n,
{
    if n == 0 {
        m
    } else {
        popped(pop_n(m, q, (n - 1) as nat), q)
    }
}

proof fn lemma_lookup(m: Seq<QueueModel>, q: Seq<char>, i: int)
    requires
        names_unique(m),
        0 <= i < m.len(),
        m[i].name == q,
    ensures
        has_queue(m, q),
        pending_of(m, q) == m[i].pending,
        subscribers_of(m, q) == m[i].subscribers,
{
    let c = choose|j: int| 0 <= j < m.len() && m[j].name == q;
    assert(m[c].name == q);
}

proof fn lemma_names_kept(m: Seq<QueueModel>, m2: Seq<QueueModel>)
    requires
        names_unique(m),
        m2.len() == m.len(),
        forall|j: int| 0 <= j < m.len() ==> #[trigger] m2[j].name == m[j].name,
    ensures
        names_unique(m2),
        forall|q: Seq<char>| has_queue(m, q) ==> #[trigger] has_queue(m2, q),
{
    assert forall|q: Seq<char>| has_queue(m, q) implies #[trigger] has_queue(m2, q) by {
        let i = choose|i: int| 0 <= i < m.len() && m[i].name == q;
        assert(m2[i].name == q);
    }
}

/// A push adds its message at the back of its queue.
pub proof fn lemma_push_appends(m: Seq<QueueModel>, q: Seq<char>, t: Seq<char>, ok: Seq<bool>)
    requires
        names_unique(m),
        has_queue(m, q),
    ensures
        names_unique(pushed(m, q, t, ok)),
        has_queue(pushed(m, q, t, ok), q),
        pending_of(pushed(m, q, t, ok), q) == pending_of(m, q).push(t),
        subscribers_of(pushed(m, q, t, ok), q) == survivors(subscribers_of(m, q), ok, framed(t)),
{
    let m2 = pushed(m, q, t, ok);
    let i = choose|i: int| 0 <= i < m.len() && m[i].name == q;
    lemma_lookup(m, q, i);
    lemma_names_kept(m, m2);
    lemma_lookup(m2, q, i);
}

/// A pop takes the message at the front of its queue.
pub proof fn lemma_pop_takes_front(m: Seq<QueueModel>, q: Seq<char>)
    requires
        names_unique(m),
        has_queue(m, q),
    ensures
        names_unique(popped(m, q)),
        has_queue(popped(m, q), q),
        pending_of(popped(m, q), q) == pending_of(m, q).drop_first(),
{
    let m2 = popped(m, q);
    let i = choose|i: int| 0 <= i < m.len() && m[i].name == q;
    lemma_lookup(m, q, i);
    lemma_names_kept(m, m2);
    lemma_lookup(m2, q, i);
}

proof fn lemma_push_all(m: Seq<QueueModel>, q: Seq<char>, ts: Seq<Seq<char>>, oks: Seq<Seq<bool>>)
    requires
        names_unique(m),
        has_queue(m, q),
    ensures
        names_unique(push_all(m, q, ts, oks)),
        has_queue(push_all(m, q, ts, oks), q),
        pending_of(push_all(m, q, ts, oks), q) == pending_of(m, q) + ts,
    decreases ts.len(),
{
    if ts.len() > 0 {
        lemma_push_all(m, q, ts.drop_last(), oks.drop_last());
        lemma_push_appends(push_all(m, q, ts.drop_last(), oks.drop_last()), q, ts.last(), oks.last());
        assert(pending_of(m, q) + ts =~= (pending_of(m, q) + ts.drop_last()).push(ts.last()));
    } else {
        assert(pending_of(m, q) + ts =~= pending_of(m, q));
    }
}

proof fn lemma_pop_n(m: Seq<QueueModel>, q: Seq<char>, n: nat)
    requires
        names_unique(m),
        has_queue(m, q),
        n <= pending_of(m, q).len(),
    ensures
        names_unique(pop_n(m, q, n)),
        has_queue(pop_n(m, q, n), q),
        pending_of(pop_n(m, q, n), q) == pending_of(m, q).subrange(n as int, pending_of(m, q).len() as int),
    decreases n,
{
    if n > 0 {
        lemma_pop_n(m, q, (n - 1) as nat);
        lemma_pop_takes_front(pop_n(m, q, (n - 1) as nat), q);
        let p = pending_of(m, q);
        assert(p.subrange(n - 1, p.len() as int).drop_first() =~= p.subrange(n as int, p.len() as int));
    } else {
        let p = pending_of(m, q);
        assert(p.subrange(0, p.len() as int) =~= p);
    }
}

/// Messages pushed one after another to a queue with nothing pending come back
/// from successive pops in the order they were pushed, whatever the broadcasts
/// did; once every one is taken nothing is pending, so the next pop reports the
/// queue empty.
pub proof fn lemma_fifo(m: Seq<QueueModel>, q: Seq<char>, ts: Seq<Seq<char>>, oks: Seq<Seq<bool>>)
    requires
        names_unique(m),
        has_queue(m, q),
        pending_of(m, q).len() == 0,
    ensures
        forall|k: nat|
            #![trigger pop_n(push_all(m, q, ts, oks), q, k)]
            k < ts.len() ==> {
                let before = pop_n(push_all(m, q, ts, oks), q, k);
                &&& has_queue(before, q)
                &&& pending_of(before, q).len() > 0
                &&& pending_of(before, q)[0] == ts[k as int]
            },
        pending_of(pop_n(push_all(m, q, ts, oks), q, ts.len()), q).len() == 0,
{
    let full = push_all(m, q, ts, oks);
    lemma_push_all(m, q, ts, oks);
    assert(pending_of(full, q) =~= ts);
    assert forall|k: nat| #![trigger pop_n(full, q, k)] k < ts.len() implies {
        let before = pop_n(full, q, k);
        &&& has_queue(before, q)
        &&& pending_of(before, q).len() > 0
        &&& pending_of(before, q)[0] == ts[k as int]
    } by {
        lemma_pop_n(full, q, k);
    }
    lemma_pop_n(full, q, ts.len());
}

/// A queue that is absent is listed by no status row, since a status report
/// has one row per queue of the model, under its name.
pub proof fn lemma_absent_not_listed(m: Seq<QueueModel>, q: Seq<char>)
    requires
        !has_queue(m, q),
    ensures
        forall|i: int| 0 <= i < m.len() ==> #[trigger] m[i].name != q,
{
    assert forall|i: int| 0 <= i < m.len() implies #[trigger] m[i].name != q by {
        if m[i].name == q {
            assert(has_queue(m, q));
        }
    }
}

/// Pushing to a queue that did not exist, whose new segment held nothing,
/// leaves it listed with exactly one pending message.
pub proof fn lemma_create_then_one_pending(m: Seq<QueueModel>, q: Seq<char>, t: Seq<char>)
    requires
        names_unique(m),
        !has_queue(m, q),
    ensures
        has_queue(pushed(created(m, q, seq![]), q, t, seq![]), q),
        pending_of(pushed(created(m, q, seq![]), q, t, seq![]), q) == seq![t],
        pushed(created(m, q, seq![]), q, t, seq![]).len() == m.len() + 1,
{
    let c = created(m, q, seq![]);
    lemma_absent_not_listed(m, q);
    assert(c[m.len() as int].name == q);
    assert(names_unique(c)) by {
        assert forall|i: int, j: int| 0 <= i < j < c.len() implies #[trigger] c[i].name
            != #[trigger] c[j].name by {
            if j < m.len() {
                assert(c[i] == m[i] && c[j] == m[j]);
            } else {
                assert(c[i] == m[i]);
            }
        }
    }
    lemma_lookup(c, q, m.len() as int);
    lemma_push_appends(c, q, t, seq![]);
    assert(seq![].push(t) =~= seq![t]);
}

/// A subscriber that registered before a push, and whose channel took the
/// message, was sent exactly that push's framed envelope; one that registers
/// after the push has been sent nothing.
pub proof fn lemma_delivery_after_registration(
    m: Seq<QueueModel>,
    q: Seq<char>,
    t: Seq<char>,
    ok: Seq<bool>,
)
    requires
        names_unique(m),
        has_queue(m, q),
        ok.len() == subscribers_of(m, q).len() + 1,
        ok.last(),
    ensures
        subscribers_of(pushed(subscribed(m, q), q, t, ok), q).last() == seq![framed(t)],
        subscribers_of(subscribed(pushed(m, q, t, ok.drop_last()), q), q).last() == Seq::<
            Seq<u8>,
        >::empty(),
{
    let i = choose|i: int| 0 <= i < m.len() && m[i].name == q;
    lemma_lookup(m, q, i);
    let m1 = subscribed(m, q);
    lemma_names_kept(m, m1);
    lemma_lookup(m1, q, i);
    lemma_push_appends(m1, q, t, ok);
    let subs = subscribers_of(m1, q);
    assert(subs.last() == Seq::<Seq<u8>>::empty());
    assert(seq![].push(framed(t)) =~= seq![framed(t)]);
    let m2 = pushed(m, q, t, ok.drop_last());
    lemma_push_appends(m, q, t, ok.drop_last());
    let j = choose|j: int| 0 <= j < m2.len() && m2[j].name == q;
    lemma_lookup(m2, q, j);
    let m3 = subscribed(m2, q);
    lemma_names_kept(m2, m3);
    lemma_lookup(m3, q, j);
}

/// After a broadcast the queue keeps exactly the subscribers whose send
/// succeeded, so one whose channel was closed is no longer counted, and every
/// one kept was sent the message.
pub proof fn lemma_broadcast_prunes(subs: Seq<Seq<Seq<u8>>>, ok: Seq<bool>, msg: Seq<u8>)
    requires
        ok.len() == subs.len(),
    ensures
        survivors(subs, ok, msg).len() == count_true(ok),
        forall|k: int|
            0 <= k < survivors(subs, ok, msg).len() ==> (#[trigger] survivors(subs, ok, msg)[k]).len() > 0
                && survivors(subs, ok, msg)[k].last() == msg,
    decreases subs.len(),
{
    lemma_survivors_len(subs, ok, msg);
    if subs.len() > 0 {
        let n = subs.len() - 1;
        lemma_broadcast_prunes(subs.drop_last(), ok.take(n), msg);
    }
}

} // verus!
