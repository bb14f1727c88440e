//! Live subscribers: each is the sending half of an unbounded channel whose
//! receiving half streams to one client.

use vstd::prelude::*;
use tokio::sync::mpsc::{UnboundedReceiver, UnboundedSender};

verus! {

#[verifier::external_type_specification]
#[verifier::external_body]
#[verifier::reject_recursive_types(T)]
pub struct ExUnboundedSender<T>(UnboundedSender<T>);

#[verifier::external_type_specification]
#[verifier::external_body]
#[verifier::reject_recursive_types(T)]
pub struct ExUnboundedReceiver<T>(UnboundedReceiver<T>);

/// The messages a channel's sending half has queued for its receiver, oldest
/// first.
pub uninterp spec fn accepted(sender: UnboundedSender<Vec<u8>>) -> Seq<Seq<u8>>;

/// Relies on `tokio::sync::mpsc::unbounded_channel`: the two halves of a new
/// channel, which has queued nothing yet.
#[verifier::external_body]
fn open_channel() -> (r: (UnboundedSender<Vec<u8>>, UnboundedReceiver<Vec<u8>>))
    ensures
        accepted(r.0) == Seq::<Seq<u8>>::empty(),
{
    tokio::sync::mpsc::unbounded_channel()
}

/// Relies on `UnboundedSender::send`, which never waits: it queues `message`
/// for the receiver and succeeds, or, once the receiving half is gone, queues
/// nothing and fails. `true` when the message was queued.
#[verifier::external_body]
fn try_deliver(sender: &mut UnboundedSender<Vec<u8>>, message: Vec<u8>) -> (r: bool)
    ensures
        r ==> accepted(*final(sender)) == accepted(*old(sender)).push(message@),
        !r ==> accepted(*final(sender)) == accepted(*old(sender)),
{
    sender.send(message).is_ok()
}

/// The receiving end that a subscriber reads its messages from.
pub struct SubscriberChannel(pub UnboundedReceiver<Vec<u8>>);

/// One registered subscriber of a queue: the sending half of its channel.
pub struct Subscriber {
    sender: UnboundedSender<Vec<u8>>,
}

impl View for Subscriber {
    /// The messages queued to this subscriber's channel since it registered.
    type V = Seq<Seq<u8>>;

    closed spec fn view(&self) -> Seq<Seq<u8>> {
        accepted(self.sender)
    }
}

/// The entries of `xs` whose flag in `ok` holds, in order.
pub open spec fn kept<T>(xs: Seq<T>, ok: Seq<bool>) -> Seq<T>
    decreases xs.len(),
{
    if xs.len() == 0 {
        seq![]
    } else {
        let rest = kept(xs.drop_last(), ok.take(xs.len() - 1));
        if ok[xs.len() - 1] {
            rest.push(xs.last())
        } else {
            rest
        }
    }
}

/// The delivery logs of a subscriber list.
pub open spec fn logs(subs: Seq<Subscriber>) -> Seq<Seq<Seq<u8>>> {
    subs.map_values(|s: Subscriber| s@)
}

/// The subscribers left after a broadcast of `m` whose sends succeeded where
/// `ok` holds: the others are dropped, and each one kept has `m` added to its log.
pub open spec fn survivors(logs: Seq<Seq<Seq<u8>>>, ok: Seq<bool>, m: Seq<u8>) -> Seq<
    Seq<Seq<u8>>,
>
    decreases logs.len(),
{
    if logs.len() == 0 {
        seq![]
    } else {
        let rest = survivors(logs.drop_last(), ok.take(logs.len() - 1), m);
        if ok[logs.len() - 1] {
            rest.push(logs.last().push(m))
        } else {
            rest
        }
    }
}

/// When every send succeeded, every subscriber stays and gets the message.
pub proof fn lemma_survivors_all(logs: Seq<Seq<Seq<u8>>>, ok: Seq<bool>, m: Seq<u8>)
    requires
        ok.len() == logs.len(),
        forall|i: int| 0 <= i < ok.len() ==> #[trigger] ok[i],
    ensures
        survivors(logs, ok, m) == logs.map_values(|l: Seq<Seq<u8>>| l.push(m)),
    decreases logs.len(),
{
    if logs.len() > 0 {
        let n = logs.len() - 1;
        lemma_survivors_all(logs.drop_last(), ok.take(n), m);
        assert(survivors(logs, ok, m) =~= logs.map_values(|l: Seq<Seq<u8>>| l.push(m)));
    } else {
        assert(survivors(logs, ok, m) =~= logs.map_values(|l: Seq<Seq<u8>>| l.push(m)));
    }
}

/// The number of successful sends among `ok`.
pub open spec fn count_true(ok: Seq<bool>) -> nat
    decreases ok.len(),
{
    if ok.len() == 0 {
        0
    } else {
        count_true(ok.drop_last()) + if ok.last() {
            1nat
        } else {
            0nat
        }
    }
}

/// A broadcast keeps exactly the subscribers whose send succeeded.
pub proof fn lemma_survivors_len(logs: Seq<Seq<Seq<u8>>>, ok: Seq<bool>, m: Seq<u8>)
    requires
        ok.len() == logs.len(),
    ensures
        survivors(logs, ok, m).len() == count_true(ok),
    decreases logs.len(),
{
    if logs.len() > 0 {
        let n = logs.len() - 1;
        lemma_survivors_len(logs.drop_last(), ok.take(n), m);
        assert(ok.take(n) =~= ok.drop_last());
    }
}

/// Adds a subscriber to `subscribers` and hands back its receiving end.
pub fn register(subscribers: &mut Vec<Subscriber>) -> (r: SubscriberChannel)
    ensures
        logs(final(subscribers)@) == logs(old(subscribers)@).push(Seq::<Seq<u8>>::empty()),
{
    let (sender, receiver) = open_channel();
    subscribers.push(Subscriber { sender });
    assert(logs(subscribers@) =~= logs(old(subscribers)@).push(Seq::<Seq<u8>>::empty()));
    SubscriberChannel(receiver)
}

/// Sends `message` to every subscriber without waiting, then keeps only those
/// whose send succeeded, moving each kept sender into a new list, in order; the
/// list is replaced only when a send failed. Hands back the outcome of each
/// send, in list order.
pub fn broadcast(subscribers: &mut Vec<Subscriber>, message: &Vec<u8>) -> (ok: Vec<bool>)
    ensures
        ok@.len() == old(subscribers)@.len(),
        logs(final(subscribers)@) == survivors(logs(old(subscribers)@), ok@, message@),
        exists|sent: Seq<Subscriber>|
            {
                &&& sent.len() == old(subscribers)@.len()
                &&& forall|i: int|
                    0 <= i < sent.len() ==> #[trigger] sent[i]@ == if ok@[i] {
                        old(subscribers)@[i]@.push(message@)
                    } else {
                        old(subscribers)@[i]@
                    }
                &&& final(subscribers)@ == kept(sent, ok@)
                &&& (forall|i: int| 0 <= i < ok@.len() ==> #[trigger] ok@[i])
                    ==> final(subscribers)@ == sent
            },
{
    let ghost before = logs(subscribers@);
    let ghost m = message@;
    let mut ok: Vec<bool> = Vec::new();
    let mut all_ok: bool = true;
    let mut i: usize = 0;
    while i < subscribers.len()
        invariant
            subscribers@.len() == before.len(),
            i <= before.len(),
            ok@.len() == i,
            m == message@,
            all_ok <==> forall|j: int| 0 <= j < i ==> #[trigger] ok@[j],
            forall|j: int|
                0 <= j < before.len() ==> #[trigger] subscribers@[j]@ == if j < i && ok@[j] {
                    before[j].push(m)
                } else {
                    before[j]
                },
        decreases before.len() - i,
    {
        let ghost prev = ok@;
        let ghost prev_all = all_ok;
        let ghost pre = subscribers@;
        let sent = try_deliver(&mut subscribers[i].sender, message.clone());
        proof {
            assert forall|j: int| 0 <= j < before.len() && j != i implies subscribers@[j]
                == pre[j] by {}
            assert(subscribers@[i as int]@ == if sent {
                pre[i as int]@.push(m)
            } else {
                pre[i as int]@
            });
        }
        if !sent {
            all_ok = false;
        }
        ok.push(sent);
        proof {
            assert(ok@[i as int] == sent);
            assert forall|j: int| 0 <= j < i implies ok@[j] == prev[j] by {}
            if !prev_all {
                let w = choose|j: int| 0 <= j < i && !prev[j];
                assert(!ok@[w]);
            }
        }
        i = i + 1;
    }
    let ghost sent_list = subscribers@;
    if all_ok {
        proof {
            lemma_survivors_all(before, ok@, m);
            assert(logs(subscribers@) =~= before.map_values(|l: Seq<Seq<u8>>| l.push(m)));
            lemma_kept_all(sent_list, ok@);
        }
        return ok;
    }
    let mut rest: Vec<Subscriber> = Vec::new();
    std::mem::swap(subscribers, &mut rest);
    let mut retained: Vec<Subscriber> = Vec::new();
    let mut j: usize = 0;
    while j < ok.len()
        invariant
            sent_list.len() == before.len(),
            ok@.len() == before.len(),
            j <= before.len(),
            rest@ == sent_list.subrange(j as int, sent_list.len() as int),
            forall|a: int|
                0 <= a < before.len() ==> #[trigger] sent_list[a]@ == if ok@[a] {
                    before[a].push(m)
                } else {
                    before[a]
                },
            retained@ == kept(sent_list.take(j as int), ok@.take(j as int)),
            logs(retained@) == survivors(before.take(j as int), ok@.take(j as int), m),
        decreases before.len() - j,
    {
        let s = rest.remove(0);
        assert(s == sent_list[j as int]);
        if ok[j] {
            retained.push(s);
        }
        proof {
            let t = before.take(j + 1);
            assert(t.drop_last() =~= before.take(j as int));
            assert(sent_list.take(j + 1).drop_last() =~= sent_list.take(j as int));
            assert(ok@.take(j + 1).take(j as int) =~= ok@.take(j as int));
            assert(retained@ =~= kept(sent_list.take(j + 1), ok@.take(j + 1)));
            assert(logs(retained@) =~= survivors(t, ok@.take(j + 1), m));
            assert(rest@ =~= sent_list.subrange(j + 1, sent_list.len() as int));
        }
        j = j + 1;
    }
    *subscribers = retained;
    proof {
        assert(before.take(before.len() as int) =~= before);
        assert(ok@.take(before.len() as int) =~= ok@);
        assert(sent_list.take(before.len() as int) =~= sent_list);
    }
    ok
}

/// Keeping every entry keeps the list as it is.
pub proof fn lemma_kept_all<T>(xs: Seq<T>, ok: Seq<bool>)
    requires
        ok.len() == xs.len(),
        forall|i: int| 0 <= i < ok.len() ==> #[trigger] ok[i],
    ensures
        kept(xs, ok) == xs,
    decreases xs.len(),
{
    if xs.len() > 0 {
        lemma_kept_all(xs.drop_last(), ok.take(xs.len() - 1));
        assert(xs.drop_last().push(xs.last()) =~= xs);
    }
}

} // verus!
