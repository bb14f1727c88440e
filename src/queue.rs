//! The queue engine: named FIFO queues backed by the durable log, mirrored in
//! memory, and fanned out to live subscribers.

use vstd::prelude::*;
use vstd::string::*;
use std::collections::VecDeque;

use crate::envelope::{envelope_json, frame, framed, json_string, QueueMessageEnvelope};
use crate::error::QueueError;
use crate::persistence::{mirrors, PersistenceManager};
use crate::subscriber::{broadcast, logs, register, survivors, Subscriber, SubscriberChannel};

verus! {

/// What the engine knows of one queue.
pub struct QueueModel {
    pub name: Seq<char>,
    /// Serialized envelopes not yet popped, oldest first.
    pub pending: Seq<Seq<char>>,
    /// For each live subscriber, in registration order, what it was sent.
    pub subscribers: Seq<Seq<Seq<u8>>>,
}

/// Queue `q` is known in `m`.
pub open spec fn has_queue(m: Seq<QueueModel>, q: Seq<char>) -> bool {
    exists|i: int| 0 <= i < m.len() && m[i].name == q
}

/// No two queues of `m` share a name.
pub open spec fn names_unique(m: Seq<QueueModel>) -> bool {
    forall|i: int, j: int| 0 <= i < j < m.len() ==> #[trigger] m[i].name != #[trigger] m[j].name
}

/// Every queue of `m` is named in `names`.
pub open spec fn named_in(m: Seq<QueueModel>, names: Seq<String>) -> bool {
    forall|j: int|
        0 <= j < m.len() ==> names.map_values(|s: String| s@).contains(#[trigger] m[j].name)
}

/// `m` with queue `q` added, holding the records `l` its segment already had.
pub open spec fn created(m: Seq<QueueModel>, q: Seq<char>, l: Seq<Seq<char>>) -> Seq<QueueModel> {
    m.push(QueueModel { name: q, pending: l, subscribers: seq![] })
}

/// `m` after `t` was appended to queue `q` and broadcast with send outcomes `ok`.
pub open spec fn pushed(m: Seq<QueueModel>, q: Seq<char>, t: Seq<char>, ok: Seq<bool>) -> Seq<
    QueueModel,
> {
    m.map_values(
        |e: QueueModel|
            if e.name == q {
                QueueModel {
                    name: e.name,
                    pending: e.pending.push(t),
                    subscribers: survivors(e.subscribers, ok, framed(t)),
                }
            } else {
                e
            },
    )
}

/// `after` is `before` once `t` was pushed to `q`, whatever the sends of its
/// broadcast did; a queue that was absent was first added with the records
/// its segment held.
pub open spec fn push_outcome(
    before: Seq<QueueModel>,
    after: Seq<QueueModel>,
    q: Seq<char>,
    t: Seq<char>,
) -> bool {
    if has_queue(before, q) {
        exists|ok: Seq<bool>|
            ok.len() == subscribers_of(before, q).len() && after == #[trigger] pushed(before, q, t, ok)
    } else {
        exists|l: Seq<Seq<char>>| after == #[trigger] pushed(created(before, q, l), q, t, seq![])
    }
}

/// `m` after the oldest message of queue `q` was taken.
pub open spec fn popped(m: Seq<QueueModel>, q: Seq<char>) -> Seq<QueueModel> {
    m.map_values(
        |e: QueueModel|
            if e.name == q {
                QueueModel { name: e.name, pending: e.pending.drop_first(), subscribers: e.subscribers }
            } else {
                e
            },
    )
}

/// `m` after a new subscriber registered with queue `q`.
pub open spec fn subscribed(m: Seq<QueueModel>, q: Seq<char>) -> Seq<QueueModel> {
    m.map_values(
        |e: QueueModel|
            if e.name == q {
                QueueModel { name: e.name, pending: e.pending, subscribers: e.subscribers.push(seq![]) }
            } else {
                e
            },
    )
}

/// The pending messages of queue `q` in `m`.
pub open spec fn pending_of(m: Seq<QueueModel>, q: Seq<char>) -> Seq<Seq<char>> {
    m[choose|i: int| 0 <= i < m.len() && m[i].name == q].pending
}

/// The delivery logs of the live subscribers of queue `q` in `m`.
pub open spec fn subscribers_of(m: Seq<QueueModel>, q: Seq<char>) -> Seq<Seq<Seq<u8>>> {
    m[choose|i: int| 0 <= i < m.len() && m[i].name == q].subscribers
}

/// The decimal digits of `n`.
pub open spec fn decimal(n: nat) -> Seq<char>
    decreases n,
{
    if n < 10 {
        seq!['0', '1', '2', '3', '4', '5', '6', '7', '8', '9'].subrange(n as int, n + 1 as int)
    } else {
        decimal(n / 10) + seq!['0', '1', '2', '3', '4', '5', '6', '7', '8', '9'].subrange(
            (n % 10) as int,
            (n % 10) as int + 1,
        )
    }
}

/// The JSON row `[name,pending,subscribers]`.
pub open spec fn row_json(name: Seq<char>, pending: nat, subscribers: nat) -> Seq<char> {
    "["@ + json_string(name) + ","@ + decimal(pending) + ","@ + decimal(subscribers) + "]"@
}

/// The parts separated by commas.
pub open spec fn joined(parts: Seq<Seq<char>>) -> Seq<char>
    decreases parts.len(),
{
    if parts.len() == 0 {
        seq![]
    } else if parts.len() == 1 {
        parts[0]
    } else {
        joined(parts.drop_last()) + ","@ + parts.last()
    }
}

/// The JSON array of status rows of a set of queues.
pub open spec fn status_json(m: Seq<QueueModel>) -> Seq<char> {
    "["@ + joined(
        m.map_values(|e: QueueModel| row_json(e.name, e.pending.len(), e.subscribers.len())),
    ) + "]"@
}

/// The JSON array of the given status rows.
pub open spec fn rows_json(rows: Seq<QueueStatus>) -> Seq<char> {
    "["@ + joined(
        rows.map_values(|r: QueueStatus| row_json(r.name@, r.pending as nat, r.subscribers as nat)),
    ) + "]"@
}

/// The JSON array of status rows given as `(name, pending, subscribers)`.
pub open spec fn tuples_json(rows: Seq<(String, usize, usize)>) -> Seq<char> {
    "["@ + joined(
        rows.map_values(|r: (String, usize, usize)| row_json(r.0@, r.1 as nat, r.2 as nat)),
    ) + "]"@
}

/// Relies on `serde_json::to_string` on a list of `(String, usize, usize)`: a
/// JSON array of three-element arrays, strings escaped and integers in decimal,
/// with no spaces; it writes into a `Vec` and holds no map, so it cannot fail.
#[verifier::external_body]
fn rows_to_json(rows: &Vec<(String, usize, usize)>) -> (r: Result<String, serde_json::Error>)
    ensures
        r is Ok,
        r matches Ok(t) ==> t@ == tuples_json(rows@),
{
    serde_json::to_string(rows)
}

/// The JSON array `[[name,pending,subscribers],...]` of status rows.
pub fn status_text(rows: &Vec<QueueStatus>) -> (r: String)
    ensures
        r@ == rows_json(rows@),
{
    let mut tuples: Vec<(String, usize, usize)> = Vec::new();
    let mut i: usize = 0;
    while i < rows.len()
        invariant
            i <= rows@.len(),
            tuples@.len() == i,
            forall|a: int|
                0 <= a < i ==> (#[trigger] tuples@[a]).0@ == rows@[a].name@ && tuples@[a].1
                    == rows@[a].pending && tuples@[a].2 == rows@[a].subscribers,
        decreases rows@.len() - i,
    {
        tuples.push((rows[i].name.clone(), rows[i].pending, rows[i].subscribers));
        i = i + 1;
    }
    assert(tuples@.map_values(
        |r: (String, usize, usize)| row_json(r.0@, r.1 as nat, r.2 as nat),
    ) =~= rows@.map_values(
        |r: QueueStatus| row_json(r.name@, r.pending as nat, r.subscribers as nat),
    ));
    match rows_to_json(&tuples) {
        Ok(t) => t,
        Err(_) => String::new(),
    }
}

/// One row of a status report.
pub struct QueueStatus {
    pub name: String,
    pub pending: usize,
    pub subscribers: usize,
}

struct QueueSlot {
    name: String,
    messages: VecDeque<String>,
    subscribers: Vec<Subscriber>,
}

impl QueueSlot {
    spec fn model(&self) -> QueueModel {
        QueueModel {
            name: self.name@,
            pending: self.messages@.map_values(|s: String| s@),
            subscribers: logs(self.subscribers@),
        }
    }
}

spec fn slots_view(slots: Seq<QueueSlot>) -> Seq<QueueModel> {
    slots.map_values(|s: QueueSlot| s.model())
}

spec fn slots_wf(slots: Seq<QueueSlot>, stored: Map<Seq<char>, Seq<Seq<char>>>) -> bool {
    &&& forall|i: int, j: int|
        0 <= i < j < slots.len() ==> #[trigger] slots[i].name@ != #[trigger] slots[j].name@
    &&& forall|i: int|
        0 <= i < slots.len() ==> stored.contains_key(#[trigger] slots[i].name@)
            && stored[slots[i].name@] == slots[i].model().pending
    &&& forall|k: Seq<char>|
        #[trigger] stored.contains_key(k) ==> exists|i: int| 0 <= i < slots.len() && slots[i].name@ == k
}

proof fn lemma_replace_slot(
    slots: Seq<QueueSlot>,
    stored: Map<Seq<char>, Seq<Seq<char>>>,
    i: int,
    slot: QueueSlot,
)
    requires
        slots_wf(slots, stored),
        0 <= i < slots.len(),
        slot.name@ == slots[i].name@,
    ensures
        slots_wf(slots.update(i, slot), stored.insert(slot.name@, slot.model().pending)),
        slots_view(slots.update(i, slot)) == slots_view(slots).update(i, slot.model()),
{
    let s2 = slots.update(i, slot);
    let st2 = stored.insert(slot.name@, slot.model().pending);
    assert forall|j: int| 0 <= j < s2.len() implies st2.contains_key(#[trigger] s2[j].name@)
        && st2[s2[j].name@] == s2[j].model().pending by {
        if j != i {
            assert(slots[j].name@ != slots[i].name@);
        }
    }
    assert forall|k: Seq<char>| #[trigger] st2.contains_key(k) implies exists|j: int|
        0 <= j < s2.len() && s2[j].name@ == k by {
        if k == slot.name@ {
            assert(s2[i].name@ == k);
        } else {
            assert(stored.contains_key(k));
            let j = choose|j: int| 0 <= j < slots.len() && slots[j].name@ == k;
            assert(s2[j].name@ == k);
        }
    }
    assert(slots_view(s2) =~= slots_view(slots).update(i, slot.model()));
}

/// The broker's state: every known queue, its durable log and its subscribers.
pub struct QueueManager {
    queues: Vec<QueueSlot>,
    persistence_manager: PersistenceManager,
}

impl View for QueueManager {
    type V = Seq<QueueModel>;

    closed spec fn view(&self) -> Seq<QueueModel> {
        slots_view(self.queues@)
    }
}

impl QueueManager {
    /// The queues whose durable segment had a write fail; their pushes and
    /// pops fail with `StorageWrite` until the engine is rebuilt.
    pub closed spec fn failed(&self) -> Set<Seq<char>> {
        self.persistence_manager.failed()
    }

    /// What the durable store of queue `q` holds.
    pub closed spec fn store_of(&self, q: Seq<char>) -> Map<Seq<u8>, Seq<u8>> {
        self.persistence_manager.store_of(q)
    }

    /// The durable store of every queue whose writes have not failed holds
    /// exactly the queue's pending messages under increasing sequence numbers,
    /// which is what reopening reads back (`lemma_reload_is_exact`).
    pub proof fn lemma_pending_is_stored(&self, q: Seq<char>)
        requires
            self.wf(),
            has_queue(self@, q),
            !self.failed().contains(q),
        ensures
            exists|ids: Seq<u64>| mirrors(self.store_of(q), ids, pending_of(self@, q)),
    {
        let i = choose|i: int| 0 <= i < self@.len() && self@[i].name == q;
        self.lemma_index_of(q, i);
        assert(self.persistence_manager@.contains_key(self.queues@[i].name@));
        assert(self.persistence_manager@[q] == self.queues@[i].model().pending);
        assert(self@[i] == self.queues@[i].model());
        self.persistence_manager.lemma_store_mirrors(q);
        let ids = choose|ids: Seq<u64>|
            mirrors(self.persistence_manager.store_of(q), ids, self.persistence_manager@[q]);
        assert(mirrors(self.store_of(q), ids, pending_of(self@, q)));
    }

    /// The root directory of the engine's durable log.
    pub closed spec fn root(&self) -> Seq<char> {
        self.persistence_manager.root()
    }

    /// The directory the durable segment of queue `q` was opened in.
    pub closed spec fn path_of(&self, q: Seq<char>) -> Seq<char> {
        self.persistence_manager.path_of(q)
    }

    /// Every queue's durable segment lives in the subdirectory of the root
    /// named after the queue.
    pub proof fn lemma_segment_path(&self, q: Seq<char>)
        requires
            self.wf(),
            has_queue(self@, q),
        ensures
            self.path_of(q) == self.root() + "/"@ + q,
    {
        let i = choose|i: int| 0 <= i < self@.len() && self@[i].name == q;
        self.lemma_index_of(q, i);
        assert(self.persistence_manager@.contains_key(self.queues@[i].name@));
        self.persistence_manager.lemma_segment_path(q);
    }

    /// The names of an engine's queues are distinct.
    pub proof fn lemma_names_unique(&self)
        requires
            self.wf(),
        ensures
            names_unique(self@),
    {
        assert forall|i: int, j: int| 0 <= i < j < self@.len() implies #[trigger] self@[i].name
            != #[trigger] self@[j].name by {
            assert(self.queues@[i].name@ != self.queues@[j].name@);
        }
    }

    pub closed spec fn wf(&self) -> bool {
        &&& self.persistence_manager.wf()
        &&& slots_wf(self.queues@, self.persistence_manager@)
    }

    fn find(&self, queue_name: &String) -> (r: Option<usize>)
        requires
            self.wf(),
        ensures
            r matches Some(i) ==> i < self@.len() && self@[i as int].name == queue_name@,
            r is None <==> !has_queue(self@, queue_name@),
    {
        let mut i: usize = 0;
        while i < self.queues.len()
            invariant
                i <= self.queues@.len(),
                forall|a: int| 0 <= a < i ==> self.queues@[a].name@ != queue_name@,
            decreases self.queues@.len() - i,
        {
            if self.queues[i].name == *queue_name {
                assert(self@[i as int].name == queue_name@);
                return Some(i);
            }
            i = i + 1;
        }
        proof {
            if has_queue(self@, queue_name@) {
                let a = choose|a: int| 0 <= a < self@.len() && self@[a].name == queue_name@;
                assert(self.queues@[a].name@ == self@[a].name);
            }
        }
        None
    }

    /// Opens the durable segment of a queue the engine does not know yet and
    /// adds the queue, holding whatever records the segment had.
    #[verifier::spinoff_prover]
    fn create_queue(&mut self, queue_name: String) -> (r: Result<usize, QueueError>)
        requires
            old(self).wf(),
            !has_queue(old(self)@, queue_name@),
        ensures
            final(self).wf(),
            r matches Ok(i) ==> i == old(self)@.len() && exists|l: Seq<Seq<char>>|
                final(self)@ == created(old(self)@, queue_name@, l),
            r matches Err(e) ==> final(self)@ == old(self)@ && e == QueueError::StorageOpen,
            final(self).failed() == old(self).failed(),
            final(self).root() == old(self).root(),
    {
        proof {
            if self.persistence_manager@.contains_key(queue_name@) {
                let i = choose|i: int|
                    0 <= i < self.queues@.len() && self.queues@[i].name@ == queue_name@;
                assert(self@[i].name == queue_name@);
            }
        }
        let texts = match self.persistence_manager.open_segment(queue_name.clone()) {
            Ok(t) => t,
            Err(e) => return Err(e),
        };
        let mut messages: VecDeque<String> = VecDeque::new();
        let mut k: usize = 0;
        while k < texts.len()
            invariant
                k <= texts@.len(),
                messages@ == texts@.take(k as int),
            decreases texts@.len() - k,
        {
            messages.push_back(texts[k].clone());
            assert(messages@ =~= texts@.take(k + 1));
            k = k + 1;
        }
        assert(texts@.take(texts@.len() as int) =~= texts@);
        let ghost old_slots = self.queues@;
        let ghost stored = self.persistence_manager@;
        let slot = QueueSlot { name: queue_name, messages, subscribers: Vec::new() };
        assert(slot.model().pending =~= texts@.map_values(|t: String| t@));
        assert(logs(slot.subscribers@) =~= seq![]);
        self.queues.push(slot);
        proof {
            let s2 = self.queues@;
            assert forall|i: int, j: int| 0 <= i < j < s2.len() implies #[trigger] s2[i].name@
                != #[trigger] s2[j].name@ by {
                if j == old_slots.len() {
                    assert(old_slots[i].name@ == slots_view(old_slots)[i].name);
                }
            }
            assert forall|i: int| 0 <= i < s2.len() implies stored.contains_key(
                #[trigger] s2[i].name@,
            ) && stored[s2[i].name@] == s2[i].model().pending by {
                if i < old_slots.len() {
                    assert(s2[i] == old_slots[i]);
                }
            }
            assert forall|k: Seq<char>| #[trigger] stored.contains_key(k) implies exists|j: int|
                0 <= j < s2.len() && s2[j].name@ == k by {
                if k == slot.name@ {
                    assert(s2[old_slots.len() as int].name@ == k);
                } else {
                    assert(old(self).persistence_manager@.contains_key(k));
                    let j = choose|j: int| 0 <= j < old_slots.len() && old_slots[j].name@ == k;
                    assert(s2[j] == old_slots[j]);
                }
            }
            assert(self@ =~= created(old(self)@, queue_name@, texts@.map_values(|t: String| t@)));
        }
        Ok(self.queues.len() - 1)
    }

    proof fn lemma_index_of(&self, q: Seq<char>, i: int)
        requires
            self.wf(),
            0 <= i < self@.len(),
            self@[i].name == q,
        ensures
            has_queue(self@, q),
            pending_of(self@, q) == self@[i].pending,
            subscribers_of(self@, q) == self@[i].subscribers,
            forall|j: int| 0 <= j < self@.len() && j != i ==> #[trigger] self@[j].name != q,
    {
        let c = choose|j: int| 0 <= j < self@.len() && self@[j].name == q;
        assert(self@[c].name == q);
        assert forall|j: int| 0 <= j < self@.len() && j != i implies #[trigger] self@[j].name != q by {
            assert(self.queues@[j].name@ == self@[j].name);
            assert(self.queues@[i].name@ == self@[i].name);
        }
    }

    /// Appends the serialized envelope `text` to `queue_name`, durably first,
    /// then in memory, then broadcasts it framed to the queue's subscribers.
    /// Creates the queue when absent and `create_queue` holds. Hands back the
    /// outcome of each send, in subscriber order.
    #[verifier::spinoff_prover]
    pub fn push_envelope(&mut self, queue_name: String, text: String, create_queue: bool) -> (r:
        Result<Vec<bool>, QueueError>)
        requires
            old(self).wf(),
        ensures
            final(self).wf(),
            (!has_queue(old(self)@, queue_name@) && !create_queue) <==> r == Err::<
                Vec<bool>,
                QueueError,
            >(QueueError::QueueNotFound),
            has_queue(old(self)@, queue_name@) ==> match r {
                Ok(ok) => ok@.len() == subscribers_of(old(self)@, queue_name@).len()
                    && final(self)@ == pushed(old(self)@, queue_name@, text@, ok@),
                Err(e) => final(self)@ == old(self)@ && e == QueueError::StorageWrite,
            },
            has_queue(old(self)@, queue_name@) && old(self).failed().contains(queue_name@) ==> r
                == Err::<Vec<bool>, QueueError>(QueueError::StorageWrite),
            r != Err::<Vec<bool>, QueueError>(QueueError::Serialization),
            r is Ok ==> final(self).failed() == old(self).failed(),
            old(self).failed().subset_of(final(self).failed()),
            final(self).failed().subset_of(old(self).failed().insert(queue_name@)),
            !has_queue(old(self)@, queue_name@) ==> match r {
                Ok(ok) => ok@.len() == 0 && exists|l: Seq<Seq<char>>|
                    final(self)@ == pushed(created(old(self)@, queue_name@, l), queue_name@, text@, ok@),
                Err(e) => final(self)@ == old(self)@ || exists|l: Seq<Seq<char>>|
                    final(self)@ == created(old(self)@, queue_name@, l),
            },
    {
        let i = match self.find(&queue_name) {
            Some(i) => i,
            None => {
                if !create_queue {
                    return Err(QueueError::QueueNotFound);
                }
                match self.create_queue(queue_name.clone()) {
                    Ok(i) => i,
                    Err(e) => return Err(e),
                }
            },
        };
        let ghost mid = self@;
        let ghost old_slots = self.queues@;
        let ghost stored = self.persistence_manager@;
        proof {
            assert(mid[i as int].name == queue_name@) by {
                if !has_queue(old(self)@, queue_name@) {
                    let l = choose|l: Seq<Seq<char>>| mid == created(old(self)@, queue_name@, l);
                    assert(mid[i as int] == created(old(self)@, queue_name@, l)[i as int]);
                }
            }
            self.lemma_index_of(queue_name@, i as int);
            assert(stored.contains_key(old_slots[i as int].name@));
        }
        match self.persistence_manager.push_item(queue_name.clone(), text.clone()) {
            Ok(_) => {},
            Err(e) => {
                assert(self@ == mid);
                return Err(e);
            },
        }
        let message = frame(&text);
        let ok = broadcast(&mut self.queues[i].subscribers, &message);
        self.queues[i].messages.push_back(text);
        proof {
            let slot = self.queues@[i as int];
            assert(slot.model().pending =~= old_slots[i as int].model().pending.push(text@));
            assert(self.queues@ == old_slots.update(i as int, slot));
            lemma_replace_slot(old_slots, stored, i as int, slot);
            assert(self.persistence_manager@ =~= stored.insert(slot.name@, slot.model().pending));
            assert(self@ =~= pushed(mid, queue_name@, text@, ok@));
        }
        Ok(ok)
    }

    /// Pushes `message` to `queue_name` wrapped in a new envelope, creating the
    /// queue when absent and `create_queue` holds. Hands back the serialized
    /// envelope.
    #[verifier::spinoff_prover]
    pub fn push_message(&mut self, queue_name: String, message: String, create_queue: bool) -> (r:
        Result<String, QueueError>)
        requires
            old(self).wf(),
        ensures
            final(self).wf(),
            (!has_queue(old(self)@, queue_name@) && !create_queue) <==> r == Err::<
                String,
                QueueError,
            >(QueueError::QueueNotFound),
            r == Err::<String, QueueError>(QueueError::QueueNotFound) ==> final(self)@ == old(
                self,
            )@,
            r matches Ok(t) ==> exists|id: u128, created_at: Seq<char>|
                t@ == envelope_json(id, message@, created_at) && (id >> 76u128) & 0xfu128 == 4
                    && (id >> 62u128) & 0x3u128 == 2,
            r matches Ok(t) ==> push_outcome(old(self)@, final(self)@, queue_name@, t@),
            has_queue(old(self)@, queue_name@) && old(self).failed().contains(queue_name@) ==> r
                == Err::<String, QueueError>(QueueError::StorageWrite),
            r != Err::<String, QueueError>(QueueError::Serialization),
            r is Ok ==> final(self).failed() == old(self).failed(),
            old(self).failed().subset_of(final(self).failed()),
            final(self).failed().subset_of(old(self).failed().insert(queue_name@)),
            r is Err ==> final(self)@ == old(self)@ || (!has_queue(old(self)@, queue_name@)
                && exists|l: Seq<Seq<char>>| final(self)@ == created(old(self)@, queue_name@, l)),
    {
        if !create_queue && self.find(&queue_name).is_none() {
            return Err(QueueError::QueueNotFound);
        }
        let envelope = QueueMessageEnvelope::new(message);
        let text = envelope.to_json();
        let ghost q = queue_name@;
        match self.push_envelope(queue_name, text.clone(), create_queue) {
            Ok(ok) => {
                proof {
                    if has_queue(old(self)@, q) {
                        assert(self@ == pushed(old(self)@, q, text@, ok@));
                    } else {
                        assert(ok@ =~= seq![]);
                    }
                    assert(push_outcome(old(self)@, self@, q, text@));
                }
                Ok(text)
            },
            Err(e) => Err(e),
        }
    }

    /// Removes and hands back the oldest pending envelope of `queue_name`.
    #[verifier::spinoff_prover]
    pub fn queue_retrieve(&mut self, queue_name: String) -> (r: Result<String, QueueError>)
        requires
            old(self).wf(),
        ensures
            final(self).wf(),
            !has_queue(old(self)@, queue_name@) ==> r == Err::<String, QueueError>(
                QueueError::QueueNotFound,
            ) && final(self)@ == old(self)@,
            has_queue(old(self)@, queue_name@) ==> {
                &&& pending_of(old(self)@, queue_name@).len() == 0 <==> r == Err::<
                    String,
                    QueueError,
                >(QueueError::QueueEmpty)
                &&& match r {
                    Ok(t) => pending_of(old(self)@, queue_name@).len() > 0 && t@ == pending_of(
                        old(self)@,
                        queue_name@,
                    )[0] && final(self)@ == popped(old(self)@, queue_name@),
                    Err(e) => final(self)@ == old(self)@ && (e == QueueError::QueueEmpty || e
                        == QueueError::StorageWrite),
                }
                &&& old(self).failed().contains(queue_name@) && pending_of(old(self)@, queue_name@).len()
                    > 0 ==> r == Err::<String, QueueError>(QueueError::StorageWrite)
            },
            r is Ok ==> final(self).failed() == old(self).failed(),
            old(self).failed().subset_of(final(self).failed()),
            final(self).failed().subset_of(old(self).failed().insert(queue_name@)),
    {
        let i = match self.find(&queue_name) {
            Some(i) => i,
            None => return Err(QueueError::QueueNotFound),
        };
        let ghost old_slots = self.queues@;
        let ghost stored = self.persistence_manager@;
        proof {
            self.lemma_index_of(queue_name@, i as int);
            assert(stored.contains_key(old_slots[i as int].name@));
        }
        if self.queues[i].messages.len() == 0 {
            return Err(QueueError::QueueEmpty);
        }
        let text = match self.persistence_manager.pop_item(queue_name.clone()) {
            Ok(t) => t,
            Err(e) => return Err(e),
        };
        self.queues[i].messages.pop_front();
        proof {
            let slot = self.queues@[i as int];
            assert(slot.model().pending =~= old_slots[i as int].model().pending.drop_first());
            assert(self.queues@ == old_slots.update(i as int, slot));
            lemma_replace_slot(old_slots, stored, i as int, slot);
            assert(self.persistence_manager@ =~= stored.insert(slot.name@, slot.model().pending));
            assert(self@ =~= popped(old(self)@, queue_name@));
        }
        Ok(text)
    }

    /// Registers a new subscriber with `queue_name`, creating the queue when
    /// absent, and hands back the channel it receives messages on.
    #[verifier::spinoff_prover]
    pub fn append_subscriber(&mut self, queue_name: String) -> (r: Result<
        SubscriberChannel,
        QueueError,
    >)
        requires
            old(self).wf(),
        ensures
            final(self).wf(),
            has_queue(old(self)@, queue_name@) ==> r is Ok && final(self)@ == subscribed(
                old(self)@,
                queue_name@,
            ),
            !has_queue(old(self)@, queue_name@) ==> match r {
                Ok(_) => exists|l: Seq<Seq<char>>|
                    final(self)@ == subscribed(created(old(self)@, queue_name@, l), queue_name@),
                Err(e) => final(self)@ == old(self)@ && e == QueueError::StorageOpen,
            },
            final(self).failed() == old(self).failed(),
    {
        let i = match self.find(&queue_name) {
            Some(i) => i,
            None => match self.create_queue(queue_name.clone()) {
                Ok(i) => i,
                Err(e) => return Err(e),
            },
        };
        let ghost mid = self@;
        let ghost old_slots = self.queues@;
        let ghost stored = self.persistence_manager@;
        proof {
            assert(mid[i as int].name == queue_name@) by {
                if !has_queue(old(self)@, queue_name@) {
                    let l = choose|l: Seq<Seq<char>>| mid == created(old(self)@, queue_name@, l);
                    assert(mid[i as int] == created(old(self)@, queue_name@, l)[i as int]);
                }
            }
            self.lemma_index_of(queue_name@, i as int);
        }
        let channel = register(&mut self.queues[i].subscribers);
        proof {
            let slot = self.queues@[i as int];
            assert(slot.model().pending == old_slots[i as int].model().pending);
            assert(self.queues@ == old_slots.update(i as int, slot));
            lemma_replace_slot(old_slots, stored, i as int, slot);
            assert(stored.insert(slot.name@, slot.model().pending) =~= stored);
            assert(self@ =~= subscribed(mid, queue_name@));
        }
        Ok(channel)
    }

    /// One row per known queue, in creation order: its name, how many
    /// messages are pending, and how many subscribers are live.
    pub fn status(&self) -> (r: Vec<QueueStatus>)
        requires
            self.wf(),
        ensures
            r@.len() == self@.len(),
            forall|i: int|
                0 <= i < r@.len() ==> {
                    &&& (#[trigger] r@[i]).name@ == self@[i].name
                    &&& r@[i].pending == self@[i].pending.len()
                    &&& r@[i].subscribers == self@[i].subscribers.len()
                },
    {
        let mut rows: Vec<QueueStatus> = Vec::new();
        let mut i: usize = 0;
        while i < self.queues.len()
            invariant
                i <= self.queues@.len(),
                rows@.len() == i,
                forall|a: int|
                    0 <= a < i ==> {
                        &&& (#[trigger] rows@[a]).name@ == self@[a].name
                        &&& rows@[a].pending == self@[a].pending.len()
                        &&& rows@[a].subscribers == self@[a].subscribers.len()
                    },
            decreases self.queues@.len() - i,
        {
            let slot = &self.queues[i];
            rows.push(
                QueueStatus {
                    name: slot.name.clone(),
                    pending: slot.messages.len(),
                    subscribers: slot.subscribers.len(),
                },
            );
            i = i + 1;
        }
        rows
    }

    /// The status report as a JSON array of `[name,pending,subscribers]` rows.
    pub fn queue_status(&self) -> (r: String)
        requires
            self.wf(),
        ensures
            r@ == status_json(self@),
    {
        let rows = self.status();
        let r = status_text(&rows);
        assert(rows@.map_values(
            |r: QueueStatus| row_json(r.name@, r.pending as nat, r.subscribers as nat),
        ) =~= self@.map_values(
            |e: QueueModel| row_json(e.name, e.pending.len(), e.subscribers.len()),
        ));
        r
    }

    /// The engine for the durable log under `basepath`, holding the queues
    /// whose segments `queue_names` names (the subdirectories found there),
    /// each with the records its segment holds.
    #[verifier::spinoff_prover]
    pub fn new(basepath: String, queue_names: Vec<String>) -> (r: Result<QueueManager, QueueError>)
        ensures
            r matches Ok(m) ==> m.wf(),
            r matches Ok(m) ==> forall|i: int|
                0 <= i < queue_names@.len() ==> has_queue(m@, #[trigger] queue_names@[i]@),
            r matches Ok(m) ==> named_in(m@, queue_names@),
            r matches Ok(m) ==> forall|j: int|
                0 <= j < m@.len() ==> (#[trigger] m@[j]).subscribers.len() == 0,
            r matches Err(e) ==> e == QueueError::StorageOpen,
            queue_names@.len() == 0 ==> r is Ok,
            r matches Ok(m) ==> m.failed() == Set::<Seq<char>>::empty(),
            r matches Ok(m) ==> m.root() == basepath@,
    {
        let mut m = QueueManager {
            queues: Vec::new(),
            persistence_manager: PersistenceManager::new(basepath),
        };
        assert(m@ =~= seq![]);
        let mut i: usize = 0;
        while i < queue_names.len()
            invariant
                m.wf(),
                m.failed() == Set::<Seq<char>>::empty(),
                m.root() == basepath@,
                i <= queue_names@.len(),
                forall|a: int| 0 <= a < i ==> has_queue(m@, #[trigger] queue_names@[a]@),
                forall|j: int|
                    #![trigger m@[j]]
                    0 <= j < m@.len() ==> exists|a: int|
                        0 <= a < i && #[trigger] queue_names@[a]@ == m@[j].name,
                forall|j: int| 0 <= j < m@.len() ==> (#[trigger] m@[j]).subscribers.len() == 0,
            decreases queue_names@.len() - i,
        {
            let ghost before = m@;
            if m.find(&queue_names[i]).is_none() {
                match m.create_queue(queue_names[i].clone()) {
                    Ok(_) => {},
                    Err(e) => return Err(e),
                }
                proof {
                    let l = choose|l: Seq<Seq<char>>| m@ == created(before, queue_names@[i as int]@, l);
                    assert(m@ == created(before, queue_names@[i as int]@, l));
                    assert(m@[before.len() as int].name == queue_names@[i as int]@);
                    assert forall|a: int| 0 <= a <= i implies has_queue(m@, #[trigger] queue_names@[a]@) by {
                        if a < i {
                            let j = choose|j: int| 0 <= j < before.len() && before[j].name == queue_names@[a]@;
                            assert(m@[j] == before[j]);
                        } else {
                            assert(m@[before.len() as int].name == queue_names@[a]@);
                        }
                    }
                    assert forall|j: int| #![trigger m@[j]] 0 <= j < m@.len() implies exists|a: int|
                        0 <= a < i + 1 && #[trigger] queue_names@[a]@ == m@[j].name by {
                        if j < before.len() {
                            assert(m@[j] == before[j]);
                            let a = choose|a: int| 0 <= a < i && #[trigger] queue_names@[a]@ == before[j].name;
                            assert(queue_names@[a]@ == m@[j].name);
                        } else {
                            assert(queue_names@[i as int]@ == m@[j].name);
                        }
                    }
                    assert forall|j: int| 0 <= j < m@.len() implies (#[trigger] m@[j]).subscribers.len() == 0 by {
                        if j < before.len() {
                            assert(m@[j] == before[j]);
                        }
                    }
                }
            } else {
                proof {
                    assert forall|j: int| #![trigger m@[j]] 0 <= j < m@.len() implies exists|a: int|
                        0 <= a < i + 1 && #[trigger] queue_names@[a]@ == m@[j].name by {
                        let a = choose|a: int| 0 <= a < i && #[trigger] queue_names@[a]@ == m@[j].name;
                        assert(queue_names@[a]@ == m@[j].name);
                    }
                }
            }
            i = i + 1;
        }
        let ghost mv = m@;
        let ghost nv = queue_names@;
        assert forall|j: int| 0 <= j < mv.len() implies nv.map_values(|s: String| s@).contains(
            #[trigger] mv[j].name,
        ) by {
            assert(mv[j] == m@[j]);
            let a = choose|a: int| 0 <= a < i && #[trigger] queue_names@[a]@ == m@[j].name;
            assert(nv.map_values(|s: String| s@)[a] == mv[j].name);
        }
        assert(named_in(mv, nv));
        Ok(m)
    }
}

} // verus!
