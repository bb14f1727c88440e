//! The durable log: one sled database per queue, holding the queue's pending
//! records under monotonically increasing sequence numbers.

use vstd::prelude::*;
use vstd::string::*;
use std::collections::VecDeque;

use crate::envelope::local_now;
use crate::error::QueueError;
use crate::keys::{
    be_value, decode_key, encode_key, lemma_be_round_trip, lemma_pow_256_8,
    lemma_record_key_injective, record_key,
};
use vstd::arithmetic::power::pow;

verus! {

/// `len` base-256 digits of `n`, least significant first.
pub open spec fn le_bytes(n: nat, len: nat) -> Seq<u8>
    decreases len,
{
    if len == 0 {
        seq![]
    } else {
        seq![(n % 256) as u8] + le_bytes(n / 256, (len - 1) as nat)
    }
}

/// The stored form of a text: its UTF-8 length as eight little-endian bytes,
/// then its UTF-8 bytes.
pub open spec fn stored_text(s: Seq<char>) -> Seq<u8> {
    le_bytes(vstd::utf8::encode_utf8(s).len(), 8) + vstd::utf8::encode_utf8(s)
}

#[verifier::external_type_specification]
#[verifier::external_body]
pub struct ExBincodeErrorKind(bincode::ErrorKind);

/// Relies on `bincode::serialize` of a `str`, whose default options write the
/// length as a fixed eight-byte little-endian integer before the bytes, with no
/// size limit and into a `Vec`, so it cannot fail.
#[verifier::external_body]
fn encode_text(s: &str) -> (r: Result<Vec<u8>, Box<bincode::ErrorKind>>)
    ensures
        r is Ok,
        r matches Ok(b) ==> b@ == stored_text(s@),
{
    bincode::serialize(s)
}

/// Relies on `bincode::deserialize` into a `String`: it reads a length and that
/// many UTF-8 bytes, and ignores what follows them.
#[verifier::external_body]
fn decode_text(b: &[u8]) -> (r: Result<String, Box<bincode::ErrorKind>>)
    ensures
        r matches Ok(t) ==> stored_text(t@).is_prefix_of(b@) && forall|s: Seq<char>| #[trigger]
            stored_text(s).is_prefix_of(b@) ==> s == t@,
        r is Err ==> forall|s: Seq<char>| !(#[trigger] stored_text(s).is_prefix_of(b@)),
{
    bincode::deserialize::<String>(b)
}

#[verifier::external_type_specification]
#[verifier::external_body]
pub struct ExDb(sled::Db);

#[verifier::external_type_specification]
#[verifier::external_body]
pub struct ExSledError(sled::Error);

/// The keys and values that a sled database holds.
pub uninterp spec fn segment_contents(db: sled::Db) -> Map<Seq<u8>, Seq<u8>>;

/// The directory that a sled database was opened in.
pub uninterp spec fn segment_path(db: sled::Db) -> Seq<char>;

/// Relies on `sled::open`: opens the database stored under `path`, creating it
/// when absent.
#[verifier::external_body]
fn open_db(path: &str) -> (r: Result<sled::Db, sled::Error>)
    ensures
        r matches Ok(d) ==> segment_path(d) == path@,
{
    sled::open(path)
}

/// Relies on `Tree::iter`: every key of the database once, with its value.
#[verifier::external_body]
fn list_records(db: &sled::Db) -> (r: Result<Vec<(Vec<u8>, Vec<u8>)>, sled::Error>)
    ensures
        r matches Ok(es) ==> {
            &&& forall|i: int|
                0 <= i < es.len() ==> segment_contents(*db).contains_key(#[trigger] es[i].0@)
                    && segment_contents(*db)[es[i].0@] == es[i].1@
            &&& forall|k: Seq<u8>|
                #[trigger] segment_contents(*db).contains_key(k) ==> exists|i: int|
                    0 <= i < es.len() && es[i].0@ == k
        },
{
    db.iter().map(|e| e.map(|(k, v)| (k.to_vec(), v.to_vec()))).collect()
}

/// Relies on `Db::generate_id`: a monotonic identifier.
#[verifier::external_body]
fn generate_id(db: &sled::Db) -> (r: Result<u64, sled::Error>) {
    db.generate_id()
}

/// Relies on `Tree::insert`: sets `key` to `value` and hands back the value it
/// replaced.
#[verifier::external_body]
fn insert_record(db: &mut sled::Db, key: &[u8], value: Vec<u8>) -> (r: Result<
    Option<Vec<u8>>,
    sled::Error,
>)
    ensures
        segment_path(*final(db)) == segment_path(*old(db)),
        r is Ok ==> segment_contents(*final(db)) == segment_contents(*old(db)).insert(
            key@,
            value@,
        ),
        r matches Ok(p) ==> (p is Some <==> segment_contents(*old(db)).contains_key(key@)),
{
    db.insert(key, value).map(|p| p.map(|v| v.to_vec()))
}

/// Relies on `Tree::flush`: makes the writes so far durable; it changes no key.
#[verifier::external_body]
fn flush_db(db: &sled::Db) -> (r: Result<usize, sled::Error>) {
    db.flush()
}

/// Relies on `Tree::remove`: deletes `key` and hands back the value it held.
#[verifier::external_body]
fn remove_record(db: &mut sled::Db, key: &[u8]) -> (r: Result<Option<Vec<u8>>, sled::Error>)
    ensures
        segment_path(*final(db)) == segment_path(*old(db)),
        r is Ok ==> segment_contents(*final(db)) == segment_contents(*old(db)).remove(key@),
        r matches Ok(p) ==> (p is Some <==> segment_contents(*old(db)).contains_key(key@)),
        r matches Ok(Some(v)) ==> v@ == segment_contents(*old(db))[key@],
{
    db.remove(key).map(|p| p.map(|v| v.to_vec()))
}

/// The store contents `c` hold the records `texts` under the keys of the
/// increasing sequence numbers `ids`, and nothing else.
pub open spec fn mirrors(c: Map<Seq<u8>, Seq<u8>>, ids: Seq<u64>, texts: Seq<Seq<char>>) -> bool {
    &&& ids.len() == texts.len()
    &&& forall|i: int, j: int| 0 <= i < j < ids.len() ==> #[trigger] ids[i] < #[trigger] ids[j]
    &&& forall|i: int|
        0 <= i < ids.len() ==> c.contains_key(record_key(#[trigger] ids[i]))
            && stored_text(texts[i]).is_prefix_of(c[record_key(ids[i])])
    &&& forall|k: Seq<u8>|
        #[trigger] c.contains_key(k) ==> exists|i: int| 0 <= i < ids.len() && record_key(ids[i]) == k
}

/// A text whose UTF-8 form a `String` can hold.
pub open spec fn storable(t: Seq<char>) -> bool {
    vstd::utf8::encode_utf8(t).len() < 0x1_0000_0000_0000_0000
}

proof fn lemma_le_bytes_len(n: nat, len: nat)
    ensures
        le_bytes(n, len).len() == len,
    decreases len,
{
    if len > 0 {
        lemma_le_bytes_len(n / 256, (len - 1) as nat);
    }
}

proof fn lemma_le_bytes_injective(a: nat, b: nat, len: nat)
    requires
        a < pow(256, len),
        b < pow(256, len),
        le_bytes(a, len) == le_bytes(b, len),
    ensures
        a == b,
    decreases len,
{
    vstd::arithmetic::power::lemma_pow0(256);
    if len > 0 {
        let d = (len - 1) as nat;
        assert(pow(256, len) == 256 * pow(256, d)) by {
            vstd::arithmetic::power::lemma_pow_adds(256, 1, d);
            vstd::arithmetic::power::lemma_pow1(256);
        }
        assert(a / 256 < pow(256, d) && b / 256 < pow(256, d)) by (nonlinear_arith)
            requires
                a < 256 * pow(256, d),
                b < 256 * pow(256, d),
        ;
        let sa = le_bytes(a, len);
        let sb = le_bytes(b, len);
        assert(sa[0] == sb[0]);
        assert(sa.subrange(1, sa.len() as int) =~= le_bytes(a / 256, d));
        assert(sb.subrange(1, sb.len() as int) =~= le_bytes(b / 256, d));
        lemma_le_bytes_injective(a / 256, b / 256, d);
        assert(a % 256 == b % 256);
        assert(a == (a / 256) * 256 + a % 256 && b == (b / 256) * 256 + b % 256) by (nonlinear_arith);
    }
}

/// No stored record form is a proper prefix of another: a value starts with
/// the stored form of at most one text.
pub proof fn lemma_stored_prefix_free(a: Seq<char>, b: Seq<char>, v: Seq<u8>)
    requires
        storable(a),
        storable(b),
        stored_text(a).is_prefix_of(v),
        stored_text(b).is_prefix_of(v),
    ensures
        a == b,
{
    let ea = vstd::utf8::encode_utf8(a);
    let eb = vstd::utf8::encode_utf8(b);
    lemma_le_bytes_len(ea.len(), 8);
    lemma_le_bytes_len(eb.len(), 8);
    assert(le_bytes(ea.len(), 8) =~= v.subrange(0, 8));
    assert(le_bytes(eb.len(), 8) =~= v.subrange(0, 8));
    assert(pow(256, 8) == 0x1_0000_0000_0000_0000) by {
        reveal_with_fuel(pow, 9);
    }
    lemma_le_bytes_injective(ea.len(), eb.len(), 8);
    let sa = stored_text(a);
    let sb = stored_text(b);
    assert(sa =~= v.subrange(0, sa.len() as int));
    assert(sb =~= v.subrange(0, sb.len() as int));
    assert forall|k: int| 0 <= k < ea.len() implies ea[k] == v[8 + k] by {
        assert(sa[8 + k] == ea[k]);
    }
    assert forall|k: int| 0 <= k < eb.len() implies eb[k] == v[8 + k] by {
        assert(sb[8 + k] == eb[k]);
    }
    assert(ea =~= eb);
    vstd::utf8::encode_utf8_decode_utf8(a);
    vstd::utf8::encode_utf8_decode_utf8(b);
}

proof fn lemma_sorted_unique(s1: Seq<u64>, s2: Seq<u64>)
    requires
        forall|i: int, j: int| 0 <= i < j < s1.len() ==> #[trigger] s1[i] < #[trigger] s1[j],
        forall|i: int, j: int| 0 <= i < j < s2.len() ==> #[trigger] s2[i] < #[trigger] s2[j],
        forall|i: int| 0 <= i < s1.len() ==> s2.contains(#[trigger] s1[i]),
        forall|i: int| 0 <= i < s2.len() ==> s1.contains(#[trigger] s2[i]),
    ensures
        s1 == s2,
    decreases s1.len() + s2.len(),
{
    if s1.len() == 0 {
        if s2.len() > 0 {
            assert(s1.contains(s2[0]));
        }
        assert(s1 =~= s2);
    } else if s2.len() == 0 {
        assert(s2.contains(s1[0]));
    } else {
        let n1 = s1.len() - 1;
        let n2 = s2.len() - 1;
        let a = s1[n1];
        let b = s2[n2];
        assert(s2.contains(a));
        let ja = choose|j: int| 0 <= j < s2.len() && s2[j] == a;
        if ja < n2 {
            assert(s2[ja] < s2[n2]);
        }
        assert(s1.contains(b));
        let jb = choose|j: int| 0 <= j < s1.len() && s1[j] == b;
        if jb < n1 {
            assert(s1[jb] < s1[n1]);
        }
        assert(a == b);
        let t1 = s1.drop_last();
        let t2 = s2.drop_last();
        assert forall|i: int| 0 <= i < t1.len() implies t2.contains(#[trigger] t1[i]) by {
            assert(s1[i] < s1[n1]);
            assert(s2.contains(s1[i]));
            let j = choose|j: int| 0 <= j < s2.len() && s2[j] == s1[i];
            assert(j != n2);
            assert(t2[j] == t1[i]);
        }
        assert forall|i: int| 0 <= i < t2.len() implies t1.contains(#[trigger] t2[i]) by {
            assert(s2[i] < s2[n2]);
            assert(s1.contains(s2[i]));
            let j = choose|j: int| 0 <= j < s1.len() && s1[j] == s2[i];
            assert(j != n1);
            assert(t1[j] == t2[i]);
        }
        assert forall|i: int, j: int| 0 <= i < j < t1.len() implies #[trigger] t1[i]
            < #[trigger] t1[j] by {
            assert(s1[i] < s1[j]);
        }
        assert forall|i: int, j: int| 0 <= i < j < t2.len() implies #[trigger] t2[i]
            < #[trigger] t2[j] by {
            assert(s2[i] < s2[j]);
        }
        lemma_sorted_unique(t1, t2);
        assert(s1 =~= t1.push(a));
        assert(s2 =~= t2.push(b));
    }
}

/// The records of a segment are determined by what its store holds: any two
/// readings of the same contents in increasing key order give the same
/// sequence numbers and the same texts in the same order. Every append and
/// take keeps a segment's records mirrored in its store, and reopening reads
/// them back in key order, so the records found on reopening are exactly the
/// ones appended and not taken, oldest first.
pub proof fn lemma_reload_is_exact(
    c: Map<Seq<u8>, Seq<u8>>,
    ids1: Seq<u64>,
    texts1: Seq<Seq<char>>,
    ids2: Seq<u64>,
    texts2: Seq<Seq<char>>,
)
    requires
        mirrors(c, ids1, texts1),
        mirrors(c, ids2, texts2),
        forall|i: int| 0 <= i < texts1.len() ==> storable(#[trigger] texts1[i]),
        forall|i: int| 0 <= i < texts2.len() ==> storable(#[trigger] texts2[i]),
    ensures
        ids1 == ids2,
        texts1 == texts2,
{
    assert forall|i: int| 0 <= i < ids1.len() implies ids2.contains(#[trigger] ids1[i]) by {
        assert(c.contains_key(record_key(ids1[i])));
        let j = choose|j: int| 0 <= j < ids2.len() && record_key(ids2[j]) == record_key(ids1[i]);
        lemma_record_key_injective(ids2[j], ids1[i]);
    }
    assert forall|i: int| 0 <= i < ids2.len() implies ids1.contains(#[trigger] ids2[i]) by {
        assert(c.contains_key(record_key(ids2[i])));
        let j = choose|j: int| 0 <= j < ids1.len() && record_key(ids1[j]) == record_key(ids2[i]);
        lemma_record_key_injective(ids1[j], ids2[i]);
    }
    lemma_sorted_unique(ids1, ids2);
    assert forall|i: int| 0 <= i < texts1.len() implies #[trigger] texts1[i] == texts2[i] by {
        assert(ids1[i] == ids2[i]);
        lemma_stored_prefix_free(texts1[i], texts2[i], c[record_key(ids1[i])]);
    }
    assert(texts1 =~= texts2);
}

/// The listed entries of a store can be read as records: every key is eight
/// bytes, the keys increase from one entry to the next, and every value starts
/// with the stored form of a text.
pub open spec fn records_readable(es: Seq<(Vec<u8>, Vec<u8>)>) -> bool {
    &&& forall|i: int| 0 <= i < es.len() ==> (#[trigger] es[i]).0@.len() == 8
    &&& forall|i: int|
        0 < i < es.len() ==> be_value(es[i - 1].0@) < be_value((#[trigger] es[i]).0@)
    &&& forall|i: int| 0 <= i < es.len() ==> starts_with_text((#[trigger] es[i]).1@)
}

/// `v` starts with the stored form of some text.
pub open spec fn starts_with_text(v: Seq<u8>) -> bool {
    exists|s: Seq<char>| #[trigger] stored_text(s).is_prefix_of(v)
}

/// Reads listed store entries, in the order listed, as sequence numbers and
/// texts; succeeds exactly when they are readable.
#[verifier::spinoff_prover]
pub fn read_records(entries: &Vec<(Vec<u8>, Vec<u8>)>) -> (r: Result<
    (VecDeque<u64>, Vec<String>),
    QueueError,
>)
    ensures
        r is Ok <==> records_readable(entries@),
        r matches Err(e) ==> e == QueueError::StorageOpen,
        r matches Ok((ids, texts)) ==> {
            &&& ids@.len() == entries@.len()
            &&& texts@.len() == entries@.len()
            &&& forall|a: int, b: int|
                0 <= a < b < ids@.len() ==> #[trigger] ids@[a] < #[trigger] ids@[b]
            &&& forall|a: int| 0 <= a < ids@.len() ==> record_key(#[trigger] ids@[a]) == entries@[a].0@
            &&& forall|a: int|
                0 <= a < texts@.len() ==> stored_text(#[trigger] texts@[a]@).is_prefix_of(
                    entries@[a].1@,
                )
        },
{
    let mut ids: VecDeque<u64> = VecDeque::new();
    let mut texts: Vec<String> = Vec::new();
    let mut i: usize = 0;
    while i < entries.len()
        invariant
            i <= entries@.len(),
            ids@.len() == i,
            texts@.len() == i,
            forall|a: int, b: int| 0 <= a < b < i ==> #[trigger] ids@[a] < #[trigger] ids@[b],
            forall|a: int| 0 <= a < i ==> record_key(#[trigger] ids@[a]) == entries@[a].0@,
            forall|a: int| 0 <= a < i ==> be_value(entries@[a].0@) == #[trigger] ids@[a],
            forall|a: int| 0 <= a < i ==> (#[trigger] entries@[a]).0@.len() == 8,
            forall|a: int|
                0 <= a < i ==> stored_text(#[trigger] texts@[a]@).is_prefix_of(entries@[a].1@),
        decreases entries@.len() - i,
    {
        let id = match decode_key(entries[i].0.as_slice()) {
            Some(n) => n,
            None => {
                assert(entries@[i as int].0@.len() != 8);
                return Err(QueueError::StorageOpen);
            },
        };
        proof {
            lemma_pow_256_8();
            lemma_be_round_trip(id as nat, 8);
        }
        if i > 0 {
            if id <= ids[i - 1] {
                assert(be_value(entries@[i - 1].0@) >= be_value(entries@[i as int].0@));
                return Err(QueueError::StorageOpen);
            }
        }
        let text = match decode_text(entries[i].1.as_slice()) {
            Ok(t) => t,
            Err(_) => {
                assert(!starts_with_text(entries@[i as int].1@));
                return Err(QueueError::StorageOpen);
            },
        };
        let ghost prev = ids@;
        ids.push_back(id);
        texts.push(text);
        proof {
            assert forall|a: int, b: int| 0 <= a < b < i + 1 implies #[trigger] ids@[a]
                < #[trigger] ids@[b] by {
                if b == i && a < i - 1 {
                    assert(prev[a] < prev[i - 1]);
                }
            }
        }
        i = i + 1;
    }
    proof {
        assert forall|a: int| 0 <= a < entries@.len() implies starts_with_text(
            (#[trigger] entries@[a]).1@,
        ) by {
            assert(stored_text(texts@[a]@).is_prefix_of(entries@[a].1@));
        }
        assert forall|a: int| 0 < a < entries@.len() implies be_value(entries@[a - 1].0@)
            < be_value((#[trigger] entries@[a]).0@) by {
            assert(ids@[a - 1] < ids@[a]);
            assert(be_value(entries@[a - 1].0@) == ids@[a - 1]);
        }
    }
    Ok((ids, texts))
}

proof fn lemma_listing_mirrors(
    c: Map<Seq<u8>, Seq<u8>>,
    es: Seq<(Vec<u8>, Vec<u8>)>,
    ids: Seq<u64>,
    texts: Seq<Seq<char>>,
)
    requires
        forall|i: int|
            0 <= i < es.len() ==> c.contains_key(#[trigger] es[i].0@) && c[es[i].0@] == es[i].1@,
        forall|k: Seq<u8>|
            #[trigger] c.contains_key(k) ==> exists|i: int| 0 <= i < es.len() && es[i].0@ == k,
        ids.len() == es.len(),
        texts.len() == es.len(),
        forall|a: int, b: int| 0 <= a < b < ids.len() ==> #[trigger] ids[a] < #[trigger] ids[b],
        forall|a: int| 0 <= a < ids.len() ==> record_key(#[trigger] ids[a]) == es[a].0@,
        forall|a: int| 0 <= a < texts.len() ==> stored_text(#[trigger] texts[a]).is_prefix_of(es[a].1@),
    ensures
        mirrors(c, ids, texts),
{
    assert forall|a: int|
        0 <= a < ids.len() implies c.contains_key(record_key(#[trigger] ids[a]))
        && stored_text(texts[a]).is_prefix_of(c[record_key(ids[a])]) by {
        assert(c.contains_key(es[a].0@));
        assert(stored_text(texts[a]).is_prefix_of(es[a].1@));
    }
    assert forall|k: Seq<u8>| #[trigger] c.contains_key(k) implies exists|a: int|
        0 <= a < ids.len() && record_key(ids[a]) == k by {
        let a = choose|a: int| 0 <= a < es.len() && es[a].0@ == k;
        assert(record_key(ids[a]) == k);
    }
}

/// What `push_item` reports of a durable write.
#[derive(Clone)]
pub struct KVTimestamp {
    pub key: Vec<u8>,
    pub old_value: String,
    pub value: String,
    pub timestamp: i64,
}

/// `ids` has one entry per record, increases, and stays within `last`.
spec fn ordered_ids(ids: Seq<u64>, n: nat, last: Option<u64>) -> bool {
    &&& ids.len() == n
    &&& forall|i: int, j: int| 0 <= i < j < ids.len() ==> #[trigger] ids[i] < #[trigger] ids[j]
    &&& forall|i: int| 0 <= i < ids.len() ==> (last matches Some(l) && #[trigger] ids[i] <= l)
}

proof fn lemma_last_bounds(ids: Seq<u64>, last: Option<u64>)
    requires
        forall|i: int, j: int| 0 <= i < j < ids.len() ==> #[trigger] ids[i] < #[trigger] ids[j],
        last == if ids.len() == 0 {
            None
        } else {
            Some(ids[ids.len() - 1])
        },
    ensures
        ordered_ids(ids, ids.len(), last),
{
    assert forall|a: int| 0 <= a < ids.len() implies (last matches Some(l) && #[trigger] ids[a]
        <= l) by {
        if a < ids.len() - 1 {
            assert(ids[a] < ids[ids.len() - 1]);
        }
    }
}

/// One queue's open segment.
struct Segment {
    name: String,
    db: sled::Db,
    /// Sequence numbers of the pending records, oldest first.
    ids: VecDeque<u64>,
    /// The greatest sequence number this segment has seen.
    last_id: Option<u64>,
    /// Set once a write failed and the store's contents are no longer known.
    faulted: bool,
    texts: Ghost<Seq<Seq<char>>>,
}

impl Segment {
    spec fn mirrors_store(&self) -> bool {
        mirrors(segment_contents(self.db), self.ids@, self.texts@)
    }

    spec fn ordered(&self) -> bool {
        ordered_ids(self.ids@, self.texts@.len(), self.last_id)
    }

    spec fn wf(&self) -> bool {
        &&& self.ordered()
        &&& !self.faulted ==> self.mirrors_store()
    }

    /// Opens the segment of queue `name` under `root` and reads back its records
    /// in sequence order. Fails when the store cannot be opened or listed, holds
    /// a malformed key or record, or lists its records out of key order.
    #[verifier::rlimit(60)]
    #[verifier::spinoff_prover]
    fn open(root: &String, name: String) -> (r: Result<(Segment, Vec<String>), QueueError>)
        ensures
            r matches Ok((s, texts)) ==> {
                &&& s.wf()
                &&& mirrors(segment_contents(s.db), s.ids@, s.texts@)
                &&& s.name@ == name@
                &&& s.texts@ == texts@.map_values(|t: String| t@)
                &&& !s.faulted
                &&& segment_path(s.db) == root@ + "/"@ + name@
            },
            r matches Err(e) ==> e == QueueError::StorageOpen,
    {
        let mut path = root.clone();
        path.append("/");
        path.append(name.as_str());
        let db = match open_db(path.as_str()) {
            Ok(d) => d,
            Err(_) => return Err(QueueError::StorageOpen),
        };
        let entries = match list_records(&db) {
            Ok(es) => es,
            Err(_) => return Err(QueueError::StorageOpen),
        };
        let ghost c = segment_contents(db);
        let (ids, texts) = match read_records(&entries) {
            Ok(p) => p,
            Err(e) => return Err(e),
        };
        let last_id: Option<u64> = if ids.len() == 0 {
            None
        } else {
            Some(ids[ids.len() - 1])
        };
        let seg = Segment {
            name,
            db,
            ids,
            last_id,
            faulted: false,
            texts: Ghost(texts@.map_values(|t: String| t@)),
        };
        proof {
            lemma_last_bounds(seg.ids@, seg.last_id);
            lemma_listing_mirrors(c, entries@, seg.ids@, seg.texts@);
        }
        Ok((seg, texts))
    }

    /// Writes `text` as the newest record, durably, and hands back its key.
    #[verifier::spinoff_prover]
    fn append(&mut self, text: &String) -> (r: Result<Vec<u8>, QueueError>)
        requires
            old(self).wf(),
        ensures
            final(self).wf(),
            final(self).name == old(self).name,
            segment_path(final(self).db) == segment_path(old(self).db),
            r matches Ok(k) ==> final(self).texts@ == old(self).texts@.push(text@) && exists|
                id: u64,
            | k@ == record_key(id) && final(self).last_id == Some(id) && (old(self).last_id matches Some(
                l,
            ) ==> l < id),
            r matches Err(e) ==> final(self).texts@ == old(self).texts@ && e
                == QueueError::StorageWrite && final(self).last_id == old(self).last_id,
            old(self).faulted ==> r is Err && final(self).faulted,
            r is Ok ==> !final(self).faulted,
    {
        if self.faulted {
            return Err(QueueError::StorageWrite);
        }
        let id = match generate_id(&self.db) {
            Ok(n) => n,
            Err(_) => return Err(QueueError::StorageWrite),
        };
        match self.last_id {
            Some(l) => {
                if id <= l {
                    return Err(QueueError::StorageWrite);
                }
            },
            None => {},
        }
        let key = encode_key(id);
        let value = match encode_text(text.as_str()) {
            Ok(b) => b,
            Err(_) => return Err(QueueError::StorageWrite),
        };
        let ghost c = segment_contents(self.db);
        let ghost v = value@;
        let ghost ids0 = self.ids@;
        let ghost last0 = self.last_id;
        let ghost texts0 = self.texts@;
        assert(self.ordered());
        let inserted = insert_record(&mut self.db, key.as_slice(), value).is_ok();
        assert(self.ids@ == ids0 && self.last_id == last0 && self.texts@ == texts0);
        let written = inserted && flush_db(&self.db).is_ok();
        if !written {
            self.faulted = true;
            assert(self.ordered());
            return Err(QueueError::StorageWrite);
        }
        let ghost old_ids = self.ids@;
        let ghost old_texts = self.texts@;
        self.ids.push_back(id);
        self.last_id = Some(id);
        self.texts = Ghost(self.texts@.push(text@));
        proof {
            let c2 = segment_contents(self.db);
            assert(c2 == c.insert(record_key(id), v));
            assert forall|a: int| 0 <= a < self.ids@.len() implies c2.contains_key(
                record_key(#[trigger] self.ids@[a]),
            ) && stored_text(self.texts@[a]).is_prefix_of(c2[record_key(self.ids@[a])]) by {
                if a < old_ids.len() {
                    lemma_record_key_injective(old_ids[a], id);
                    assert(old_ids[a] == self.ids@[a]);
                    assert(old_texts[a] == self.texts@[a]);
                } else {
                    assert(stored_text(text@).is_prefix_of(v));
                }
            }
            assert forall|k: Seq<u8>| #[trigger] c2.contains_key(k) implies exists|a: int|
                0 <= a < self.ids@.len() && record_key(self.ids@[a]) == k by {
                if k == record_key(id) {
                    assert(record_key(self.ids@[old_ids.len() as int]) == k);
                } else {
                    assert(c.contains_key(k));
                    let a = choose|a: int| 0 <= a < old_ids.len() && record_key(old_ids[a]) == k;
                    assert(self.ids@[a] == old_ids[a]);
                }
            }
        }
        Ok(key)
    }

    /// Removes the oldest record and hands back its text.
    #[verifier::spinoff_prover]
    fn take_oldest(&mut self) -> (r: Result<String, QueueError>)
        requires
            old(self).wf(),
        ensures
            final(self).wf(),
            final(self).name == old(self).name,
            segment_path(final(self).db) == segment_path(old(self).db),
            old(self).texts@.len() == 0 <==> r == Err::<String, QueueError>(QueueError::QueueEmpty),
            r matches Ok(t) ==> old(self).texts@.len() > 0 && t@ == old(self).texts@[0]
                && final(self).texts@ == old(self).texts@.drop_first(),
            r matches Err(e) ==> final(self).texts@ == old(self).texts@ && (e
                == QueueError::QueueEmpty || e == QueueError::StorageWrite),
            final(self).last_id == old(self).last_id,
            old(self).faulted && old(self).texts@.len() > 0 ==> r == Err::<String, QueueError>(
                QueueError::StorageWrite,
            ),
            old(self).faulted ==> final(self).faulted,
            r is Ok ==> !final(self).faulted,
    {
        if self.ids.len() == 0 {
            return Err(QueueError::QueueEmpty);
        }
        if self.faulted {
            return Err(QueueError::StorageWrite);
        }
        let id = self.ids[0];
        let key = encode_key(id);
        let ghost c = segment_contents(self.db);
        let value = match remove_record(&mut self.db, key.as_slice()) {
            Ok(Some(v)) => v,
            Ok(None) => return Err(QueueError::StorageWrite),
            Err(_) => {
                self.faulted = true;
                return Err(QueueError::StorageWrite);
            },
        };
        let ghost old_ids = self.ids@;
        let ghost old_texts = self.texts@;
        assert(stored_text(old_texts[0]).is_prefix_of(value@));
        let text = match decode_text(value.as_slice()) {
            Ok(t) => t,
            Err(_) => return Err(QueueError::StorageWrite),
        };
        self.ids.pop_front();
        self.texts = Ghost(self.texts@.drop_first());
        proof {
            let c2 = segment_contents(self.db);
            assert(c2 == c.remove(record_key(id)));
            assert forall|a: int| 0 <= a < self.ids@.len() implies c2.contains_key(
                record_key(#[trigger] self.ids@[a]),
            ) && stored_text(self.texts@[a]).is_prefix_of(c2[record_key(self.ids@[a])]) by {
                assert(self.ids@[a] == old_ids[a + 1]);
                assert(old_ids[0] < old_ids[a + 1]);
                lemma_record_key_injective(old_ids[a + 1], id);
            }
            assert forall|k: Seq<u8>| #[trigger] c2.contains_key(k) implies exists|a: int|
                0 <= a < self.ids@.len() && record_key(self.ids@[a]) == k by {
                assert(c.contains_key(k));
                let a = choose|a: int| 0 <= a < old_ids.len() && record_key(old_ids[a]) == k;
                assert(a != 0);
                assert(self.ids@[a - 1] == old_ids[a]);
            }
        }
        Ok(text)
    }
}

spec fn segments_wf(segs: Seq<Segment>, recs: Map<Seq<char>, Seq<Seq<char>>>) -> bool {
    &&& forall|i: int| 0 <= i < segs.len() ==> #[trigger] segs[i].wf()
    &&& forall|i: int, j: int|
        0 <= i < j < segs.len() ==> #[trigger] segs[i].name@ != #[trigger] segs[j].name@
    &&& forall|i: int|
        0 <= i < segs.len() ==> recs.contains_key(#[trigger] segs[i].name@) && recs[segs[i].name@]
            == segs[i].texts@
    &&& forall|k: Seq<char>|
        #[trigger] recs.contains_key(k) ==> exists|i: int| 0 <= i < segs.len() && segs[i].name@ == k
}

proof fn lemma_replace_segment(
    segs: Seq<Segment>,
    recs: Map<Seq<char>, Seq<Seq<char>>>,
    i: int,
    seg: Segment,
)
    requires
        segments_wf(segs, recs),
        0 <= i < segs.len(),
        seg.wf(),
        seg.name@ == segs[i].name@,
    ensures
        segments_wf(segs.update(i, seg), recs.insert(seg.name@, seg.texts@)),
{
    let segs2 = segs.update(i, seg);
    let recs2 = recs.insert(seg.name@, seg.texts@);
    assert forall|j: int| 0 <= j < segs2.len() implies recs2.contains_key(
        #[trigger] segs2[j].name@,
    ) && recs2[segs2[j].name@] == segs2[j].texts@ by {
        if j != i {
            assert(segs[j].name@ != segs[i].name@);
        }
    }
    assert forall|k: Seq<char>| #[trigger] recs2.contains_key(k) implies exists|j: int|
        0 <= j < segs2.len() && segs2[j].name@ == k by {
        if k == seg.name@ {
            assert(segs2[i].name@ == k);
        } else {
            assert(recs.contains_key(k));
            let j = choose|j: int| 0 <= j < segs.len() && segs[j].name@ == k;
            assert(segs2[j].name@ == k);
        }
    }
}

spec fn segments_state(
    segs: Seq<Segment>,
    lasts: Map<Seq<char>, Option<u64>>,
    faults: Set<Seq<char>>,
) -> bool {
    &&& forall|i: int|
        0 <= i < segs.len() ==> lasts.contains_key(#[trigger] segs[i].name@) && lasts[segs[i].name@]
            == segs[i].last_id && (faults.contains(segs[i].name@) <==> segs[i].faulted)
    &&& forall|k: Seq<char>|
        #[trigger] faults.contains(k) ==> exists|i: int| 0 <= i < segs.len() && segs[i].name@ == k
    &&& forall|k: Seq<char>|
        #[trigger] lasts.contains_key(k) ==> exists|i: int| 0 <= i < segs.len() && segs[i].name@ == k
}

proof fn lemma_replace_state(
    segs: Seq<Segment>,
    recs: Map<Seq<char>, Seq<Seq<char>>>,
    lasts: Map<Seq<char>, Option<u64>>,
    faults: Set<Seq<char>>,
    i: int,
    seg: Segment,
)
    requires
        segments_wf(segs, recs),
        segments_state(segs, lasts, faults),
        0 <= i < segs.len(),
        seg.name@ == segs[i].name@,
        segs[i].faulted ==> seg.faulted,
    ensures
        segments_state(
            segs.update(i, seg),
            lasts.insert(seg.name@, seg.last_id),
            if seg.faulted {
                faults.insert(seg.name@)
            } else {
                faults
            },
        ),
{
    let s2 = segs.update(i, seg);
    let f2 = if seg.faulted {
        faults.insert(seg.name@)
    } else {
        faults
    };
    assert forall|j: int| 0 <= j < s2.len() implies lasts.insert(seg.name@, seg.last_id).contains_key(
        #[trigger] s2[j].name@,
    ) && lasts.insert(seg.name@, seg.last_id)[s2[j].name@] == s2[j].last_id && (f2.contains(
        s2[j].name@,
    ) <==> s2[j].faulted) by {
        if j != i {
            assert(segs[j].name@ != segs[i].name@);
        }
    }
    assert forall|k: Seq<char>| #[trigger] f2.contains(k) implies exists|j: int|
        0 <= j < s2.len() && s2[j].name@ == k by {
        if k == seg.name@ {
            assert(s2[i].name@ == k);
        } else {
            let j = choose|j: int| 0 <= j < segs.len() && segs[j].name@ == k;
            assert(s2[j].name@ == k);
        }
    }
    let l2 = lasts.insert(seg.name@, seg.last_id);
    assert forall|k: Seq<char>| #[trigger] l2.contains_key(k) implies exists|j: int|
        0 <= j < s2.len() && s2[j].name@ == k by {
        if k == seg.name@ {
            assert(s2[i].name@ == k);
        } else {
            let j = choose|j: int| 0 <= j < segs.len() && segs[j].name@ == k;
            assert(s2[j].name@ == k);
        }
    }
}

/// The durable log of every queue: one segment per queue name, each opened
/// on first use under one root directory.
pub struct PersistenceManager {
    root_path: String,
    segments: Vec<Segment>,
    records: Ghost<Map<Seq<char>, Seq<Seq<char>>>>,
    lasts: Ghost<Map<Seq<char>, Option<u64>>>,
    faults: Ghost<Set<Seq<char>>>,
}

impl View for PersistenceManager {
    /// For each queue with an open segment, its pending records, oldest first.
    type V = Map<Seq<char>, Seq<Seq<char>>>;

    closed spec fn view(&self) -> Self::V {
        self.records@
    }
}

impl PersistenceManager {
    pub closed spec fn wf(&self) -> bool {
        &&& segments_wf(self.segments@, self.records@)
        &&& segments_state(self.segments@, self.lasts@, self.faults@)
        &&& forall|i: int|
            0 <= i < self.segments@.len() ==> segment_path(#[trigger] self.segments@[i].db)
                == self.root_path@ + "/"@ + self.segments@[i].name@
    }

    /// The directory the segment of `q` was opened in.
    pub closed spec fn path_of(&self, q: Seq<char>) -> Seq<char> {
        segment_path(
            self.segments@[choose|i: int|
                0 <= i < self.segments@.len() && self.segments@[i].name@ == q].db,
        )
    }

    /// Every open segment lives in the subdirectory of the root named after
    /// its queue.
    pub proof fn lemma_segment_path(&self, q: Seq<char>)
        requires
            self.wf(),
            self@.contains_key(q),
        ensures
            self.path_of(q) == self.root() + "/"@ + q,
    {
        let i = choose|i: int| 0 <= i < self.segments@.len() && self.segments@[i].name@ == q;
        let c = choose|j: int| 0 <= j < self.segments@.len() && self.segments@[j].name@ == q;
        if c != i {
            if c < i {
                assert(self.segments@[c].name@ != self.segments@[i].name@);
            } else {
                assert(self.segments@[i].name@ != self.segments@[c].name@);
            }
        }
        assert(segment_path(self.segments@[c].db) == self.root_path@ + "/"@ + self.segments@[c].name@);
    }

    /// The queues whose segment had a write fail: their store's contents are no
    /// longer known, so every later write or take on them fails until reopened.
    pub closed spec fn failed(&self) -> Set<Seq<char>> {
        self.faults@
    }

    /// What the store of `q`'s segment holds.
    pub closed spec fn store_of(&self, q: Seq<char>) -> Map<Seq<u8>, Seq<u8>> {
        segment_contents(
            self.segments@[choose|i: int|
                0 <= i < self.segments@.len() && self.segments@[i].name@ == q].db,
        )
    }

    /// The store of every open segment whose writes have not failed holds
    /// exactly its pending records, under increasing sequence numbers; so by
    /// `lemma_reload_is_exact` reopening it gives back those records in order.
    pub proof fn lemma_store_mirrors(&self, q: Seq<char>)
        requires
            self.wf(),
            self@.contains_key(q),
            !self.failed().contains(q),
        ensures
            exists|ids: Seq<u64>| mirrors(self.store_of(q), ids, self@[q]),
    {
        let i = choose|i: int| 0 <= i < self.segments@.len() && self.segments@[i].name@ == q;
        let c = choose|j: int| 0 <= j < self.segments@.len() && self.segments@[j].name@ == q;
        if c != i {
            if c < i {
                assert(self.segments@[c].name@ != self.segments@[i].name@);
            } else {
                assert(self.segments@[i].name@ != self.segments@[c].name@);
            }
        }
        assert(self.segments@[i].wf());
        assert(!self.segments@[i].faulted);
        assert(mirrors(self.store_of(q), self.segments@[i].ids@, self@[q]));
    }

    /// For each open segment, the greatest sequence number it has seen.
    pub closed spec fn last_seq(&self) -> Map<Seq<char>, Option<u64>> {
        self.lasts@
    }

    pub closed spec fn root(&self) -> Seq<char> {
        self.root_path@
    }

    /// A log rooted at `basepath` with no segment open yet.
    pub fn new(basepath: String) -> (r: PersistenceManager)
        ensures
            r.wf(),
            r@ == Map::<Seq<char>, Seq<Seq<char>>>::empty(),
            r.root() == basepath@,
            r.failed() == Set::<Seq<char>>::empty(),
    {
        PersistenceManager {
            root_path: basepath,
            segments: Vec::new(),
            records: Ghost(Map::empty()),
            lasts: Ghost(Map::empty()),
            faults: Ghost(Set::empty()),
        }
    }

    fn find(&self, queue_name: &String) -> (r: Option<usize>)
        requires
            self.wf(),
        ensures
            r matches Some(i) ==> i < self.segments@.len() && self.segments@[i as int].name@
                == queue_name@,
            r is None <==> !self@.contains_key(queue_name@),
    {
        let mut i: usize = 0;
        while i < self.segments.len()
            invariant
                self.wf(),
                i <= self.segments@.len(),
                forall|a: int| 0 <= a < i ==> self.segments@[a].name@ != queue_name@,
            decreases self.segments@.len() - i,
        {
            if self.segments[i].name == *queue_name {
                return Some(i);
            }
            i = i + 1;
        }
        proof {
            if self@.contains_key(queue_name@) {
                let a = choose|a: int|
                    0 <= a < self.segments@.len() && self.segments@[a].name@ == queue_name@;
            }
        }
        None
    }

    /// Whether the segment of `queue_name` is open.
    pub fn contains(&self, queue_name: &String) -> (r: bool)
        requires
            self.wf(),
        ensures
            r == self@.contains_key(queue_name@),
    {
        self.find(queue_name).is_some()
    }

    /// Opens the segment of a queue that has none open yet, and hands back the
    /// records it holds, oldest first.
    #[verifier::spinoff_prover]
    pub fn open_segment(&mut self, queue_name: String) -> (r: Result<Vec<String>, QueueError>)
        requires
            old(self).wf(),
            !old(self)@.contains_key(queue_name@),
        ensures
            final(self).wf(),
            final(self).root() == old(self).root(),
            r matches Ok(texts) ==> final(self)@ == old(self)@.insert(
                queue_name@,
                texts@.map_values(|t: String| t@),
            ),
            r matches Err(e) ==> final(self)@ == old(self)@ && e == QueueError::StorageOpen,
            final(self).failed() == old(self).failed(),
            forall|k: Seq<char>| #[trigger]
                old(self).last_seq().contains_key(k) ==> final(self).last_seq().contains_key(k)
                    && final(self).last_seq()[k] == old(self).last_seq()[k],
            r is Ok ==> final(self).path_of(queue_name@) == final(self).root() + "/"@ + queue_name@,
    {
        let (seg, texts) = match Segment::open(&self.root_path, queue_name) {
            Ok(p) => p,
            Err(e) => return Err(e),
        };
        let ghost old_segments = self.segments@;
        let ghost old_records = self.records@;
        let ghost name = seg.name@;
        let ghost old_lasts = self.lasts@;
        self.records = Ghost(self.records@.insert(name, seg.texts@));
        self.lasts = Ghost(self.lasts@.insert(name, seg.last_id));
        self.segments.push(seg);
        proof {
            assert forall|k: Seq<char>| #[trigger] self.records@.contains_key(k) implies exists|
                i: int,
            | 0 <= i < self.segments@.len() && self.segments@[i].name@ == k by {
                if k == name {
                    assert(self.segments@[old_segments.len() as int].name@ == k);
                } else {
                    assert(old_records.contains_key(k));
                    let i = choose|i: int|
                        0 <= i < old_segments.len() && old_segments[i].name@ == k;
                    assert(self.segments@[i] == old_segments[i]);
                }
            }
            assert forall|i: int|
                0 <= i < self.segments@.len() implies self.records@.contains_key(
                #[trigger] self.segments@[i].name@,
            ) && self.records@[self.segments@[i].name@] == self.segments@[i].texts@ by {
                if i < old_segments.len() {
                    assert(self.segments@[i] == old_segments[i]);
                    assert(old_records.contains_key(old_segments[i].name@));
                }
            }
            assert(!old_lasts.contains_key(name)) by {
                if old_lasts.contains_key(name) {
                    let i = choose|i: int|
                        0 <= i < old_segments.len() && old_segments[i].name@ == name;
                    assert(old_records.contains_key(name));
                }
            }
            assert(!self.faults@.contains(name)) by {
                if self.faults@.contains(name) {
                    let i = choose|i: int|
                        0 <= i < old_segments.len() && old_segments[i].name@ == name;
                    assert(old_records.contains_key(name));
                }
            }
            assert forall|i: int| 0 <= i < self.segments@.len() implies self.lasts@.contains_key(
                #[trigger] self.segments@[i].name@,
            ) && self.lasts@[self.segments@[i].name@] == self.segments@[i].last_id && (
            self.faults@.contains(self.segments@[i].name@) <==> self.segments@[i].faulted) by {
                if i < old_segments.len() {
                    assert(self.segments@[i] == old_segments[i]);
                    assert(old_records.contains_key(old_segments[i].name@));
                }
            }
            assert forall|k: Seq<char>| #[trigger] self.faults@.contains(k) implies exists|i: int|
                0 <= i < self.segments@.len() && self.segments@[i].name@ == k by {
                let i = choose|i: int| 0 <= i < old_segments.len() && old_segments[i].name@ == k;
                assert(self.segments@[i] == old_segments[i]);
            }
            assert forall|k: Seq<char>| #[trigger] self.lasts@.contains_key(k) implies exists|i: int|
                0 <= i < self.segments@.len() && self.segments@[i].name@ == k by {
                if k == name {
                    assert(self.segments@[old_segments.len() as int].name@ == k);
                } else {
                    let i = choose|i: int| 0 <= i < old_segments.len() && old_segments[i].name@ == k;
                    assert(self.segments@[i] == old_segments[i]);
                }
            }
        }
        proof {
            self.lemma_segment_path(name);
        }
        Ok(texts)
    }

    /// Makes sure the segment of `queue_name` is open.
    pub fn load_or_create_database(&mut self, queue_name: String) -> (r: Result<bool, QueueError>)
        requires
            old(self).wf(),
        ensures
            final(self).wf(),
            final(self).root() == old(self).root(),
            r is Ok <==> final(self)@.contains_key(queue_name@),
            r matches Ok(b) ==> b,
            old(self)@.contains_key(queue_name@) ==> r is Ok && final(self)@ == old(self)@,
            final(self)@.remove(queue_name@) == old(self)@.remove(queue_name@),
            r matches Err(e) ==> final(self)@ == old(self)@ && e == QueueError::StorageOpen,
            final(self).failed() == old(self).failed(),
            forall|k: Seq<char>| #[trigger]
                old(self).last_seq().contains_key(k) ==> final(self).last_seq().contains_key(k)
                    && final(self).last_seq()[k] == old(self).last_seq()[k],
            r is Ok ==> final(self).path_of(queue_name@) == final(self).root() + "/"@ + queue_name@,
    {
        if self.contains(&queue_name) {
            proof {
                self.lemma_segment_path(queue_name@);
            }
            return Ok(true);
        }
        let ghost q = queue_name@;
        match self.open_segment(queue_name) {
            Ok(_) => {
                assert(self@.remove(q) =~= old(self)@.remove(q));
                proof {
                    self.lemma_segment_path(q);
                }
                Ok(true)
            },
            Err(e) => Err(e),
        }
    }

    /// Opens the segments of queues found under the root directory.
    #[verifier::spinoff_prover]
    pub fn setup(&mut self, queue_names: Vec<String>) -> (r: Result<(), QueueError>)
        requires
            old(self).wf(),
        ensures
            final(self).wf(),
            final(self).root() == old(self).root(),
            forall|k: Seq<char>| #[trigger]
                old(self)@.contains_key(k) ==> final(self)@.contains_key(k) && final(self)@[k]
                    == old(self)@[k],
            r is Ok ==> forall|i: int|
                0 <= i < queue_names@.len() ==> final(self)@.contains_key(
                    #[trigger] queue_names@[i]@,
                ),
            r matches Err(e) ==> e == QueueError::StorageOpen,
            (forall|i: int|
                0 <= i < queue_names@.len() ==> old(self)@.contains_key(
                    #[trigger] queue_names@[i]@,
                )) ==> r is Ok,
            forall|k: Seq<char>| #[trigger]
                final(self)@.contains_key(k) ==> old(self)@.contains_key(k)
                    || queue_names@.map_values(|n: String| n@).contains(k),
            final(self).failed() == old(self).failed(),
    {
        let mut i: usize = 0;
        while i < queue_names.len()
            invariant
                self.wf(),
                self.root() == old(self).root(),
                i <= queue_names@.len(),
                forall|k: Seq<char>| #[trigger]
                    old(self)@.contains_key(k) ==> self@.contains_key(k) && self@[k]
                        == old(self)@[k],
                forall|a: int| 0 <= a < i ==> self@.contains_key(#[trigger] queue_names@[a]@),
                forall|k: Seq<char>| #[trigger]
                    self@.contains_key(k) ==> old(self)@.contains_key(k)
                        || queue_names@.map_values(|n: String| n@).contains(k),
                self.failed() == old(self).failed(),
            decreases queue_names@.len() - i,
        {
            let ghost before = self@;
            match self.load_or_create_database(queue_names[i].clone()) {
                Ok(_) => {},
                Err(e) => return Err(e),
            }
            proof {
                assert forall|k: Seq<char>| #[trigger]
                    self@.contains_key(k) implies old(self)@.contains_key(k)
                        || queue_names@.map_values(|n: String| n@).contains(k) by {
                    let n = queue_names@[i as int]@;
                    if k == n {
                        assert(queue_names@.map_values(|n: String| n@)[i as int] == k);
                    } else {
                        assert(self@.remove(n).contains_key(k));
                        assert(before.remove(n).contains_key(k));
                    }
                }
                assert forall|k: Seq<char>| #[trigger] before.contains_key(k) implies self@.contains_key(k) && self@[k] == before[k] by {
                    let n = queue_names@[i as int]@;
                    if k != n {
                        assert(before.remove(n).contains_key(k));
                        assert(self@.remove(n).contains_key(k));
                        assert(self@.remove(n)[k] == before.remove(n)[k]);
                    }
                }
                assert forall|a: int| 0 <= a <= i implies self@.contains_key(#[trigger] queue_names@[a]@) by {
                    if a < i {
                        assert(before.contains_key(queue_names@[a]@));
                    }
                }
            }
            i = i + 1;
        }
        Ok(())
    }

    /// Writes `body` as the newest record of `queue_name`, opening its segment
    /// first when needed.
    #[verifier::spinoff_prover]
    pub fn push_item(&mut self, queue_name: String, body: String) -> (r: Result<
        KVTimestamp,
        QueueError,
    >)
        requires
            old(self).wf(),
        ensures
            final(self).wf(),
            final(self).root() == old(self).root(),
            final(self)@.remove(queue_name@) == old(self)@.remove(queue_name@),
            old(self)@.contains_key(queue_name@) ==> match r {
                Ok(_) => final(self)@ == old(self)@.insert(
                    queue_name@,
                    old(self)@[queue_name@].push(body@),
                ),
                Err(e) => final(self)@ == old(self)@ && e == QueueError::StorageWrite,
            },
            old(self)@.contains_key(queue_name@) && old(self).failed().contains(queue_name@) ==> r
                == Err::<KVTimestamp, QueueError>(QueueError::StorageWrite),
            r is Ok ==> final(self)@.contains_key(queue_name@) && final(self)@[queue_name@].last()
                == body@,
            r matches Ok(kv) ==> kv.value@ == body@ && kv.old_value@ == body@ && exists|id: u64|
                kv.key@ == record_key(id) && final(self).last_seq()[queue_name@] == Some(id) && (
                old(self).last_seq().contains_key(queue_name@) ==> (old(self).last_seq()[queue_name@] matches Some(
                    l,
                ) ==> l < id)),
            r is Ok ==> final(self).failed() == old(self).failed(),
            r is Ok ==> final(self).last_seq().contains_key(queue_name@),
            old(self).failed().subset_of(final(self).failed()),
            final(self).failed().subset_of(old(self).failed().insert(queue_name@)),
            forall|k: Seq<char>| #[trigger]
                old(self).last_seq().contains_key(k) && k != queue_name@ ==> final(self).last_seq().contains_key(k)
                    && final(self).last_seq()[k] == old(self).last_seq()[k],
            r is Err && old(self)@.contains_key(queue_name@) ==> final(self).last_seq() == old(self).last_seq(),
    {
        match self.load_or_create_database(queue_name.clone()) {
            Ok(_) => {},
            Err(e) => return Err(e),
        }
        let ghost mid = self@;
        let i = match self.find(&queue_name) {
            Some(i) => i,
            None => return Err(QueueError::StorageOpen),
        };
        let ghost old_segments = self.segments@;
        let ghost old_records = self.records@;
        assert(old_records.contains_key(old_segments[i as int].name@));
        let ghost old_lasts = self.lasts@;
        let ghost old_faults = self.faults@;
        proof {
            assert(old_lasts.contains_key(old_segments[i as int].name@));
        }
        let res = self.segments[i].append(&body);
        self.records = Ghost(self.records@.insert(queue_name@, self.segments@[i as int].texts@));
        self.lasts = Ghost(self.lasts@.insert(queue_name@, self.segments@[i as int].last_id));
        if self.segments[i].faulted {
            self.faults = Ghost(self.faults@.insert(queue_name@));
        }
        proof {
            lemma_replace_state(old_segments, old_records, old_lasts, old_faults, i as int, self.segments@[i as int]);
            lemma_replace_segment(old_segments, old_records, i as int, self.segments@[i as int]);
            assert(self.segments@ == old_segments.update(i as int, self.segments@[i as int]));
            if res is Err {
                assert(self.lasts@ =~= old_lasts);
            }
        }
        let key = match res {
            Ok(k) => k,
            Err(e) => {
                assert(self@ =~= mid);
                return Err(e);
            },
        };
        let now = local_now();
        Ok(KVTimestamp { key, old_value: body.clone(), value: body, timestamp: now.unix_millis })
    }

    /// Removes and hands back the oldest record of `queue_name`.
    #[verifier::spinoff_prover]
    pub fn pop_item(&mut self, queue_name: String) -> (r: Result<String, QueueError>)
        requires
            old(self).wf(),
        ensures
            final(self).wf(),
            final(self).root() == old(self).root(),
            final(self)@.remove(queue_name@) == old(self)@.remove(queue_name@),
            old(self)@.contains_key(queue_name@) ==> {
                &&& old(self)@[queue_name@].len() == 0 <==> r == Err::<String, QueueError>(
                    QueueError::QueueEmpty,
                )
                &&& match r {
                    Ok(t) => old(self)@[queue_name@].len() > 0 && t@ == old(self)@[queue_name@][0]
                        && final(self)@ == old(self)@.insert(
                        queue_name@,
                        old(self)@[queue_name@].drop_first(),
                    ),
                    Err(e) => final(self)@ == old(self)@ && (e == QueueError::QueueEmpty || e
                        == QueueError::StorageWrite),
                }
                &&& old(self).failed().contains(queue_name@) && old(self)@[queue_name@].len() > 0
                    ==> r == Err::<String, QueueError>(QueueError::StorageWrite)
                &&& final(self).last_seq() == old(self).last_seq()
            },
            r is Ok ==> final(self).failed() == old(self).failed(),
            old(self).failed().subset_of(final(self).failed()),
            final(self).failed().subset_of(old(self).failed().insert(queue_name@)),
    {
        match self.load_or_create_database(queue_name.clone()) {
            Ok(_) => {},
            Err(e) => return Err(e),
        }
        let ghost mid = self@;
        let i = match self.find(&queue_name) {
            Some(i) => i,
            None => return Err(QueueError::StorageOpen),
        };
        let ghost old_segments = self.segments@;
        let ghost old_records = self.records@;
        assert(old_records.contains_key(old_segments[i as int].name@));
        let ghost old_lasts = self.lasts@;
        let ghost old_faults = self.faults@;
        proof {
            assert(old_lasts.contains_key(old_segments[i as int].name@));
        }
        let res = self.segments[i].take_oldest();
        self.records = Ghost(self.records@.insert(queue_name@, self.segments@[i as int].texts@));
        self.lasts = Ghost(self.lasts@.insert(queue_name@, self.segments@[i as int].last_id));
        if self.segments[i].faulted {
            self.faults = Ghost(self.faults@.insert(queue_name@));
        }
        proof {
            lemma_replace_state(old_segments, old_records, old_lasts, old_faults, i as int, self.segments@[i as int]);
            lemma_replace_segment(old_segments, old_records, i as int, self.segments@[i as int]);
            assert(self.segments@ == old_segments.update(i as int, self.segments@[i as int]));
            assert(self.lasts@ =~= old_lasts);
        }
        match res {
            Ok(t) => Ok(t),
            Err(e) => {
                assert(self@ =~= mid);
                Err(e)
            },
        }
    }
}

} // verus!
