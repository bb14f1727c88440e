use vstd::prelude::*;
use vstd::arithmetic::power::pow;

verus! {

/// `len` base-256 digits of `n`, most significant first.
pub open spec fn be_bytes(n: nat, len: nat) -> Seq<u8>
    decreases len,
{
    if len == 0 {
        seq![]
    } else {
        be_bytes(n / 256, (len - 1) as nat).push((n % 256) as u8)
    }
}

/// The number whose base-256 digits, most significant first, are `s`.
pub open spec fn be_value(s: Seq<u8>) -> nat
    decreases s.len(),
{
    if s.len() == 0 {
        0
    } else {
        (be_value(s.drop_last()) * 256 + s.last()) as nat
    }
}

/// The durable key of the record with sequence number `seq`: eight big-endian
/// bytes, so that the store's byte order is the numeric order.
pub open spec fn record_key(seq: u64) -> Seq<u8> {
    be_bytes(seq as nat, 8)
}

/// Reading the digits back gives the number, for a number that fits.
pub proof fn lemma_be_round_trip(n: nat, len: nat)
    requires
        n < pow(256, len),
    ensures
        be_value(be_bytes(n, len)) == n,
    decreases len,
{
    vstd::arithmetic::power::lemma_pow0(256);
    if len > 0 {
        let d = (len - 1) as nat;
        assert(pow(256, len) == 256 * pow(256, d)) by {
            vstd::arithmetic::power::lemma_pow_adds(256, 1, d);
            vstd::arithmetic::power::lemma_pow1(256);
        }
        assert(n / 256 < pow(256, d)) by (nonlinear_arith)
            requires
                n < 256 * pow(256, d),
        ;
        lemma_be_round_trip(n / 256, d);
        let s = be_bytes(n, len);
        assert(s.drop_last() == be_bytes(n / 256, d));
        assert(n == (n / 256) * 256 + n % 256) by (nonlinear_arith);
    }
}

/// Writing out the value of `len` digits gives those digits back.
pub proof fn lemma_be_value_round_trip(s: Seq<u8>)
    ensures
        be_bytes(be_value(s), s.len()) == s,
        be_value(s) < pow(256, s.len()),
    decreases s.len(),
{
    vstd::arithmetic::power::lemma_pow0(256);
    if s.len() > 0 {
        let t = s.drop_last();
        lemma_be_value_round_trip(t);
        let v = be_value(t);
        let b = s.last() as nat;
        assert((v * 256 + b) / 256 == v && (v * 256 + b) % 256 == b) by (nonlinear_arith)
            requires
                b < 256,
        ;
        assert(pow(256, s.len()) == 256 * pow(256, t.len())) by {
            vstd::arithmetic::power::lemma_pow_adds(256, 1, t.len());
            vstd::arithmetic::power::lemma_pow1(256);
        }
        assert(v * 256 + b < pow(256, s.len())) by (nonlinear_arith)
            requires
                v < pow(256, t.len()),
                b < 256,
                pow(256, s.len()) == 256 * pow(256, t.len()),
        ;
        assert(be_bytes(be_value(s), s.len()) =~= s);
    }
}

pub proof fn lemma_pow_256_8()
    ensures
        pow(256, 8) == 0x1_0000_0000_0000_0000,
{
    reveal_with_fuel(pow, 9);
}

/// Distinct sequence numbers have distinct keys.
pub proof fn lemma_record_key_injective(a: u64, b: u64)
    ensures
        record_key(a) == record_key(b) ==> a == b,
{
    lemma_pow_256_8();
    lemma_be_round_trip(a as nat, 8);
    lemma_be_round_trip(b as nat, 8);
}

/// The key bytes of sequence number `seq`.
pub fn encode_key(seq: u64) -> (r: Vec<u8>)
    ensures
        r@ == record_key(seq),
{
    be_encode(seq, 8)
}

fn be_encode(n: u64, len: usize) -> (r: Vec<u8>)
    ensures
        r@ == be_bytes(n as nat, len as nat),
    decreases len,
{
    if len == 0 {
        Vec::new()
    } else {
        let mut v = be_encode(n / 256, len - 1);
        v.push((n % 256) as u8);
        v
    }
}

/// The sequence number that a stored key stands for, if it is a well-formed key.
pub fn decode_key(k: &[u8]) -> (r: Option<u64>)
    ensures
        r is Some <==> k@.len() == 8,
        r matches Some(n) ==> record_key(n) == k@,
{
    if k.len() != 8 {
        return None;
    }
    let mut acc: u64 = 0;
    let mut i: usize = 0;
    while i < 8
        invariant
            k@.len() == 8,
            i <= 8,
            acc as nat == be_value(k@.subrange(0, i as int)),
        decreases 8 - i,
    {
        proof {
            let t = k@.subrange(0, i as int);
            lemma_be_value_round_trip(t);
            assert(pow(256, 7) == 0x1_0000_0000_0000_00) by {
                reveal_with_fuel(pow, 8);
            }
            vstd::arithmetic::power::lemma_pow_increases(256, t.len(), 7);
            assert(k@.subrange(0, i + 1).drop_last() =~= t);
            assert(acc * 256 + k@[i as int] < 0x1_0000_0000_0000_0000) by (nonlinear_arith)
                requires
                    acc < pow(256, t.len()),
                    pow(256, t.len()) <= pow(256, 7),
                    pow(256, 7) == 0x1_0000_0000_0000_00,
                    k@[i as int] < 256,
            ;
        }
        acc = acc * 256 + k[i] as u64;
        i = i + 1;
    }
    proof {
        assert(k@.subrange(0, 8) =~= k@);
        lemma_be_value_round_trip(k@);
    }
    Some(acc)
}

} // verus!
