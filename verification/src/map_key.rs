//! Keys of a map as they are stored: serialized to bytes, and read back.
use vstd::prelude::*;
use crate::account::be_value;
use crate::keys::copy_bytes;
use crate::lex::lex_lt;

verus! {

/// Why stored bytes could not be read back as a key.
#[derive(Debug, PartialEq, Eq, Structural)]
pub enum KeyError {
    /// No key serializes to these bytes.
    InvalidKey,
}

/// A type whose values serve as map keys, for users to implement. What a
/// method's contract states is believed of every implementation; the
/// implementations in this crate prove it of their own.
pub trait MapKey: Sized {
    /// The bytes that the key is stored as.
    spec fn spec_serialize(&self) -> Seq<u8>;

    /// The bytes that the key is stored as.
    fn serialize(&self) -> (r: Vec<u8>)
        ensures
            r@ == self.spec_serialize(),
    ;

    /// The key stored as `bytes`, or an error when no key is stored so.
    fn deserialize(bytes: &[u8]) -> (r: Result<Self, KeyError>)
        ensures
            match r {
                Ok(k) => k.spec_serialize() == bytes@,
                Err(e) => e == KeyError::InvalidKey && forall|k: Self| #[trigger] k.spec_serialize() != bytes@,
            },
    ;
}

impl MapKey for Vec<u8> {
    open spec fn spec_serialize(&self) -> Seq<u8> {
        self@
    }

    fn serialize(&self) -> (r: Vec<u8>) {
        copy_bytes(self.as_slice())
    }

    fn deserialize(bytes: &[u8]) -> (r: Result<Self, KeyError>) {
        Ok(copy_bytes(bytes))
    }
}

/// A number as eight big-endian bytes.
pub open spec fn be64(x: u64) -> Seq<u8> {
    seq![
        (x >> 56u64) as u8,
        (x >> 48u64) as u8,
        (x >> 40u64) as u8,
        (x >> 32u64) as u8,
        (x >> 24u64) as u8,
        (x >> 16u64) as u8,
        (x >> 8u64) as u8,
        x as u8,
    ]
}

impl MapKey for u64 {
    open spec fn spec_serialize(&self) -> Seq<u8> {
        be64(*self)
    }

    fn serialize(&self) -> (r: Vec<u8>)
        ensures
            r@.len() == 8,
            be_value(r@) == *self as nat,
    {
        let x = *self;
        let mut r: Vec<u8> = Vec::new();
        r.push((x >> 56u64) as u8);
        r.push((x >> 48u64) as u8);
        r.push((x >> 40u64) as u8);
        r.push((x >> 32u64) as u8);
        r.push((x >> 24u64) as u8);
        r.push((x >> 16u64) as u8);
        r.push((x >> 8u64) as u8);
        r.push(x as u8);
        assert(r@ =~= be64(x));
        proof {
            law_u64_key_is_big_endian(x);
        }
        r
    }

    fn deserialize(bytes: &[u8]) -> (r: Result<Self, KeyError>)
        ensures
            r is Ok <==> bytes@.len() == 8,
            r matches Ok(k) ==> k as nat == be_value(bytes@),
    {
        if bytes.len() != 8 {
            assert forall|k: u64| #[trigger] k.spec_serialize() != bytes@ by {
                assert(be64(k).len() == 8);
            }
            return Err(KeyError::InvalidKey);
        }
        let b0 = bytes[0];
        let b1 = bytes[1];
        let b2 = bytes[2];
        let b3 = bytes[3];
        let b4 = bytes[4];
        let b5 = bytes[5];
        let b6 = bytes[6];
        let b7 = bytes[7];
        let x: u64 = ((b0 as u64) << 56u64) | ((b1 as u64) << 48u64) | ((b2 as u64) << 40u64) | ((b3 as u64)
            << 32u64) | ((b4 as u64) << 24u64) | ((b5 as u64) << 16u64) | ((b6 as u64) << 8u64) | (b7 as u64);
        assert((x >> 56u64) as u8 == b0 && (x >> 48u64) as u8 == b1 && (x >> 40u64) as u8 == b2 && (x >> 32u64) as u8
            == b3 && (x >> 24u64) as u8 == b4 && (x >> 16u64) as u8 == b5 && (x >> 8u64) as u8 == b6 && x as u8
            == b7) by (bit_vector)
            requires
                x == ((b0 as u64) << 56u64) | ((b1 as u64) << 48u64) | ((b2 as u64) << 40u64) | ((b3 as u64)
                    << 32u64) | ((b4 as u64) << 24u64) | ((b5 as u64) << 16u64) | ((b6 as u64) << 8u64) | (
                b7 as u64),
        ;
        assert(be64(x) =~= bytes@);
        proof {
            law_u64_key_is_big_endian(x);
        }
        Ok(x)
    }
}

/// 256 to the power `n`.
pub open spec fn pow256(n: nat) -> nat
    decreases n,
{
    if n == 0 {
        1
    } else {
        pow256((n - 1) as nat) * 256
    }
}

proof fn lemma_mul_step_lt(v: nat, bound: nat, x: u8)
    requires
        v < bound,
    ensures
        v * 256 + x < bound * 256,
{
    assert(v * 256 + x < bound * 256) by (nonlinear_arith)
        requires
            v < bound,
            x < 256,
    ;
}

/// A byte string of length `n` stands for a number below 256^n.
proof fn lemma_be_value_bound(s: Seq<u8>)
    ensures
        be_value(s) < pow256(s.len()),
    decreases s.len(),
{
    if s.len() > 0 {
        lemma_be_value_bound(s.drop_last());
        lemma_mul_step_lt(be_value(s.drop_last()), pow256(s.drop_last().len()), s.last());
    }
}

/// The number of a byte string is its first byte times 256^(rest) plus the
/// number of the rest.
proof fn lemma_be_value_front(c: u8, s: Seq<u8>)
    ensures
        be_value(seq![c] + s) == c * pow256(s.len()) + be_value(s),
    decreases s.len(),
{
    let t = seq![c] + s;
    if s.len() == 0 {
        assert(t =~= seq![c]);
        assert(t.drop_last() =~= Seq::<u8>::empty());
        assert(t.last() == c);
        assert(be_value(Seq::<u8>::empty()) == 0);
        assert(be_value(t) == be_value(t.drop_last()) * 256 + t.last());
        assert(be_value(s) == 0);
        assert(c * pow256(0) == c) by (nonlinear_arith)
            requires
                pow256(0) == 1,
        ;
    } else {
        assert(t.drop_last() =~= seq![c] + s.drop_last());
        assert(t.last() == s.last());
        lemma_be_value_front(c, s.drop_last());
        let p = pow256(s.drop_last().len());
        let r = be_value(s.drop_last());
        assert(pow256(s.len()) == p * 256);
        assert(be_value(s) == r * 256 + s.last());
        assert(be_value(t) == be_value(t.drop_last()) * 256 + t.last());
        assert((c * p + r) * 256 + s.last() == c * (p * 256) + (r * 256 + s.last())) by (nonlinear_arith);
    }
}

proof fn lemma_lead_decides(c1: u8, c2: u8, r1: nat, r2: nat, p: nat)
    requires
        c1 < c2,
        r1 < p,
    ensures
        c1 * p + r1 < c2 * p + r2,
{
    assert(c1 * p + r1 < c2 * p + r2) by (nonlinear_arith)
        requires
            c1 < c2,
            r1 < p,
    ;
}

/// For byte strings of one length, lexicographic order is the order of the
/// numbers they stand for in big-endian.
pub proof fn lemma_lex_is_numeric_order(s: Seq<u8>, t: Seq<u8>)
    requires
        s.len() == t.len(),
    ensures
        lex_lt(s, t) == (be_value(s) < be_value(t)),
    decreases s.len(),
{
    if s.len() == 0 {
        assert(s =~= t);
    } else {
        let s1 = s.drop_first();
        let t1 = t.drop_first();
        assert(s =~= seq![s[0]] + s1);
        assert(t =~= seq![t[0]] + t1);
        lemma_be_value_front(s[0], s1);
        lemma_be_value_front(t[0], t1);
        lemma_be_value_bound(s1);
        lemma_be_value_bound(t1);
        let p = pow256(s1.len());
        if s[0] < t[0] {
            lemma_lead_decides(s[0], t[0], be_value(s1), be_value(t1), p);
        } else if t[0] < s[0] {
            lemma_lead_decides(t[0], s[0], be_value(t1), be_value(s1), p);
        } else {
            lemma_lex_is_numeric_order(s1, t1);
        }
    }
}

/// A `u64` key is stored as its eight big-endian bytes: eight bytes that
/// stand, in big-endian, for the key itself.
pub proof fn law_u64_key_is_big_endian(x: u64)
    ensures
        x.spec_serialize().len() == 8,
        be_value(x.spec_serialize()) == x as nat,
{
    let s = x.spec_serialize();
    let b0 = (x >> 56u64) as u8;
    let b1 = (x >> 48u64) as u8;
    let b2 = (x >> 40u64) as u8;
    let b3 = (x >> 32u64) as u8;
    let b4 = (x >> 24u64) as u8;
    let b5 = (x >> 16u64) as u8;
    let b6 = (x >> 8u64) as u8;
    let b7 = x as u8;
    let s0 = Seq::<u8>::empty();
    let s1 = s0.push(b0);
    let s2 = s1.push(b1);
    let s3 = s2.push(b2);
    let s4 = s3.push(b3);
    let s5 = s4.push(b4);
    let s6 = s5.push(b5);
    let s7 = s6.push(b6);
    let s8 = s7.push(b7);
    assert(s =~= s8);
    assert(s1.drop_last() =~= s0);
    assert(s2.drop_last() =~= s1);
    assert(s3.drop_last() =~= s2);
    assert(s4.drop_last() =~= s3);
    assert(s5.drop_last() =~= s4);
    assert(s6.drop_last() =~= s5);
    assert(s7.drop_last() =~= s6);
    assert(s8.drop_last() =~= s7);
    assert(s1.last() == b0 && s2.last() == b1 && s3.last() == b2 && s4.last() == b3);
    assert(s5.last() == b4 && s6.last() == b5 && s7.last() == b6 && s8.last() == b7);
    assert(be_value(s0) == 0);
    assert(be_value(s1) == be_value(s0) * 256 + b0);
    assert(be_value(s2) == be_value(s1) * 256 + b1);
    assert(be_value(s3) == be_value(s2) * 256 + b2);
    assert(be_value(s4) == be_value(s3) * 256 + b3);
    assert(be_value(s5) == be_value(s4) * 256 + b4);
    assert(be_value(s6) == be_value(s5) * 256 + b5);
    assert(be_value(s7) == be_value(s6) * 256 + b6);
    assert(be_value(s8) == be_value(s7) * 256 + b7);
    assert(x == ((((((b0 * 256u64 + b1) * 256u64 + b2) * 256u64 + b3) * 256u64 + b4) * 256u64 + b5) * 256u64 + b6)
        * 256u64 + b7) by (bit_vector)
        requires
            b0 == (x >> 56u64) as u8,
            b1 == (x >> 48u64) as u8,
            b2 == (x >> 40u64) as u8,
            b3 == (x >> 32u64) as u8,
            b4 == (x >> 24u64) as u8,
            b5 == (x >> 16u64) as u8,
            b6 == (x >> 8u64) as u8,
            b7 == x as u8,
    ;
}

/// `u64` keys are stored so that the store's byte order is their numeric
/// order: `a < b` exactly when the bytes of `a` come before those of `b`.
pub proof fn law_u64_key_order(a: u64, b: u64)
    ensures
        (a < b) == lex_lt(a.spec_serialize(), b.spec_serialize()),
{
    law_u64_key_is_big_endian(a);
    law_u64_key_is_big_endian(b);
    lemma_lex_is_numeric_order(a.spec_serialize(), b.spec_serialize());
}

/// Distinct `u64` keys are stored as distinct bytes, so reading back the
/// bytes of `x` gives `x` and nothing else.
pub proof fn law_u64_key_read_back(x: u64, k: u64)
    ensures
        k.spec_serialize() == x.spec_serialize() <==> k == x,
{
    law_u64_key_is_big_endian(x);
    law_u64_key_is_big_endian(k);
}

} // verus!
