//! How storage keys are built from a namespace, nested prefixes and a key,
//! and the byte operations that turn a prefix into a range of keys.
use vstd::prelude::*;
use crate::lex::{
    is_prefix, lemma_bump_last_bound, lemma_push_zero_successor, lex_le, lex_lt,
};
use crate::storage::in_scan_range;

verus! {

/// The largest length that a two-byte length header can carry.
pub const MAX_LENGTH_PREFIXED: usize = 0xffff;

/// A length written as two big-endian bytes.
pub open spec fn be16(n: nat) -> Seq<u8> {
    seq![(n / 256) as u8, (n % 256) as u8]
}

/// A byte string preceded by its length in two big-endian bytes.
pub open spec fn length_prefixed(b: Seq<u8>) -> Seq<u8> {
    be16(b.len()) + b
}

/// Each prefix in turn, each preceded by its length.
pub open spec fn encode_prefixes(ps: Seq<Seq<u8>>) -> Seq<u8>
    decreases ps.len(),
{
    if ps.len() == 0 {
        Seq::empty()
    } else {
        encode_prefixes(ps.drop_last()) + length_prefixed(ps.last())
    }
}

/// The byte strings held by a list of vectors.
pub open spec fn byte_views(ps: Seq<Vec<u8>>) -> Seq<Seq<u8>> {
    ps.map_values(|v: Vec<u8>| v@)
}

/// Every byte string of the list fits a two-byte length header.
pub open spec fn all_length_prefixable(ps: Seq<Seq<u8>>) -> bool {
    forall|i: int| 0 <= i < ps.len() ==> #[trigger] ps[i].len() <= MAX_LENGTH_PREFIXED
}

/// The storage key made of an optional namespace and a list of prefixes,
/// each preceded by its length, then an optional key as it is.
pub open spec fn spec_nested_namespaces_with_key(
    namespace: Option<Seq<u8>>,
    prefixes: Seq<Seq<u8>>,
    key: Option<Seq<u8>>,
) -> Seq<u8> {
    let head = match namespace {
        Some(n) => length_prefixed(n),
        None => Seq::empty(),
    };
    let tail = match key {
        Some(k) => k,
        None => Seq::empty(),
    };
    head + encode_prefixes(prefixes) + tail
}

/// The result of raising a byte string by one as a big-endian number, where
/// bytes that overflow become zero (a string of 0xff bytes wraps to zeros).
pub open spec fn spec_increment_last_byte(b: Seq<u8>) -> Seq<u8>
    decreases b.len(),
{
    if b.len() == 0 {
        b
    } else if b.last() == 255 {
        spec_increment_last_byte(b.drop_last()).push(0)
    } else {
        b.drop_last().push((b.last() + 1) as u8)
    }
}

/// Appends the bytes of `src` to `out`.
pub fn append_bytes(out: &mut Vec<u8>, src: &[u8])
    ensures
        final(out)@ == old(out)@ + src@,
{
    let n = src.len();
    let ghost start = out@;
    for i in 0..n
        invariant
            n == src@.len(),
            out@ == start + src@.subrange(0, i as int),
    {
        out.push(src[i]);
        assert(src@.subrange(0, i + 1) =~= src@.subrange(0, i as int).push(src@[i as int]));
    }
    assert(src@.subrange(0, n as int) =~= src@);
}

/// The length of `bytes` as two big-endian bytes.
pub fn encode_length(bytes: &[u8]) -> (r: [u8; 2])
    requires
        bytes@.len() <= MAX_LENGTH_PREFIXED,
    ensures
        r@ == be16(bytes@.len()),
{
    let len = bytes.len();
    let r = [(len / 256) as u8, (len % 256) as u8];
    assert(r@ =~= be16(bytes@.len()));
    r
}

/// Appends `bytes` preceded by its two-byte length.
fn append_length_prefixed(out: &mut Vec<u8>, bytes: &[u8])
    requires
        bytes@.len() <= MAX_LENGTH_PREFIXED,
    ensures
        final(out)@ == old(out)@ + length_prefixed(bytes@),
{
    let len = encode_length(bytes);
    append_bytes(out, &len);
    append_bytes(out, bytes);
    assert(old(out)@ + len@ + bytes@ =~= old(out)@ + length_prefixed(bytes@));
}

/// Builds a storage key: the namespace and each prefix preceded by its
/// length in two big-endian bytes, then the key as it is.
pub fn nested_namespaces_with_key(
    maybe_namespace: Option<&[u8]>,
    prefixes: &[Vec<u8>],
    maybe_key: Option<&[u8]>,
) -> (out: Vec<u8>)
    requires
        maybe_namespace matches Some(n) ==> n@.len() <= MAX_LENGTH_PREFIXED,
        all_length_prefixable(byte_views(prefixes@)),
    ensures
        out@ == spec_nested_namespaces_with_key(
            match maybe_namespace {
                Some(n) => Some(n@),
                None => None,
            },
            byte_views(prefixes@),
            match maybe_key {
                Some(k) => Some(k@),
                None => None,
            },
        ),
{
    let mut out: Vec<u8> = Vec::new();
    if let Some(namespace) = maybe_namespace {
        append_length_prefixed(&mut out, namespace);
    }
    let ghost head = out@;
    let ghost ps = byte_views(prefixes@);
    let n = prefixes.len();
    assert(ps.take(0) =~= Seq::<Seq<u8>>::empty());
    assert(out@ =~= head + encode_prefixes(ps.take(0)));
    for i in 0..n
        invariant
            n == prefixes@.len(),
            ps == byte_views(prefixes@),
            all_length_prefixable(ps),
            out@ == head + encode_prefixes(ps.take(i as int)),
    {
        assert(ps[i as int].len() <= MAX_LENGTH_PREFIXED);
        append_length_prefixed(&mut out, prefixes[i].as_slice());
        assert(ps.take(i + 1).drop_last() =~= ps.take(i as int));
        assert(ps.take(i + 1).last() == prefixes@[i as int]@);
    }
    assert(ps.take(n as int) =~= ps);
    if let Some(key) = maybe_key {
        append_bytes(&mut out, key);
    } else {
        assert(out@ =~= out@ + Seq::<u8>::empty());
    }
    out
}

/// A copy of `bytes` in a vector of its own.
pub fn copy_bytes(bytes: &[u8]) -> (out: Vec<u8>)
    ensures
        out@ == bytes@,
{
    let mut out: Vec<u8> = Vec::new();
    append_bytes(&mut out, bytes);
    assert(Seq::<u8>::empty() + bytes@ =~= bytes@);
    out
}

/// `namespace` followed by `key`.
pub fn concat(namespace: &[u8], key: &[u8]) -> (joined: Vec<u8>)
    ensures
        joined@ == namespace@ + key@,
{
    let mut joined: Vec<u8> = Vec::new();
    append_bytes(&mut joined, namespace);
    append_bytes(&mut joined, key);
    assert(Seq::<u8>::empty() + namespace@ =~= namespace@);
    joined
}

/// What follows the first `namespace.len()` bytes of `key`.
pub fn trim(namespace: &[u8], key: &[u8]) -> (rest: Vec<u8>)
    requires
        namespace@.len() <= key@.len(),
    ensures
        rest@ == key@.subrange(namespace@.len() as int, key@.len() as int),
{
    let mut rest: Vec<u8> = Vec::new();
    let start = namespace.len();
    let end = key.len();
    let mut i = start;
    while i < end
        invariant
            start <= i <= end,
            start == namespace@.len(),
            end == key@.len(),
            rest@ == key@.subrange(start as int, i as int),
        decreases end - i,
    {
        rest.push(key[i]);
        assert(key@.subrange(start as int, i + 1) =~= key@.subrange(start as int, i as int).push(
            key@[i as int],
        ));
        i += 1;
    }
    rest
}

/// `bytes` followed by one zero byte: the next byte string after `bytes` in
/// lexicographic order.
pub fn extend_one_byte(bytes: Vec<u8>) -> (out: Vec<u8>)
    ensures
        out@ == bytes@.push(0),
{
    let mut bytes = bytes;
    bytes.push(0);
    bytes
}

/// Adds one to the last byte; a last byte of 0xff becomes zero and the carry
/// moves to the byte before it.
pub fn increment_last_byte(bytes: Vec<u8>) -> (out: Vec<u8>)
    ensures
        out@ == spec_increment_last_byte(bytes@),
{
    let ghost orig = bytes@;
    let mut out = bytes;
    let mut i = out.len();
    assert(orig.subrange(0, i as int) =~= orig);
    assert(orig + out@.subrange(i as int, i as int) =~= orig);
    while i > 0
        invariant
            orig == bytes@,
            i <= orig.len(),
            out@.len() == orig.len(),
            spec_increment_last_byte(orig) == spec_increment_last_byte(orig.subrange(0, i as int))
                + out@.subrange(i as int, orig.len() as int),
            out@.subrange(0, i as int) == orig.subrange(0, i as int),
        decreases i,
    {
        let ghost prev = out@;
        let ghost head = orig.subrange(0, i as int);
        assert(head.drop_last() =~= orig.subrange(0, i - 1));
        assert(head.last() == out@[i - 1]);
        if out[i - 1] == 255 {
            out.set(i - 1, 0);
            assert(out@.subrange(i - 1, orig.len() as int) =~= seq![0u8] + prev.subrange(
                i as int,
                orig.len() as int,
            ));
            assert(spec_increment_last_byte(head) == spec_increment_last_byte(head.drop_last()).push(0));
            assert(spec_increment_last_byte(head.drop_last()).push(0) + prev.subrange(i as int, orig.len() as int)
                =~= spec_increment_last_byte(head.drop_last()) + out@.subrange(i - 1, orig.len() as int));
            assert(out@.subrange(0, i - 1) =~= prev.subrange(0, i - 1));
            i -= 1;
        } else {
            let b = out[i - 1];
            assert(b == head.last());
            assert(b != 255);
            out.set(i - 1, b + 1);
            assert(spec_increment_last_byte(head) == head.drop_last().push((b + 1) as u8));
            assert(out@ =~= head.drop_last().push((b + 1) as u8) + prev.subrange(
                i as int,
                orig.len() as int,
            ));
            assert(out@ == spec_increment_last_byte(orig));
            return out;
        }
    }
    assert(orig.subrange(0, 0) =~= Seq::<u8>::empty());
    assert(out@.subrange(0, orig.len() as int) =~= out@);
    out
}

/// Trimming the namespace off a key that `concat` built gives the key back.
pub proof fn law_trim_undoes_concat(namespace: Seq<u8>, key: Seq<u8>)
    ensures
        (namespace + key).subrange(namespace.len() as int, (namespace + key).len() as int) == key,
{
    assert((namespace + key).subrange(namespace.len() as int, (namespace + key).len() as int) =~= key);
}

/// Extending a key by one zero byte gives the next key in lexicographic
/// order: `s < t` exactly when `s ++ [0] <= t`.
pub proof fn law_extend_one_byte_is_successor(s: Seq<u8>, t: Seq<u8>)
    ensures
        lex_lt(s, t) == lex_le(s.push(0), t),
{
    lemma_push_zero_successor(s, t);
}

/// For a prefix whose last byte is below 0xff, the keys from the prefix
/// (included) to the prefix with its last byte incremented (excluded) are
/// exactly the keys that start with the prefix.
pub proof fn law_increment_last_byte_bounds_prefix(p: Seq<u8>, k: Seq<u8>)
    requires
        p.len() > 0,
        p.last() < 255,
    ensures
        in_scan_range(k, Some(p), Some(spec_increment_last_byte(p))) == is_prefix(p, k),
{
    assert(p.drop_last().push(p.last()) =~= p);
    lemma_bump_last_bound(p.drop_last(), p.last(), k);
}

/// `a` and `b` differ at a position that both have, so no byte string
/// starts with both.
pub open spec fn diverge(a: Seq<u8>, b: Seq<u8>) -> bool {
    exists|i: int| 0 <= i < a.len() && i < b.len() && a[i] != b[i]
}

proof fn lemma_diverge_append(a: Seq<u8>, b: Seq<u8>, x: Seq<u8>, y: Seq<u8>)
    requires
        diverge(a, b),
    ensures
        diverge(a + x, b + y),
{
    let i = choose|i: int| 0 <= i < a.len() && i < b.len() && a[i] != b[i];
    assert((a + x)[i] == a[i] && (b + y)[i] == b[i]);
}

proof fn lemma_diverge_after_head(h: Seq<u8>, a: Seq<u8>, b: Seq<u8>)
    requires
        diverge(a, b),
    ensures
        diverge(h + a, h + b),
{
    let i = choose|i: int| 0 <= i < a.len() && i < b.len() && a[i] != b[i];
    assert((h + a)[h.len() + i] == a[i] && (h + b)[h.len() + i] == b[i]);
}

proof fn lemma_length_prefixed_diverge(a: Seq<u8>, b: Seq<u8>)
    requires
        a != b,
        a.len() <= MAX_LENGTH_PREFIXED,
        b.len() <= MAX_LENGTH_PREFIXED,
    ensures
        diverge(length_prefixed(a), length_prefixed(b)),
{
    let la = length_prefixed(a);
    let lb = length_prefixed(b);
    if a.len() != b.len() {
        if a.len() / 256 != b.len() / 256 {
            assert(la[0] != lb[0]);
        } else {
            assert(a.len() % 256 != b.len() % 256);
            assert(la[1] != lb[1]);
        }
    } else {
        if forall|i: int| 0 <= i < a.len() ==> a[i] == b[i] {
            assert(a =~= b);
        }
        let i = choose|i: int| 0 <= i < a.len() && a[i] != b[i];
        assert(la[2 + i] == a[i] && lb[2 + i] == b[i]);
    }
}

proof fn lemma_encode_prefixes_diverge(ps: Seq<Seq<u8>>, qs: Seq<Seq<u8>>)
    requires
        ps.len() == qs.len(),
        ps != qs,
        all_length_prefixable(ps),
        all_length_prefixable(qs),
    ensures
        diverge(encode_prefixes(ps), encode_prefixes(qs)),
    decreases ps.len(),
{
    if ps.len() == 0 {
        assert(ps =~= qs);
    } else if ps.drop_last() != qs.drop_last() {
        lemma_encode_prefixes_diverge(ps.drop_last(), qs.drop_last());
        lemma_diverge_append(
            encode_prefixes(ps.drop_last()),
            encode_prefixes(qs.drop_last()),
            length_prefixed(ps.last()),
            length_prefixed(qs.last()),
        );
    } else {
        if ps.last() == qs.last() {
            assert(ps =~= ps.drop_last().push(ps.last()));
            assert(qs =~= qs.drop_last().push(qs.last()));
        }
        assert(ps.last().len() <= MAX_LENGTH_PREFIXED);
        assert(qs.last().len() <= MAX_LENGTH_PREFIXED);
        lemma_length_prefixed_diverge(ps.last(), qs.last());
        lemma_diverge_after_head(
            encode_prefixes(ps.drop_last()),
            length_prefixed(ps.last()),
            length_prefixed(qs.last()),
        );
    }
}

/// No byte string starts with two byte strings that diverge.
pub proof fn lemma_diverge_no_common_extension(a: Seq<u8>, b: Seq<u8>, k: Seq<u8>)
    requires
        diverge(a, b),
    ensures
        !(is_prefix(a, k) && is_prefix(b, k)),
{
    let i = choose|i: int| 0 <= i < a.len() && i < b.len() && a[i] != b[i];
    if is_prefix(a, k) && is_prefix(b, k) {
        assert(k.subrange(0, a.len() as int)[i] == k[i]);
        assert(k.subrange(0, b.len() as int)[i] == k[i]);
    }
}

/// Two collections nested equally deep, under different namespaces or
/// different prefixes, have no key in common: their prefixes diverge, so no
/// key starts with both.
pub proof fn law_sibling_prefixes_are_disjoint(
    ns1: Seq<u8>,
    ps1: Seq<Seq<u8>>,
    ns2: Seq<u8>,
    ps2: Seq<Seq<u8>>,
    k: Seq<u8>,
)
    requires
        ps1.len() == ps2.len(),
        ns1 != ns2 || ps1 != ps2,
        ns1.len() <= MAX_LENGTH_PREFIXED,
        ns2.len() <= MAX_LENGTH_PREFIXED,
        all_length_prefixable(ps1),
        all_length_prefixable(ps2),
    ensures
        diverge(
            spec_nested_namespaces_with_key(Some(ns1), ps1, None),
            spec_nested_namespaces_with_key(Some(ns2), ps2, None),
        ),
        !(is_prefix(spec_nested_namespaces_with_key(Some(ns1), ps1, None), k) && is_prefix(
            spec_nested_namespaces_with_key(Some(ns2), ps2, None),
            k,
        )),
{
    let a = spec_nested_namespaces_with_key(Some(ns1), ps1, None);
    let b = spec_nested_namespaces_with_key(Some(ns2), ps2, None);
    assert(a =~= length_prefixed(ns1) + encode_prefixes(ps1));
    assert(b =~= length_prefixed(ns2) + encode_prefixes(ps2));
    if ns1 != ns2 {
        lemma_length_prefixed_diverge(ns1, ns2);
        lemma_diverge_append(length_prefixed(ns1), length_prefixed(ns2), encode_prefixes(ps1), encode_prefixes(ps2));
    } else {
        lemma_encode_prefixes_diverge(ps1, ps2);
        lemma_diverge_after_head(length_prefixed(ns1), encode_prefixes(ps1), encode_prefixes(ps2));
    }
    lemma_diverge_no_common_extension(a, b, k);
}

} // verus!
