//! Byte strings under lexicographic order, the order in which a key-value
//! store walks its keys.
use vstd::prelude::*;

verus! {

/// `p` is a prefix of `k`.
pub open spec fn is_prefix(p: Seq<u8>, k: Seq<u8>) -> bool {
    p.len() <= k.len() && k.subrange(0, p.len() as int) == p
}

/// Strict lexicographic order on byte strings: a proper prefix comes first,
/// otherwise the first differing byte decides.
pub open spec fn lex_lt(a: Seq<u8>, b: Seq<u8>) -> bool
    decreases a.len(),
{
    if b.len() == 0 {
        false
    } else if a.len() == 0 {
        true
    } else if a[0] != b[0] {
        a[0] < b[0]
    } else {
        lex_lt(a.drop_first(), b.drop_first())
    }
}

/// Non-strict lexicographic order.
pub open spec fn lex_le(a: Seq<u8>, b: Seq<u8>) -> bool {
    a == b || lex_lt(a, b)
}

pub proof fn lemma_lex_lt_irreflexive(a: Seq<u8>)
    ensures
        !lex_lt(a, a),
    decreases a.len(),
{
    if a.len() > 0 {
        lemma_lex_lt_irreflexive(a.drop_first());
    }
}

pub proof fn lemma_lex_lt_transitive(a: Seq<u8>, b: Seq<u8>, c: Seq<u8>)
    requires
        lex_lt(a, b),
        lex_lt(b, c),
    ensures
        lex_lt(a, c),
    decreases a.len(),
{
    if a.len() > 0 && b.len() > 0 && c.len() > 0 && a[0] == b[0] && b[0] == c[0] {
        lemma_lex_lt_transitive(a.drop_first(), b.drop_first(), c.drop_first());
    }
}

pub proof fn lemma_lex_lt_total(a: Seq<u8>, b: Seq<u8>)
    ensures
        a == b || lex_lt(a, b) || lex_lt(b, a),
    decreases a.len(),
{
    if a.len() > 0 && b.len() > 0 && a[0] == b[0] {
        lemma_lex_lt_total(a.drop_first(), b.drop_first());
        if a.drop_first() == b.drop_first() {
            assert(a == seq![a[0]] + a.drop_first());
            assert(b == seq![b[0]] + b.drop_first());
        }
    } else if a.len() == 0 && b.len() == 0 {
        assert(a =~= b);
    }
}

pub proof fn lemma_lex_lt_asymmetric(a: Seq<u8>, b: Seq<u8>)
    requires
        lex_lt(a, b),
    ensures
        !lex_lt(b, a),
{
    if lex_lt(b, a) {
        lemma_lex_lt_transitive(a, b, a);
        lemma_lex_lt_irreflexive(a);
    }
}


/// A byte string split after its first `p.len()` bytes gives `p` back.
pub proof fn lemma_prefix_split(p: Seq<u8>, k: Seq<u8>)
    requires
        is_prefix(p, k),
    ensures
        k == p + k.subrange(p.len() as int, k.len() as int),
{
    assert(k =~= k.subrange(0, p.len() as int) + k.subrange(p.len() as int, k.len() as int));
}

pub proof fn lemma_is_prefix_concat(p: Seq<u8>, s: Seq<u8>)
    ensures
        is_prefix(p, p + s),
{
    assert((p + s).subrange(0, p.len() as int) =~= p);
}

/// Comparing two byte strings that share a leading part compares what follows it.
pub proof fn lemma_lex_lt_common_prefix(p: Seq<u8>, s: Seq<u8>, t: Seq<u8>)
    ensures
        lex_lt(p + s, p + t) == lex_lt(s, t),
    decreases p.len(),
{
    if p.len() > 0 {
        assert((p + s).drop_first() =~= p.drop_first() + s);
        assert((p + t).drop_first() =~= p.drop_first() + t);
        lemma_lex_lt_common_prefix(p.drop_first(), s, t);
    } else {
        assert(p + s =~= s);
        assert(p + t =~= t);
    }
}

/// A byte string comes no later than any string it is a prefix of.
pub proof fn lemma_prefix_lex_le(p: Seq<u8>, k: Seq<u8>)
    requires
        is_prefix(p, k),
    ensures
        lex_le(p, k),
    decreases p.len(),
{
    if p.len() > 0 {
        assert(p[0] == k.subrange(0, p.len() as int)[0]);
        assert(k.drop_first().subrange(0, p.drop_first().len() as int) =~= p.drop_first());
        lemma_prefix_lex_le(p.drop_first(), k.drop_first());
        if p.drop_first() == k.drop_first() {
            assert(p =~= seq![p[0]] + p.drop_first());
            assert(k =~= seq![k[0]] + k.drop_first());
        }
    } else if k.len() == 0 {
        assert(p =~= k);
    }
}

/// What lies between `p` (included) and a string that extends `p` also extends `p`.
pub proof fn lemma_between_extends(p: Seq<u8>, k: Seq<u8>, m: Seq<u8>)
    requires
        lex_le(p, k),
        lex_lt(k, m),
        is_prefix(p, m),
    ensures
        is_prefix(p, k),
    decreases p.len(),
{
    if k == p {
        assert(k.subrange(0, p.len() as int) =~= p);
    } else if p.len() > 0 {
        assert(m[0] == m.subrange(0, p.len() as int)[0]);
        assert(k[0] == p[0]);
        assert(m.drop_first().subrange(0, p.drop_first().len() as int) =~= p.drop_first());
        lemma_between_extends(p.drop_first(), k.drop_first(), m.drop_first());
        assert(k.subrange(0, p.len() as int) =~= seq![k[0]] + k.drop_first().subrange(
            0,
            p.drop_first().len() as int,
        ));
        assert(p =~= seq![p[0]] + p.drop_first());
    } else {
        assert(k.subrange(0, 0) =~= p);
    }
}

/// Appending a zero byte gives the next byte string in lexicographic order:
/// `s < t` exactly when `s ++ [0] <= t`.
pub proof fn lemma_push_zero_successor(s: Seq<u8>, t: Seq<u8>)
    ensures
        lex_lt(s, t) == lex_le(s.push(0), t),
    decreases s.len(),
{
    let z = s.push(0);
    assert(z[0] == if s.len() == 0 { 0u8 } else { s[0] });
    assert(z.len() > 0);
    if t.len() == 0 {
        assert(!lex_lt(s, t));
        assert(!lex_lt(z, t));
        assert(z != t);
    } else if s.len() == 0 {
        assert(lex_lt(s, t));
        assert(z.drop_first() =~= Seq::<u8>::empty());
        if t[0] == 0 {
            if t.len() == 1 {
                assert(t =~= z);
            } else {
                assert(lex_lt(z.drop_first(), t.drop_first()));
                assert(lex_lt(z, t));
            }
        } else {
            assert(lex_lt(z, t));
        }
    } else if s[0] != t[0] {
        assert(z != t);
        assert(lex_lt(s, t) == (s[0] < t[0]));
        assert(lex_lt(z, t) == (z[0] < t[0]));
    } else {
        assert(z.drop_first() =~= s.drop_first().push(0));
        lemma_push_zero_successor(s.drop_first(), t.drop_first());
        assert(lex_lt(s, t) == lex_lt(s.drop_first(), t.drop_first()));
        assert(lex_lt(z, t) == lex_lt(z.drop_first(), t.drop_first()));
        if z.drop_first() == t.drop_first() {
            assert(z =~= seq![z[0]] + z.drop_first());
            assert(t =~= seq![t[0]] + t.drop_first());
        }
        if z == t {
            assert(z.drop_first() == t.drop_first());
        }
    }
}

/// Raising the last byte of `q ++ [b]` gives an upper bound for every string
/// that extends `q ++ [b]`, and nothing else lies between the two.
pub proof fn lemma_bump_last_bound(q: Seq<u8>, b: u8, k: Seq<u8>)
    requires
        b < 255,
    ensures
        (lex_le(q.push(b), k) && lex_lt(k, q.push((b + 1) as u8))) == is_prefix(q.push(b), k),
    decreases q.len(),
{
    let p = q.push(b);
    let m = q.push((b + 1) as u8);
    assert(p[0] == if q.len() == 0 { b } else { q[0] });
    assert(m[0] == if q.len() == 0 { (b + 1) as u8 } else { q[0] });
    if k.len() == 0 {
        assert(p != k);
        assert(!lex_lt(p, k));
        assert((lex_le(p, k) && lex_lt(k, m)) == is_prefix(p, k));
    } else if k[0] != p[0] {
        if k.len() >= p.len() {
            assert(k.subrange(0, p.len() as int)[0] == k[0]);
        }
        assert(!is_prefix(p, k));
        assert(p != k);
        assert(lex_lt(p, k) == (p[0] < k[0]));
        if q.len() == 0 {
            if k[0] == m[0] {
                assert(!lex_lt(k.drop_first(), m.drop_first()));
            }
        }
        assert((lex_le(p, k) && lex_lt(k, m)) == is_prefix(p, k));
    } else if q.len() == 0 {
        assert(p =~= seq![b]);
        assert(k.subrange(0, 1) =~= p);
        assert(is_prefix(p, k));
        assert(lex_lt(k, m));
        if k.len() == 1 {
            assert(k =~= p);
        } else {
            assert(p.drop_first() =~= Seq::<u8>::empty());
            assert(lex_lt(p.drop_first(), k.drop_first()));
        }
        assert((lex_le(p, k) && lex_lt(k, m)) == is_prefix(p, k));
    } else {
        assert(p.drop_first() =~= q.drop_first().push(b));
        assert(m.drop_first() =~= q.drop_first().push((b + 1) as u8));
        lemma_bump_last_bound(q.drop_first(), b, k.drop_first());
        assert(lex_lt(p, k) == lex_lt(p.drop_first(), k.drop_first()));
        assert(lex_lt(k, m) == lex_lt(k.drop_first(), m.drop_first()));
        assert(p =~= seq![p[0]] + p.drop_first());
        assert(k =~= seq![k[0]] + k.drop_first());
        if p.drop_first() == k.drop_first() {
            assert(p == k);
        }
        if p == k {
            assert(p.drop_first() == k.drop_first());
        }
        if k.len() >= p.len() {
            assert(k.subrange(0, p.len() as int) =~= seq![k[0]] + k.drop_first().subrange(
                0,
                p.drop_first().len() as int,
            ));
            if is_prefix(p.drop_first(), k.drop_first()) {
                assert(k.subrange(0, p.len() as int) =~= p);
            }
            if is_prefix(p, k) {
                assert(k.drop_first().subrange(0, p.drop_first().len() as int) =~= p.drop_first());
            }
        }
        assert((lex_le(p, k) && lex_lt(k, m)) == is_prefix(p, k));
    }
}

pub proof fn lemma_lex_le_transitive(a: Seq<u8>, b: Seq<u8>, c: Seq<u8>)
    requires
        lex_le(a, b),
        lex_le(b, c),
    ensures
        lex_le(a, c),
{
    if a != b && b != c {
        lemma_lex_lt_transitive(a, b, c);
    }
}

/// Comparing with `<=` two byte strings that share a leading part compares
/// what follows it.
pub proof fn lemma_lex_le_common_prefix(p: Seq<u8>, s: Seq<u8>, t: Seq<u8>)
    ensures
        lex_le(p + s, p + t) == lex_le(s, t),
{
    lemma_lex_lt_common_prefix(p, s, t);
    if p + s == p + t {
        assert(s =~= (p + s).subrange(p.len() as int, (p + s).len() as int));
        assert(t =~= (p + t).subrange(p.len() as int, (p + t).len() as int));
    }
}

/// `s < t ++ [0]` exactly when `s <= t`.
pub proof fn lemma_lt_push_zero(s: Seq<u8>, t: Seq<u8>)
    ensures
        lex_lt(s, t.push(0)) == lex_le(s, t),
{
    lemma_push_zero_successor(t, s);
    lemma_lex_lt_total(s, t.push(0));
    lemma_lex_lt_total(s, t);
    if lex_lt(s, t.push(0)) {
        lemma_lex_lt_asymmetric(s, t.push(0));
        lemma_lex_lt_irreflexive(s);
    }
    if lex_lt(t, s) {
        lemma_lex_lt_asymmetric(t, s);
        if s == t.push(0) {
            lemma_lex_lt_irreflexive(s);
        } else {
            lemma_lex_lt_asymmetric(t.push(0), s);
        }
    }
}

/// Whether `a` comes strictly before `b` in lexicographic order.
pub fn bytes_lt(a: &[u8], b: &[u8]) -> (r: bool)
    ensures
        r == lex_lt(a@, b@),
{
    let n = if a.len() < b.len() { a.len() } else { b.len() };
    let mut i: usize = 0;
    while i < n
        invariant
            i <= n,
            n <= a@.len(),
            n <= b@.len(),
            n == a@.len() || n == b@.len(),
            a@.take(i as int) == b@.take(i as int),
        decreases n - i,
    {
        if a[i] != b[i] {
            proof {
                lemma_split_at_common(a@, b@, i as int);
            }
            return a[i] < b[i];
        }
        assert(a@.take(i + 1) =~= a@.take(i as int).push(a@[i as int]));
        assert(b@.take(i + 1) =~= b@.take(i as int).push(b@[i as int]));
        i += 1;
    }
    proof {
        lemma_split_at_common(a@, b@, i as int);
    }
    a.len() < b.len()
}

/// Whether `a` and `b` hold the same bytes.
pub fn bytes_eq(a: &[u8], b: &[u8]) -> (r: bool)
    ensures
        r == (a@ == b@),
{
    if a.len() != b.len() {
        return false;
    }
    let n = a.len();
    let mut i: usize = 0;
    while i < n
        invariant
            i <= n,
            n == a@.len(),
            n == b@.len(),
            a@.take(i as int) == b@.take(i as int),
        decreases n - i,
    {
        if a[i] != b[i] {
            return false;
        }
        assert(a@.take(i + 1) =~= a@.take(i as int).push(a@[i as int]));
        assert(b@.take(i + 1) =~= b@.take(i as int).push(b@[i as int]));
        i += 1;
    }
    assert(a@ =~= a@.take(n as int));
    assert(b@ =~= b@.take(n as int));
    true
}

/// Whether `k` starts with `p`.
pub fn starts_with(p: &[u8], k: &[u8]) -> (r: bool)
    ensures
        r == is_prefix(p@, k@),
{
    if k.len() < p.len() {
        return false;
    }
    let n = p.len();
    let mut i: usize = 0;
    while i < n
        invariant
            i <= n,
            n == p@.len(),
            n <= k@.len(),
            k@.subrange(0, i as int) == p@.subrange(0, i as int),
        decreases n - i,
    {
        if k[i] != p[i] {
            assert(k@.subrange(0, n as int)[i as int] == k@[i as int]);
            return false;
        }
        assert(k@.subrange(0, i + 1) =~= k@.subrange(0, i as int).push(k@[i as int]));
        assert(p@.subrange(0, i + 1) =~= p@.subrange(0, i as int).push(p@[i as int]));
        i += 1;
    }
    assert(p@.subrange(0, n as int) =~= p@);
    true
}

/// Two byte strings that agree on their first `i` bytes compare as what
/// follows those bytes does.
pub proof fn lemma_split_at_common(a: Seq<u8>, b: Seq<u8>, i: int)
    requires
        0 <= i <= a.len(),
        i <= b.len(),
        a.take(i) == b.take(i),
    ensures
        lex_lt(a, b) == lex_lt(a.skip(i), b.skip(i)),
        i < a.len() && i < b.len() && a[i] != b[i] ==> (lex_lt(a, b) == (a[i] < b[i])),
        i == a.len() || i == b.len() ==> (lex_lt(a, b) == (a.len() < b.len())),
{
    assert(a =~= a.take(i) + a.skip(i));
    assert(b =~= b.take(i) + b.skip(i));
    lemma_lex_lt_common_prefix(a.take(i), a.skip(i), b.skip(i));
    if i < a.len() && i < b.len() {
        assert(a.skip(i)[0] == a[i]);
        assert(b.skip(i)[0] == b[i]);
    }
}

} // verus!
