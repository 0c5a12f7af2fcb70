//! The order of keys: texts compare byte by byte in their UTF-8 form.

use vstd::prelude::*;
use vstd::utf8::encode_utf8;

verus! {

/// Lexicographic order of byte sequences; a proper prefix comes first.
pub open spec fn bytes_before(a: Seq<u8>, b: Seq<u8>) -> bool
    decreases a.len(),
{
    if b.len() == 0 {
        false
    } else if a.len() == 0 {
        true
    } else if a[0] != b[0] {
        a[0] < b[0]
    } else {
        bytes_before(a.drop_first(), b.drop_first())
    }
}

/// Whether the key `a` comes before the key `b`.
#[verifier::opaque]
pub open spec fn key_before(a: Seq<char>, b: Seq<char>) -> bool {
    bytes_before(encode_utf8(a), encode_utf8(b))
}

proof fn lemma_bytes_irreflexive(a: Seq<u8>)
    ensures
        !bytes_before(a, a),
    decreases a.len(),
{
    if a.len() > 0 {
        lemma_bytes_irreflexive(a.drop_first());
    }
}

proof fn lemma_bytes_transitive(a: Seq<u8>, b: Seq<u8>, c: Seq<u8>)
    requires
        bytes_before(a, b),
        bytes_before(b, c),
    ensures
        bytes_before(a, c),
    decreases a.len(),
{
    if a.len() > 0 && b.len() > 0 && c.len() > 0 && a[0] == b[0] && b[0] == c[0] {
        lemma_bytes_transitive(a.drop_first(), b.drop_first(), c.drop_first());
    }
}

proof fn lemma_bytes_total(a: Seq<u8>, b: Seq<u8>)
    ensures
        a == b || bytes_before(a, b) || bytes_before(b, a),
    decreases a.len(),
{
    if a.len() > 0 && b.len() > 0 {
        if a[0] == b[0] {
            lemma_bytes_total(a.drop_first(), b.drop_first());
            if a.drop_first() == b.drop_first() {
                assert(a =~= seq![a[0]] + a.drop_first());
                assert(b =~= seq![b[0]] + b.drop_first());
            }
        }
    } else if a.len() == 0 && b.len() == 0 {
        assert(a =~= b);
    }
}

proof fn lemma_bytes_suffix(a: Seq<u8>, b: Seq<u8>, n: int)
    requires
        0 <= n <= a.len(),
        n <= b.len(),
        forall|i: int| 0 <= i < n ==> a[i] == b[i],
    ensures
        bytes_before(a, b) == bytes_before(a.skip(n), b.skip(n)),
    decreases n,
{
    if n == 0 {
        assert(a.skip(0) =~= a);
        assert(b.skip(0) =~= b);
    } else {
        assert(a[0] == b[0]);
        assert forall|i: int| 0 <= i < n - 1 implies a.drop_first()[i] == b.drop_first()[i] by {
            assert(a[i + 1] == b[i + 1]);
        }
        lemma_bytes_suffix(a.drop_first(), b.drop_first(), n - 1);
        assert(a.drop_first().skip(n - 1) =~= a.skip(n));
        assert(b.drop_first().skip(n - 1) =~= b.skip(n));
    }
}

/// No key comes before itself.
pub proof fn key_order_irreflexive(a: Seq<char>)
    ensures
        !key_before(a, a),
{
    reveal(key_before);
    lemma_bytes_irreflexive(encode_utf8(a));
}

/// The order of keys is transitive.
pub proof fn key_order_transitive(a: Seq<char>, b: Seq<char>, c: Seq<char>)
    requires
        key_before(a, b),
        key_before(b, c),
    ensures
        key_before(a, c),
{
    reveal(key_before);
    lemma_bytes_transitive(encode_utf8(a), encode_utf8(b), encode_utf8(c));
}

/// Of two different keys one comes before the other.
pub proof fn key_order_total(a: Seq<char>, b: Seq<char>)
    ensures
        a == b || key_before(a, b) || key_before(b, a),
{
    reveal(key_before);
    lemma_bytes_total(encode_utf8(a), encode_utf8(b));
    if encode_utf8(a) == encode_utf8(b) {
        vstd::utf8::encode_utf8_decode_utf8(a);
        vstd::utf8::encode_utf8_decode_utf8(b);
    }
}

/// How one key stands to another.
#[derive(Clone, Copy, Debug, PartialEq, Eq, Structural)]
pub enum Relation {
    Before,
    Same,
    After,
}

/// Tells how the key `a` stands to the key `b`.
pub fn relate(a: &str, b: &str) -> (r: Relation)
    ensures
        r == Relation::Before <==> key_before(a@, b@),
        r == Relation::Same <==> a@ == b@,
        r == Relation::After <==> key_before(b@, a@),
{
    let x = a.as_bytes();
    let y = b.as_bytes();
    let mut i: usize = 0;
    proof {
        key_order_irreflexive(a@);
        if key_before(a@, b@) && key_before(b@, a@) {
            key_order_transitive(a@, b@, a@);
        }
        key_order_total(a@, b@);
    }
    while i < x.len() && i < y.len()
        invariant
            i <= x@.len(),
            i <= y@.len(),
            x@ == encode_utf8(a@),
            y@ == encode_utf8(b@),
            forall|j: int| 0 <= j < i ==> x@[j] == y@[j],
            !(key_before(a@, b@) && key_before(b@, a@)),
            a@ == b@ ==> !key_before(a@, b@),
            a@ == b@ || key_before(a@, b@) || key_before(b@, a@),
        decreases x.len() - i,
    {
        if x[i] != y[i] {
            proof {
                reveal(key_before);
                lemma_bytes_suffix(x@, y@, i as int);
                lemma_bytes_suffix(y@, x@, i as int);
                assert(x@.skip(i as int)[0] == x@[i as int]);
                assert(y@.skip(i as int)[0] == y@[i as int]);
            }
            if x[i] < y[i] {
                return Relation::Before;
            } else {
                return Relation::After;
            }
        }
        i = i + 1;
    }
    proof {
        reveal(key_before);
        lemma_bytes_suffix(x@, y@, i as int);
        lemma_bytes_suffix(y@, x@, i as int);
    }
    if x.len() < y.len() {
        Relation::Before
    } else if x.len() > y.len() {
        Relation::After
    } else {
        Relation::Same
    }
}

/// The order of keys goes by the first byte in which their UTF-8 forms differ, and a key
/// comes before every longer one that begins with it.
pub proof fn first_different_byte_decides(a: Seq<char>, b: Seq<char>, n: int)
    requires
        0 <= n <= encode_utf8(a).len(),
        n < encode_utf8(b).len(),
        forall|i: int| 0 <= i < n ==> encode_utf8(a)[i] == encode_utf8(b)[i],
        n < encode_utf8(a).len() ==> encode_utf8(a)[n] < encode_utf8(b)[n],
    ensures
        key_before(a, b),
        !key_before(b, a),
        a != b,
{
    let x = encode_utf8(a);
    let y = encode_utf8(b);
    lemma_bytes_suffix(x, y, n);
    assert(y.skip(n)[0] == y[n]);
    if n < x.len() {
        assert(x.skip(n)[0] == x[n]);
    }
    reveal(key_before);
    key_order_irreflexive(a);
    if key_before(b, a) {
        key_order_transitive(a, b, a);
    }
}

} // verus!
