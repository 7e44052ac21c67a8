//! The order in which paths and names are listed: lexicographic by the bytes
//! of their UTF-8 encoding.

use vstd::prelude::*;
use vstd::utf8::*;

verus! {

/// How one string stands to another in byte order.
#[derive(PartialEq, Eq, Structural, Clone, Copy)]
pub enum Place {
    Before,
    Same,
    After,
}

/// `a` and `b` agree up to index `i`, where `a` has ended or has the smaller
/// byte.
pub open spec fn parts_at(a: Seq<u8>, b: Seq<u8>, i: int) -> bool {
    &&& 0 <= i <= a.len()
    &&& i < b.len()
    &&& i < a.len() ==> a[i] < b[i]
    &&& forall|j: int| 0 <= j < i ==> #[trigger] a[j] == b[j]
}

/// Strict lexicographic order on byte strings.
pub open spec fn bytes_before(a: Seq<u8>, b: Seq<u8>) -> bool {
    exists|i: int| #[trigger] parts_at(a, b, i)
}

/// Strict byte order of two strings.
pub open spec fn before(a: Seq<char>, b: Seq<char>) -> bool {
    bytes_before(encode_utf8(a), encode_utf8(b))
}

/// Each string stands strictly before all later ones; none occurs twice.
pub open spec fn strictly_sorted(s: Seq<Seq<char>>) -> bool {
    forall|i: int, j: int| 0 <= i < j < s.len() ==> before(#[trigger] s[i], #[trigger] s[j])
}

/// No string stands after a later one; equal strings may repeat.
pub open spec fn sorted(s: Seq<Seq<char>>) -> bool {
    forall|i: int, j: int| 0 <= i < j < s.len() ==> !before(#[trigger] s[j], #[trigger] s[i])
}

/// Strings with the same UTF-8 bytes are equal.
pub proof fn lemma_encode_injective(a: Seq<char>, b: Seq<char>)
    requires
        encode_utf8(a) == encode_utf8(b),
    ensures
        a == b,
{
    encode_utf8_decode_utf8(a);
    encode_utf8_decode_utf8(b);
}

/// No string stands before itself.
pub proof fn lemma_before_irreflexive(a: Seq<char>)
    ensures
        !before(a, a),
{
}

/// Byte order is transitive.
pub proof fn lemma_before_transitive(a: Seq<char>, b: Seq<char>, c: Seq<char>)
    requires
        before(a, b),
        before(b, c),
    ensures
        before(a, c),
{
    let x = encode_utf8(a);
    let y = encode_utf8(b);
    let z = encode_utf8(c);
    let i = choose|i: int| #[trigger] parts_at(x, y, i);
    let k = choose|k: int| #[trigger] parts_at(y, z, k);
    let m = if i < k {
        i
    } else {
        k
    };
    assert forall|j: int| 0 <= j < m implies #[trigger] x[j] == z[j] by {
        assert(x[j] == y[j]);
        assert(y[j] == z[j]);
    }
    if i < k {
        assert(y[i] == z[i]);
    }
    assert(parts_at(x, z, m));
}

/// Two strings never stand before each other both ways.
pub proof fn lemma_before_asymmetric(a: Seq<char>, b: Seq<char>)
    requires
        before(a, b),
    ensures
        !before(b, a),
        a != b,
{
    if before(b, a) {
        lemma_before_transitive(a, b, a);
        lemma_before_irreflexive(a);
    }
    lemma_before_irreflexive(a);
}

/// Length of the longest common prefix of `a` and `b`, searched from `i` on.
spec fn common_from(a: Seq<u8>, b: Seq<u8>, i: int) -> int
    decreases a.len() - i,
{
    if 0 <= i < a.len() && i < b.len() && a[i] == b[i] {
        common_from(a, b, i + 1)
    } else {
        i
    }
}

proof fn lemma_common_from(a: Seq<u8>, b: Seq<u8>, i: int)
    requires
        0 <= i <= a.len(),
        i <= b.len(),
        forall|j: int| 0 <= j < i ==> #[trigger] a[j] == b[j],
    ensures
        ({
            let n = common_from(a, b, i);
            &&& i <= n <= a.len()
            &&& n <= b.len()
            &&& n < a.len() && n < b.len() ==> a[n] != b[n]
            &&& forall|j: int| 0 <= j < n ==> #[trigger] a[j] == b[j]
        }),
    decreases a.len() - i,
{
    if i < a.len() && i < b.len() && a[i] == b[i] {
        lemma_common_from(a, b, i + 1);
    }
}

/// Of two different strings one stands before the other.
pub proof fn lemma_before_total(a: Seq<char>, b: Seq<char>)
    ensures
        a == b || before(a, b) || before(b, a),
{
    let x = encode_utf8(a);
    let y = encode_utf8(b);
    lemma_common_from(x, y, 0);
    let n = common_from(x, y, 0);
    if n == x.len() && n == y.len() {
        assert(x =~= y);
        lemma_encode_injective(a, b);
    } else if n == x.len() || (n < y.len() && x[n] < y[n]) {
        assert(parts_at(x, y, n));
    } else {
        assert(parts_at(y, x, n));
    }
}

/// Compares two strings by their bytes.
pub fn compare(a: &str, b: &str) -> (r: Place)
    ensures
        r == Place::Before <==> before(a@, b@),
        r == Place::Same <==> a@ == b@,
        r == Place::After <==> before(b@, a@),
{
    let x: &[u8] = a.as_bytes();
    let y: &[u8] = b.as_bytes();
    let mut i: usize = 0;
    while i < x.len() && i < y.len() && x[i] == y[i]
        invariant
            i <= x@.len(),
            i <= y@.len(),
            x@ == encode_utf8(a@),
            y@ == encode_utf8(b@),
            forall|j: int| 0 <= j < i ==> #[trigger] x@[j] == y@[j],
        decreases x@.len() - i,
    {
        i = i + 1;
    }
    if i == x.len() && i == y.len() {
        proof {
            assert(x@ =~= y@);
            lemma_encode_injective(a@, b@);
            lemma_before_irreflexive(a@);
        }
        Place::Same
    } else if i == x.len() || (i < y.len() && x[i] < y[i]) {
        proof {
            assert(parts_at(x@, y@, i as int));
            lemma_before_asymmetric(a@, b@);
        }
        Place::Before
    } else {
        proof {
            assert(parts_at(y@, x@, i as int));
            lemma_before_asymmetric(b@, a@);
        }
        Place::After
    }
}

/// Whether two strings are equal.
pub fn same(a: &str, b: &str) -> (r: bool)
    ensures
        r <==> a@ == b@,
{
    compare(a, b) == Place::Same
}

/// A strictly sorted sequence holds nothing twice.
pub proof fn lemma_strictly_sorted_distinct(s: Seq<Seq<char>>)
    requires
        strictly_sorted(s),
    ensures
        s.no_duplicates(),
{
    assert forall|i: int, j: int| 0 <= i < s.len() && 0 <= j < s.len() && i != j implies s[i]
        != s[j] by {
        if i < j {
            lemma_before_asymmetric(s[i], s[j]);
        } else {
            lemma_before_asymmetric(s[j], s[i]);
        }
    }
}

} // verus!
