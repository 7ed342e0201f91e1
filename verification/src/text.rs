//! Comparing texts as the standard library orders strings: byte by byte over
//! their UTF-8 encoding.

use vstd::prelude::*;
use vstd::utf8::{encode_utf8, encode_utf8_decode_utf8};

verus! {

/// Where one text stands relative to another.
#[derive(Clone, Copy, Debug, PartialEq, Eq, Structural)]
pub enum Place {
    Before,
    Same,
    After,
}

/// Whether `a` and `b` agree on their first `k` bytes and `a` is the smaller
/// from there on: `a` ends at `k` and `b` goes on, or `a` has the smaller
/// byte at `k`.
pub open spec fn parts_at(a: Seq<u8>, b: Seq<u8>, k: int) -> bool {
    &&& 0 <= k <= a.len()
    &&& k <= b.len()
    &&& forall|i: int| 0 <= i < k ==> a[i] == b[i]
    &&& if k == a.len() {
        k < b.len()
    } else {
        k < b.len() && a[k] < b[k]
    }
}

/// The strict lexicographic order of byte strings.
pub open spec fn bytes_before(a: Seq<u8>, b: Seq<u8>) -> bool {
    exists|k: int| parts_at(a, b, k)
}

/// The strict order of texts: that of their UTF-8 encodings.
pub open spec fn text_before(a: Seq<char>, b: Seq<char>) -> bool {
    bytes_before(encode_utf8(a), encode_utf8(b))
}

/// No byte string stands before itself.
pub proof fn lemma_bytes_before_irreflexive(a: Seq<u8>)
    ensures
        !bytes_before(a, a),
{
}

/// Of two byte strings at most one stands before the other.
pub proof fn lemma_bytes_before_asymmetric(a: Seq<u8>, b: Seq<u8>)
    requires
        bytes_before(a, b),
    ensures
        !bytes_before(b, a),
{
    let k = choose|k: int| parts_at(a, b, k);
    if bytes_before(b, a) {
        let j = choose|j: int| parts_at(b, a, j);
        if j < k {
            assert(a[j] == b[j]);
        } else if k < j {
            assert(b[k] == a[k]);
        }
    }
}

/// The order of byte strings is transitive.
pub proof fn lemma_bytes_before_transitive(a: Seq<u8>, b: Seq<u8>, c: Seq<u8>)
    requires
        bytes_before(a, b),
        bytes_before(b, c),
    ensures
        bytes_before(a, c),
{
    let k = choose|k: int| parts_at(a, b, k);
    let j = choose|j: int| parts_at(b, c, j);
    let m = if k <= j {
        k
    } else {
        j
    };
    assert forall|i: int| 0 <= i < m implies a[i] == c[i] by {
        assert(a[i] == b[i]);
        assert(b[i] == c[i]);
    }
    if k < j {
        assert(b[k] == c[k]);
    }
    assert(parts_at(a, c, m));
}

/// Two texts are the same text, or one of them stands before the other.
pub proof fn lemma_text_order_total(a: Seq<char>, b: Seq<char>)
    ensures
        a == b || text_before(a, b) || text_before(b, a),
        a == b ==> !text_before(a, b) && !text_before(b, a),
        text_before(a, b) ==> !text_before(b, a),
{
    let x = encode_utf8(a);
    let y = encode_utf8(b);
    lemma_bytes_before_irreflexive(x);
    if bytes_before(x, y) {
        lemma_bytes_before_asymmetric(x, y);
    }
    if a != b && !bytes_before(x, y) && !bytes_before(y, x) {
        lemma_first_difference(x, y, 0);
        encode_utf8_decode_utf8(a);
        encode_utf8_decode_utf8(b);
    }
}

/// Byte strings that agree up to `k` and neither of which stands before the
/// other are equal.
proof fn lemma_first_difference(x: Seq<u8>, y: Seq<u8>, k: int)
    requires
        0 <= k <= x.len(),
        k <= y.len(),
        forall|i: int| 0 <= i < k ==> x[i] == y[i],
        !bytes_before(x, y),
        !bytes_before(y, x),
    ensures
        x == y,
    decreases x.len() - k,
{
    if k == x.len() {
        assert(!parts_at(x, y, k));
        assert(x =~= y);
    } else if k == y.len() {
        assert(!parts_at(y, x, k));
    } else {
        assert(!parts_at(x, y, k));
        assert(!parts_at(y, x, k));
        lemma_first_difference(x, y, k + 1);
    }
}

/// Finds where `a` stands relative to `b`.
pub fn compare(a: &str, b: &str) -> (r: Place)
    ensures
        (r == Place::Before) == text_before(a@, b@),
        (r == Place::Same) == (a@ == b@),
        (r == Place::After) == text_before(b@, a@),
{
    let x = a.as_bytes();
    let y = b.as_bytes();
    let n = x.len();
    let m = y.len();
    proof {
        lemma_text_order_total(a@, b@);
    }
    let mut i: usize = 0;
    while i < n && i < m
        invariant
            n == x@.len(),
            m == y@.len(),
            i <= n,
            i <= m,
            x@ == encode_utf8(a@),
            y@ == encode_utf8(b@),
            forall|j: int| 0 <= j < i ==> x@[j] == y@[j],
        decreases n - i,
    {
        if x[i] < y[i] {
            assert(parts_at(x@, y@, i as int));
            return Place::Before;
        }
        if x[i] > y[i] {
            assert(parts_at(y@, x@, i as int));
            return Place::After;
        }
        i += 1;
    }
    if n < m {
        assert(parts_at(x@, y@, i as int));
        Place::Before
    } else if m < n {
        assert(parts_at(y@, x@, i as int));
        Place::After
    } else {
        proof {
            assert(x@ =~= y@);
            encode_utf8_decode_utf8(a@);
            encode_utf8_decode_utf8(b@);
        }
        Place::Same
    }
}

/// Whether `name` stands at `i` in `names` and nowhere before.
pub open spec fn is_first(names: Seq<Seq<char>>, name: Seq<char>, i: int) -> bool {
    &&& 0 <= i < names.len()
    &&& names[i] == name
    &&& forall|j: int| 0 <= j < i ==> names[j] != name
}

/// The first position at which `name` stands in `names`, if it stands there
/// at all.
pub open spec fn first_position(names: Seq<Seq<char>>, name: Seq<char>) -> Option<int> {
    if exists|i: int| is_first(names, name, i) {
        Some(choose|i: int| is_first(names, name, i))
    } else {
        None
    }
}

/// Whether no text stands twice in `names`.
pub open spec fn distinct(names: Seq<Seq<char>>) -> bool {
    forall|i: int, j: int| 0 <= i < j < names.len() ==> names[i] != names[j]
}

/// The texts that a sequence of string slices holds.
pub open spec fn texts(slices: Seq<&str>) -> Seq<Seq<char>> {
    Seq::new(slices.len(), |i: int| slices[i]@)
}

/// A first position is the first position.
pub proof fn lemma_first_position(names: Seq<Seq<char>>, name: Seq<char>, i: int)
    requires
        is_first(names, name, i),
    ensures
        first_position(names, name) == Some(i),
{
    let k = choose|k: int| is_first(names, name, k);
    if k < i {
        assert(names[k] != name);
    } else if i < k {
        assert(names[i] != name);
    }
}

/// A text that stands nowhere has no first position, and one that has none
/// stands nowhere.
pub proof fn lemma_no_position(names: Seq<Seq<char>>, name: Seq<char>)
    ensures
        first_position(names, name) is None <==> forall|i: int|
            0 <= i < names.len() ==> names[i] != name,
        first_position(names, name) matches Some(i) ==> is_first(names, name, i),
{
    if exists|i: int| 0 <= i < names.len() && names[i] == name {
        let i = choose|i: int| 0 <= i < names.len() && names[i] == name;
        lemma_earliest(names, name, i);
    }
}

/// A text that stands at `i` has a first position.
proof fn lemma_earliest(names: Seq<Seq<char>>, name: Seq<char>, i: int)
    requires
        0 <= i < names.len(),
        names[i] == name,
    ensures
        exists|k: int| is_first(names, name, k),
    decreases i,
{
    if exists|j: int| 0 <= j < i && names[j] == name {
        let j = choose|j: int| 0 <= j < i && names[j] == name;
        lemma_earliest(names, name, j);
    } else {
        assert(is_first(names, name, i));
    }
}

/// Whether `a` and `b` are the same text.
pub fn same(a: &str, b: &str) -> (r: bool)
    ensures
        r == (a@ == b@),
{
    compare(a, b) == Place::Same
}

} // verus!
