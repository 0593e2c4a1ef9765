//! The order of entry names.
//!
//! Names are compared as `str` compares: byte by byte over their UTF-8
//! encoding, a proper prefix before its extensions.
use vstd::prelude::*;
use vstd::utf8::*;
use vstd::string::StringSliceAdditionalSpecFns;

verus! {

/// `a` and `b` agree on their first `k` bytes, and there `a` ends or holds the
/// smaller byte.
pub open spec fn splits_at(a: Seq<u8>, b: Seq<u8>, k: int) -> bool {
    &&& 0 <= k <= a.len()
    &&& k < b.len()
    &&& forall|j: int| 0 <= j < k ==> a[j] == b[j]
    &&& (k < a.len() ==> a[k] < b[k])
}

/// `a` comes strictly before `b` in lexicographic order.
pub open spec fn bytes_lt(a: Seq<u8>, b: Seq<u8>) -> bool {
    exists|k: int| splits_at(a, b, k)
}

/// The name `a` comes strictly before the name `b`.
pub open spec fn name_lt(a: Seq<char>, b: Seq<char>) -> bool {
    bytes_lt(encode_utf8(a), encode_utf8(b))
}

/// What comes before something that comes before `c` comes before `c`.
pub proof fn lemma_bytes_lt_transitive(a: Seq<u8>, b: Seq<u8>, c: Seq<u8>)
    requires
        bytes_lt(a, b),
        bytes_lt(b, c),
    ensures
        bytes_lt(a, c),
{
    let k1 = choose|k: int| splits_at(a, b, k);
    let k2 = choose|k: int| splits_at(b, c, k);
    let k = if k1 <= k2 {
        k1
    } else {
        k2
    };
    assert(splits_at(a, c, k));
}

/// `a` and `b` agree on their first `i` bytes; then they are equal or one
/// comes before the other.
proof fn lemma_bytes_compare_from(a: Seq<u8>, b: Seq<u8>, i: int)
    requires
        0 <= i <= a.len(),
        i <= b.len(),
        forall|j: int| 0 <= j < i ==> a[j] == b[j],
    ensures
        a == b || bytes_lt(a, b) || bytes_lt(b, a),
    decreases a.len() - i,
{
    if i == a.len() {
        if i == b.len() {
            assert(a =~= b);
        } else {
            assert(splits_at(a, b, i));
        }
    } else if i == b.len() {
        assert(splits_at(b, a, i));
    } else if a[i] < b[i] {
        assert(splits_at(a, b, i));
    } else if b[i] < a[i] {
        assert(splits_at(b, a, i));
    } else {
        lemma_bytes_compare_from(a, b, i + 1);
    }
}

/// Of two different byte sequences one comes before the other.
pub proof fn lemma_bytes_lt_total(a: Seq<u8>, b: Seq<u8>)
    ensures
        a == b || bytes_lt(a, b) || bytes_lt(b, a),
{
    lemma_bytes_compare_from(a, b, 0);
}

/// The order of names is strict and total: exactly one of `a` before `b`,
/// `a` equal to `b`, `b` before `a` holds.
pub proof fn lemma_name_lt_trichotomy(a: Seq<char>, b: Seq<char>)
    ensures
        !(name_lt(a, b) && name_lt(b, a)),
        !(name_lt(a, b) && a == b),
        a == b || name_lt(a, b) || name_lt(b, a),
{
    let x = encode_utf8(a);
    let y = encode_utf8(b);
    if bytes_lt(x, y) && bytes_lt(y, x) {
        lemma_bytes_lt_transitive(x, y, x);
    }
    lemma_bytes_lt_total(x, y);
    if x == y {
        encode_utf8_decode_utf8(a);
        encode_utf8_decode_utf8(b);
    }
}

/// The order of names is transitive.
pub proof fn lemma_name_lt_transitive(a: Seq<char>, b: Seq<char>, c: Seq<char>)
    requires
        name_lt(a, b),
        name_lt(b, c),
    ensures
        name_lt(a, c),
{
    lemma_bytes_lt_transitive(encode_utf8(a), encode_utf8(b), encode_utf8(c));
}

/// A finite set of names that is not empty has a last name.
pub proof fn lemma_last_name(names: Set<Seq<char>>)
    requires
        names.finite(),
        names.len() > 0,
    ensures
        exists|last: Seq<char>|
            #[trigger] names.contains(last) && forall|other: Seq<char>|
                #[trigger] names.contains(other) ==> !name_lt(last, other),
    decreases names.len(),
{
    let x = names.choose();
    let rest = names.remove(x);
    if rest.len() == 0 {
        assert forall|other: Seq<char>| #[trigger] names.contains(other) implies !name_lt(
            x,
            other,
        ) by {
            if other != x {
                assert(rest.contains(other));
            }
            lemma_name_lt_trichotomy(x, other);
        }
    } else {
        lemma_last_name(rest);
        let m = choose|last: Seq<char>|
            #[trigger] rest.contains(last) && forall|other: Seq<char>|
                #[trigger] rest.contains(other) ==> !name_lt(last, other);
        let last = if name_lt(m, x) {
            x
        } else {
            m
        };
        assert forall|other: Seq<char>| #[trigger] names.contains(other) implies !name_lt(
            last,
            other,
        ) by {
            lemma_name_lt_trichotomy(x, other);
            if other != x {
                assert(rest.contains(other));
                if name_lt(m, x) && name_lt(x, other) {
                    lemma_name_lt_transitive(m, x, other);
                }
            }
        }
        assert(names.contains(last));
    }
}

/// Whether the name `a` comes strictly before the name `b`.
pub fn precedes(a: &str, b: &str) -> (r: bool)
    ensures
        r == name_lt(a@, b@),
{
    let x = a.as_bytes();
    let y = b.as_bytes();
    let mut i: usize = 0;
    while i < x.len() && i < y.len()
        invariant
            i <= x.len(),
            i <= y.len(),
            x@ == encode_utf8(a@),
            y@ == encode_utf8(b@),
            forall|j: int| 0 <= j < i ==> x@[j] == y@[j],
        decreases x.len() - i,
    {
        if x[i] != y[i] {
            let r = x[i] < y[i];
            proof {
                if r {
                    assert(splits_at(x@, y@, i as int));
                } else {
                    assert forall|k: int| !splits_at(x@, y@, k) by {
                        if k > i && splits_at(x@, y@, k) {
                            assert(x@[i as int] == y@[i as int]);
                        }
                    }
                }
            }
            return r;
        }
        i += 1;
    }
    let r = x.len() < y.len();
    proof {
        if r {
            assert(splits_at(x@, y@, i as int));
        } else {
            assert forall|k: int| !splits_at(x@, y@, k) by {}
        }
    }
    r
}

} // verus!
