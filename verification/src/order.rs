//! Byte-lexicographic order on strings: the order `group_by_year` and
//! `group_by_country` sort their keys by, and the order visits are compared
//! by when their countries differ. For UTF-8 strings, byte order coincides
//! with code-point order.

use vstd::prelude::*;
use vstd::utf8::decode_utf8_encode_utf8;
use vstd::utf8::encode_utf8;
use vstd::utf8::encode_utf8_valid_utf8;

verus! {

// ---------------------------------------------------------------------------
// Byte-lexicographic order on keys.
// ---------------------------------------------------------------------------

/// Strict lexicographic order on byte sequences.
pub open spec fn lex_lt(a: Seq<u8>, b: Seq<u8>) -> bool
    decreases a.len(),
{
    if b.len() == 0 {
        false
    } else if a.len() == 0 {
        true
    } else if a[0] < b[0] {
        true
    } else if a[0] > b[0] {
        false
    } else {
        lex_lt(a.drop_first(), b.drop_first())
    }
}

/// Strict order on keys: lexicographic over their UTF-8 bytes, which for
/// UTF-8 coincides with code-point order.
pub open spec fn key_lt(a: Seq<char>, b: Seq<char>) -> bool {
    lex_lt(encode_utf8(a), encode_utf8(b))
}

/// Of two byte sequences, exactly one of: less, equal, greater.
pub proof fn lemma_lex_trichotomy(a: Seq<u8>, b: Seq<u8>)
    ensures
        lex_lt(a, b) || a == b || lex_lt(b, a),
        lex_lt(a, b) ==> a != b && !lex_lt(b, a),
        a == b ==> !lex_lt(a, b),
    decreases a.len(),
{
    if a.len() > 0 && b.len() > 0 && a[0] == b[0] {
        lemma_lex_trichotomy(a.drop_first(), b.drop_first());
        if a.drop_first() == b.drop_first() {
            assert(a.len() == b.len());
            assert forall|i: int| 0 <= i < a.len() implies a[i] == b[i] by {
                if i > 0 {
                    assert(a.drop_first()[i - 1] == b.drop_first()[i - 1]);
                }
            }
            assert(a =~= b);
        }
        if a == b {
            assert(a.drop_first() =~= b.drop_first());
        }
    } else if a == b {
        assert(a.len() == b.len());
    }
}

pub proof fn lemma_lex_transitive(a: Seq<u8>, b: Seq<u8>, c: Seq<u8>)
    requires
        lex_lt(a, b),
        lex_lt(b, c),
    ensures
        lex_lt(a, c),
    decreases a.len(),
{
    if a.len() > 0 && b.len() > 0 && c.len() > 0 && a[0] == b[0] && b[0] == c[0] {
        lemma_lex_transitive(a.drop_first(), b.drop_first(), c.drop_first());
    }
}

/// Two keys with the same UTF-8 bytes are the same characters.
pub proof fn lemma_key_bytes_injective(a: Seq<char>, b: Seq<char>)
    requires
        encode_utf8(a) == encode_utf8(b),
    ensures
        a == b,
{
    encode_utf8_valid_utf8(a);
    decode_utf8_encode_utf8(encode_utf8(a));
    decode_utf8_encode_utf8(encode_utf8(b));
    vstd::utf8::encode_utf8_decode_utf8(a);
    vstd::utf8::encode_utf8_decode_utf8(b);
}

/// Byte-lexicographic comparison of two keys.
pub(crate) fn str_lt(a: &String, b: &String) -> (r: bool)
    ensures
        r == key_lt(a@, b@),
{
    let ab = a.as_str().as_bytes();
    let bb = b.as_str().as_bytes();
    let na = ab.len();
    let nb = bb.len();
    let mut i: usize = 0;
    proof {
        assert(ab@.skip(0) =~= ab@);
        assert(bb@.skip(0) =~= bb@);
    }
    while i < na && i < nb
        invariant
            na == ab@.len(),
            nb == bb@.len(),
            0 <= i <= na,
            0 <= i <= nb,
            ab@ == encode_utf8(a@),
            bb@ == encode_utf8(b@),
            lex_lt(ab@, bb@) == lex_lt(ab@.skip(i as int), bb@.skip(i as int)),
        decreases na - i,
    {
        let ca = *vstd::slice::slice_index_get(ab, i);
        let cb = *vstd::slice::slice_index_get(bb, i);
        proof {
            assert(ab@.skip(i as int)[0] == ab@[i as int]);
            assert(bb@.skip(i as int)[0] == bb@[i as int]);
        }
        if ca < cb {
            return true;
        }
        if ca > cb {
            return false;
        }
        proof {
            assert(ab@.skip(i as int).drop_first() =~= ab@.skip(i as int + 1));
            assert(bb@.skip(i as int).drop_first() =~= bb@.skip(i as int + 1));
        }
        i += 1;
    }
    proof {
        if i >= na {
            assert(ab@.skip(i as int).len() == 0);
        }
        if i >= nb {
            assert(bb@.skip(i as int).len() == 0);
        }
    }
    na < nb
}


} // verus!
