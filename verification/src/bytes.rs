//! Byte strings: their lexicographic order, copies and concatenation.

use vstd::prelude::*;

verus! {

/// `a` sorts strictly before `b` when both agree on every position below `i`.
pub open spec fn lex_lt_from(a: Seq<u8>, b: Seq<u8>, i: int) -> bool
    decreases a.len() - i,
{
    if i < 0 || i >= b.len() {
        false
    } else if i >= a.len() {
        true
    } else if a[i] != b[i] {
        a[i] < b[i]
    } else {
        lex_lt_from(a, b, i + 1)
    }
}

/// Strict lexicographic order on byte strings: a proper prefix sorts first,
/// otherwise the first differing byte decides.
pub open spec fn lex_lt(a: Seq<u8>, b: Seq<u8>) -> bool {
    lex_lt_from(a, b, 0)
}

proof fn lemma_lex_transitive_from(a: Seq<u8>, b: Seq<u8>, c: Seq<u8>, i: int)
    requires
        0 <= i,
        lex_lt_from(a, b, i),
        lex_lt_from(b, c, i),
    ensures
        lex_lt_from(a, c, i),
    decreases a.len() - i,
{
    if i < a.len() && i < b.len() && i < c.len() && a[i] == b[i] && b[i] == c[i] {
        lemma_lex_transitive_from(a, b, c, i + 1);
    }
}

/// The order is transitive.
pub proof fn lemma_lex_transitive(a: Seq<u8>, b: Seq<u8>, c: Seq<u8>)
    requires
        lex_lt(a, b),
        lex_lt(b, c),
    ensures
        lex_lt(a, c),
{
    lemma_lex_transitive_from(a, b, c, 0);
}

proof fn lemma_lex_total_from(a: Seq<u8>, b: Seq<u8>, i: int)
    requires
        0 <= i <= a.len(),
        i <= b.len(),
        forall|k: int| 0 <= k < i ==> a[k] == b[k],
        !lex_lt_from(a, b, i),
        !lex_lt_from(b, a, i),
    ensures
        a == b,
    decreases a.len() - i,
{
    if i < a.len() && i < b.len() {
        lemma_lex_total_from(a, b, i + 1);
    } else {
        assert(a =~= b);
    }
}

/// Two byte strings of which neither sorts before the other are equal.
pub proof fn lemma_lex_total(a: Seq<u8>, b: Seq<u8>)
    ensures
        lex_lt(a, b) || lex_lt(b, a) || a == b,
{
    if !lex_lt(a, b) && !lex_lt(b, a) {
        lemma_lex_total_from(a, b, 0);
    }
}

proof fn lemma_lex_asymmetric_from(a: Seq<u8>, b: Seq<u8>, i: int)
    requires
        0 <= i,
        lex_lt_from(a, b, i),
    ensures
        !lex_lt_from(b, a, i),
    decreases a.len() - i,
{
    if i < a.len() && i < b.len() && a[i] == b[i] {
        lemma_lex_asymmetric_from(a, b, i + 1);
    }
}

/// No byte string sorts before itself, and no two sort before each other.
pub proof fn lemma_lex_asymmetric(a: Seq<u8>, b: Seq<u8>)
    requires
        lex_lt(a, b),
    ensures
        !lex_lt(b, a),
        a != b,
{
    lemma_lex_asymmetric_from(a, b, 0);
}

/// How one byte string stands to another in lexicographic order.
#[derive(Clone, Copy, Debug, PartialEq, Eq, Structural)]
pub enum ByteOrder {
    Less,
    Equal,
    Greater,
}

/// Compares two byte strings lexicographically.
pub fn order_bytes(a: &Vec<u8>, b: &Vec<u8>) -> (r: ByteOrder)
    ensures
        r == ByteOrder::Less <==> lex_lt(a@, b@),
        r == ByteOrder::Equal <==> a@ == b@,
        r == ByteOrder::Greater <==> lex_lt(b@, a@),
{
    let mut i: usize = 0;
    while i < a.len() && i < b.len()
        invariant
            i <= a.len(),
            i <= b.len(),
            forall|k: int| 0 <= k < i ==> a@[k] == b@[k],
            lex_lt(a@, b@) == lex_lt_from(a@, b@, i as int),
            lex_lt(b@, a@) == lex_lt_from(b@, a@, i as int),
        decreases a.len() - i,
    {
        if a[i] < b[i] {
            proof {
                lemma_lex_asymmetric(a@, b@);
            }
            return ByteOrder::Less;
        }
        if a[i] > b[i] {
            proof {
                lemma_lex_asymmetric(b@, a@);
            }
            return ByteOrder::Greater;
        }
        i += 1;
    }
    if i < b.len() {
        proof {
            lemma_lex_asymmetric(a@, b@);
        }
        ByteOrder::Less
    } else if i < a.len() {
        proof {
            lemma_lex_asymmetric(b@, a@);
        }
        ByteOrder::Greater
    } else {
        proof {
            assert(a@ =~= b@);
            if lex_lt(a@, b@) {
                lemma_lex_asymmetric(a@, b@);
            }
        }
        ByteOrder::Equal
    }
}

/// Whether two byte strings hold the same bytes.
pub fn same_bytes(a: &Vec<u8>, b: &Vec<u8>) -> (r: bool)
    ensures
        r == (a@ == b@),
{
    if a.len() != b.len() {
        return false;
    }
    let mut i: usize = 0;
    while i < a.len()
        invariant
            i <= a.len(),
            a.len() == b.len(),
            forall|k: int| 0 <= k < i ==> a@[k] == b@[k],
        decreases a.len() - i,
    {
        if a[i] != b[i] {
            return false;
        }
        i += 1;
    }
    proof {
        assert(a@ =~= b@);
    }
    true
}

/// A copy of a byte string.
pub fn copy_bytes(src: &Vec<u8>) -> (r: Vec<u8>)
    ensures
        r@ == src@,
{
    let mut out: Vec<u8> = Vec::new();
    append_bytes(&mut out, src);
    out
}

/// Appends `src` to `out`.
pub fn append_bytes(out: &mut Vec<u8>, src: &Vec<u8>)
    ensures
        final(out)@ == old(out)@ + src@,
{
    let mut i: usize = 0;
    while i < src.len()
        invariant
            i <= src.len(),
            out@ == old(out)@ + src@.take(i as int),
        decreases src.len() - i,
    {
        out.push(src[i]);
        proof {
            assert(src@.take(i as int + 1) =~= src@.take(i as int).push(src@[i as int]));
            assert(out@ =~= old(out)@ + src@.take(i as int + 1));
        }
        i += 1;
    }
    proof {
        assert(src@.take(src@.len() as int) =~= src@);
    }
}

} // verus!
