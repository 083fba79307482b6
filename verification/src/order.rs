//! Lexicographic order on sequences, and the order of texts by their bytes.

use vstd::prelude::*;
use vstd::relations::total_ordering;
use vstd::utf8::{encode_utf8, encode_utf8_decode_utf8};

verus! {

/// How one item stands to another in an order.
#[derive(Debug, Clone, Copy, PartialEq, Eq, Structural)]
pub enum Rank {
    Before,
    Same,
    After,
}

/// Lexicographic order from position `i` on: the first position at or after
/// `i` where the two sequences differ decides, and a sequence that ends there
/// comes first.
pub open spec fn lex_le_from<T>(a: Seq<T>, b: Seq<T>, le: spec_fn(T, T) -> bool, i: int) -> bool
    decreases a.len() - i,
{
    if i < 0 || i >= a.len() {
        true
    } else if i >= b.len() {
        false
    } else if a[i] == b[i] {
        lex_le_from(a, b, le, i + 1)
    } else {
        le(a[i], b[i])
    }
}

/// Lexicographic order: `a` equals `b` or comes before it.
pub open spec fn lex_le<T>(a: Seq<T>, b: Seq<T>, le: spec_fn(T, T) -> bool) -> bool {
    lex_le_from(a, b, le, 0)
}

/// Three-way form of `lex_le`.
pub open spec fn lex_rank<T>(a: Seq<T>, b: Seq<T>, le: spec_fn(T, T) -> bool) -> Rank {
    if a == b {
        Rank::Same
    } else if lex_le(a, b, le) {
        Rank::Before
    } else {
        Rank::After
    }
}

/// Whether `a` and `b` agree on their first `n` positions.
pub open spec fn agree_until<T>(a: Seq<T>, b: Seq<T>, n: int) -> bool {
    &&& n <= a.len()
    &&& n <= b.len()
    &&& forall|j: int| 0 <= j < n ==> a[j] == b[j]
}

proof fn lemma_lex_le_from_refl<T>(a: Seq<T>, le: spec_fn(T, T) -> bool, i: int)
    ensures
        lex_le_from(a, a, le, i),
    decreases a.len() - i,
{
    if 0 <= i < a.len() {
        lemma_lex_le_from_refl(a, le, i + 1);
    }
}

proof fn lemma_lex_le_from_antisym<T>(a: Seq<T>, b: Seq<T>, le: spec_fn(T, T) -> bool, i: int)
    requires
        total_ordering(le),
        0 <= i,
        agree_until(a, b, i),
        lex_le_from(a, b, le, i),
        lex_le_from(b, a, le, i),
    ensures
        a == b,
    decreases a.len() - i,
{
    if i >= a.len() {
        assert(a =~= b);
    } else if a[i] == b[i] {
        lemma_lex_le_from_antisym(a, b, le, i + 1);
    } else {
        assert(le(a[i], b[i]) && le(b[i], a[i]));
    }
}

proof fn lemma_lex_le_from_trans<T>(
    a: Seq<T>,
    b: Seq<T>,
    c: Seq<T>,
    le: spec_fn(T, T) -> bool,
    i: int,
)
    requires
        total_ordering(le),
        0 <= i,
        lex_le_from(a, b, le, i),
        lex_le_from(b, c, le, i),
    ensures
        lex_le_from(a, c, le, i),
    decreases a.len() - i,
{
    if i < a.len() {
        if a[i] == b[i] && b[i] == c[i] {
            lemma_lex_le_from_trans(a, b, c, le, i + 1);
        } else if a[i] == c[i] {
            assert(le(a[i], b[i]) && le(b[i], a[i]));
        } else {
            assert(le(a[i], b[i]) && le(b[i], c[i]));
        }
    }
}

proof fn lemma_lex_le_from_total<T>(a: Seq<T>, b: Seq<T>, le: spec_fn(T, T) -> bool, i: int)
    requires
        total_ordering(le),
        0 <= i,
    ensures
        lex_le_from(a, b, le, i) || lex_le_from(b, a, le, i),
    decreases a.len() - i,
{
    if i < a.len() && i < b.len() {
        if a[i] == b[i] {
            lemma_lex_le_from_total(a, b, le, i + 1);
        } else {
            assert(le(a[i], b[i]) || le(b[i], a[i]));
        }
    }
}

/// Every sequence stands in lexicographic order to itself.
pub proof fn lemma_lex_le_refl<T>(a: Seq<T>, le: spec_fn(T, T) -> bool)
    ensures
        lex_le(a, a, le),
{
    lemma_lex_le_from_refl(a, le, 0);
}

/// Two sequences that come before each other are the same sequence.
pub proof fn lemma_lex_le_antisym<T>(a: Seq<T>, b: Seq<T>, le: spec_fn(T, T) -> bool)
    requires
        total_ordering(le),
        lex_le(a, b, le),
        lex_le(b, a, le),
    ensures
        a == b,
{
    lemma_lex_le_from_antisym(a, b, le, 0);
}

/// Lexicographic order is transitive.
pub proof fn lemma_lex_le_trans<T>(a: Seq<T>, b: Seq<T>, c: Seq<T>, le: spec_fn(T, T) -> bool)
    requires
        total_ordering(le),
        lex_le(a, b, le),
        lex_le(b, c, le),
    ensures
        lex_le(a, c, le),
{
    lemma_lex_le_from_trans(a, b, c, le, 0);
}

/// Of two sequences one comes before the other.
pub proof fn lemma_lex_le_total<T>(a: Seq<T>, b: Seq<T>, le: spec_fn(T, T) -> bool)
    requires
        total_ordering(le),
    ensures
        lex_le(a, b, le) || lex_le(b, a, le),
{
    lemma_lex_le_from_total(a, b, le, 0);
}

/// Sequences that agree on their first `n` positions are ordered as their
/// remainders from `n` on are.
pub proof fn lemma_lex_le_skips_agreement<T>(
    a: Seq<T>,
    b: Seq<T>,
    le: spec_fn(T, T) -> bool,
    n: int,
)
    requires
        0 <= n,
        agree_until(a, b, n),
    ensures
        lex_le(a, b, le) == lex_le_from(a, b, le, n),
    decreases n,
{
    if n > 0 {
        lemma_lex_le_skips_agreement(a, b, le, n - 1);
    }
}

/// The usual order of bytes.
pub open spec fn byte_order() -> spec_fn(u8, u8) -> bool {
    |x: u8, y: u8| x <= y
}

/// The order of texts: lexicographic by the bytes of their UTF-8 encoding,
/// which is how Rust orders strings.
pub open spec fn text_le(a: Seq<char>, b: Seq<char>) -> bool {
    lex_le(encode_utf8(a), encode_utf8(b), byte_order())
}

/// `text_le` as a relation.
pub open spec fn text_order() -> spec_fn(Seq<char>, Seq<char>) -> bool {
    |a: Seq<char>, b: Seq<char>| text_le(a, b)
}

/// Three-way form of `text_le`.
pub open spec fn text_rank(a: Seq<char>, b: Seq<char>) -> Rank {
    if a == b {
        Rank::Same
    } else if text_le(a, b) {
        Rank::Before
    } else {
        Rank::After
    }
}

/// The order of bytes is a total order.
pub proof fn lemma_byte_order_total()
    ensures
        total_ordering(byte_order()),
{
}

/// Texts with the same encoding are the same text.
pub proof fn lemma_encoding_injective(a: Seq<char>, b: Seq<char>)
    requires
        encode_utf8(a) == encode_utf8(b),
    ensures
        a == b,
{
    encode_utf8_decode_utf8(a);
    encode_utf8_decode_utf8(b);
}

/// The order of texts is a total order.
pub proof fn lemma_text_order_total()
    ensures
        total_ordering(text_order()),
{
    let le = text_order();
    lemma_byte_order_total();
    assert forall|a: Seq<char>| #[trigger] le(a, a) by {
        lemma_lex_le_refl(encode_utf8(a), byte_order());
    }
    assert forall|a: Seq<char>, b: Seq<char>| #[trigger] le(a, b) && #[trigger] le(b, a) implies a
        == b by {
        lemma_lex_le_antisym(encode_utf8(a), encode_utf8(b), byte_order());
        lemma_encoding_injective(a, b);
    }
    assert forall|a: Seq<char>, b: Seq<char>, c: Seq<char>| #[trigger]
        le(a, b) && #[trigger] le(b, c) implies le(a, c) by {
        lemma_lex_le_trans(encode_utf8(a), encode_utf8(b), encode_utf8(c), byte_order());
    }
    assert forall|a: Seq<char>, b: Seq<char>| #[trigger] le(a, b) || #[trigger] le(b, a) by {
        lemma_lex_le_total(encode_utf8(a), encode_utf8(b), byte_order());
    }
}

/// Compares two byte strings lexicographically.
pub fn bytes_rank(a: &[u8], b: &[u8]) -> (rank: Rank)
    ensures
        rank == lex_rank(a@, b@, byte_order()),
{
    let mut i: usize = 0;
    while i < a.len() && i < b.len()
        invariant
            agree_until(a@, b@, i as int),
        decreases a.len() - i,
    {
        if a[i] != b[i] {
            proof {
                lemma_lex_le_skips_agreement(a@, b@, byte_order(), i as int);
            }
            if a[i] < b[i] {
                return Rank::Before;
            } else {
                return Rank::After;
            }
        }
        i += 1;
    }
    proof {
        lemma_lex_le_skips_agreement(a@, b@, byte_order(), i as int);
    }
    if a.len() == b.len() {
        assert(a@ =~= b@);
        Rank::Same
    } else if a.len() < b.len() {
        Rank::Before
    } else {
        Rank::After
    }
}

/// Compares two texts as Rust orders strings.
pub fn text_rank_of(a: &str, b: &str) -> (rank: Rank)
    ensures
        rank == text_rank(a@, b@),
{
    let rank = bytes_rank(a.as_bytes(), b.as_bytes());
    proof {
        if encode_utf8(a@) == encode_utf8(b@) {
            lemma_encoding_injective(a@, b@);
        }
    }
    rank
}

} // verus!
