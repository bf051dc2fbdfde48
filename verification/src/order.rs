//! Total orders on characters and their lexicographic lifts.
//!
//! Every deterministic ordering in the crate (canonical label ordering,
//! node ordering by address, the final ordering of merged results) is
//! built from these.

use vstd::prelude::*;
use vstd::relations::total_ordering;
use vstd::string::StrSliceExecFns;

verus! {

/// Order on single characters, by code point.
pub open spec fn char_le(a: char, b: char) -> bool {
    (a as u32) <= (b as u32)
}

/// The character order as a first-class value, so that every use site
/// speaks of one and the same function.
pub open spec fn char_le_fn() -> spec_fn(char, char) -> bool {
    |a: char, b: char| char_le(a, b)
}

/// Lexicographic lift of an element order `le` to sequences: compare the
/// first position where the sequences differ; a proper prefix comes first.
pub open spec fn seq_lex_le<A>(a: Seq<A>, b: Seq<A>, le: spec_fn(A, A) -> bool) -> bool
    decreases a.len(),
{
    if a.len() == 0 {
        true
    } else if b.len() == 0 {
        false
    } else if a[0] == b[0] {
        seq_lex_le(a.skip(1), b.skip(1), le)
    } else {
        le(a[0], b[0])
    }
}

pub proof fn lemma_char_le_total_ordering()
    ensures
        total_ordering(char_le_fn()),
{
    let le = char_le_fn();
    assert forall|a: char| #[trigger] le(a, a) by {}
    assert forall|a: char, b: char| #[trigger] le(a, b) && #[trigger] le(b, a) implies a == b by {
        vstd::utf8::char_u32_cast(a, a as u32);
        vstd::utf8::char_u32_cast(b, b as u32);
    }
    assert forall|a: char, b: char, c: char|
        #[trigger] le(a, b) && #[trigger] le(b, c) implies le(a, c) by {}
    assert forall|a: char, b: char| #[trigger] le(a, b) || #[trigger] le(b, a) by {}
}

/// The lexicographic lift of a total order is itself a total order.
pub proof fn lemma_seq_lex_le_total_ordering<A>(le: spec_fn(A, A) -> bool)
    requires
        total_ordering(le),
    ensures
        total_ordering(|a: Seq<A>, b: Seq<A>| seq_lex_le(a, b, le)),
{
    let lex = |a: Seq<A>, b: Seq<A>| seq_lex_le(a, b, le);
    assert forall|a: Seq<A>| #[trigger] lex(a, a) by {
        lemma_seq_lex_le_refl(a, le);
    }
    assert forall|a: Seq<A>, b: Seq<A>| #[trigger] lex(a, b) && #[trigger] lex(b, a) implies a
        == b by {
        lemma_seq_lex_le_antisym(a, b, le);
    }
    assert forall|a: Seq<A>, b: Seq<A>, c: Seq<A>|
        #[trigger] lex(a, b) && #[trigger] lex(b, c) implies lex(a, c) by {
        lemma_seq_lex_le_trans(a, b, c, le);
    }
    assert forall|a: Seq<A>, b: Seq<A>| #[trigger] lex(a, b) || #[trigger] lex(b, a) by {
        lemma_seq_lex_le_total(a, b, le);
    }
}

pub proof fn lemma_seq_lex_le_refl<A>(a: Seq<A>, le: spec_fn(A, A) -> bool)
    ensures
        seq_lex_le(a, a, le),
    decreases a.len(),
{
    if a.len() != 0 {
        lemma_seq_lex_le_refl(a.skip(1), le);
    }
}

pub proof fn lemma_seq_lex_le_total<A>(a: Seq<A>, b: Seq<A>, le: spec_fn(A, A) -> bool)
    requires
        vstd::relations::strongly_connected(le),
    ensures
        seq_lex_le(a, b, le) || seq_lex_le(b, a, le),
    decreases a.len(),
{
    if a.len() != 0 && b.len() != 0 && a[0] == b[0] {
        lemma_seq_lex_le_total(a.skip(1), b.skip(1), le);
    }
}

pub proof fn lemma_seq_lex_le_antisym<A>(a: Seq<A>, b: Seq<A>, le: spec_fn(A, A) -> bool)
    requires
        vstd::relations::antisymmetric(le),
        seq_lex_le(a, b, le),
        seq_lex_le(b, a, le),
    ensures
        a == b,
    decreases a.len(),
{
    if a.len() == 0 {
        assert(b.len() == 0);
        assert(a =~= b);
    } else {
        assert(b.len() != 0);
        if a[0] == b[0] {
            lemma_seq_lex_le_antisym(a.skip(1), b.skip(1), le);
            assert(a =~= b) by {
                assert(forall|i: int|
                    1 <= i < a.len() ==> a[i] == a.skip(1)[i - 1] && b[i] == b.skip(1)[i - 1]);
            }
        } else {
            assert(le(a[0], b[0]) && le(b[0], a[0]));
            assert(false);
        }
    }
}

pub proof fn lemma_seq_lex_le_trans<A>(a: Seq<A>, b: Seq<A>, c: Seq<A>, le: spec_fn(A, A) -> bool)
    requires
        vstd::relations::antisymmetric(le),
        vstd::relations::transitive(le),
        seq_lex_le(a, b, le),
        seq_lex_le(b, c, le),
    ensures
        seq_lex_le(a, c, le),
    decreases a.len(),
{
    if a.len() == 0 || b.len() == 0 || c.len() == 0 {
    } else {
        if a[0] == b[0] && b[0] == c[0] {
            lemma_seq_lex_le_trans(a.skip(1), b.skip(1), c.skip(1), le);
        } else if a[0] == b[0] {
            assert(le(b[0], c[0]));
        } else if b[0] == c[0] {
            assert(le(a[0], b[0]));
        } else {
            assert(le(a[0], b[0]) && le(b[0], c[0]));
            assert(le(a[0], c[0]));
            if a[0] == c[0] {
                assert(le(b[0], a[0]));
                assert(a[0] == b[0]);
                assert(false);
            }
        }
    }
}

/// Dropping an equal prefix from both sequences does not change how they
/// compare.
pub proof fn lemma_seq_lex_le_skip_prefix<A>(
    a: Seq<A>,
    b: Seq<A>,
    i: int,
    le: spec_fn(A, A) -> bool,
)
    requires
        0 <= i <= a.len(),
        i <= b.len(),
        forall|j: int| 0 <= j < i ==> a[j] == b[j],
    ensures
        seq_lex_le(a, b, le) == seq_lex_le(a.skip(i), b.skip(i), le),
    decreases i,
{
    if i == 0 {
        assert(a.skip(0) =~= a);
        assert(b.skip(0) =~= b);
    } else {
        assert(a[0] == b[0]);
        lemma_seq_lex_le_skip_prefix(a.skip(1), b.skip(1), i - 1, le);
        assert(a.skip(1).skip(i - 1) =~= a.skip(i));
        assert(b.skip(1).skip(i - 1) =~= b.skip(i));
    }
}

/// Lexicographic order on character sequences; the order in which strings
/// (label names, label values, node addresses) are compared.
pub open spec fn chars_le(a: Seq<char>, b: Seq<char>) -> bool {
    seq_lex_le(a, b, char_le_fn())
}

/// Executable comparison of two string slices, deciding `chars_le` on
/// their views.
pub fn str_le(a: &str, b: &str) -> (r: bool)
    ensures
        r == chars_le(a@, b@),
{
    let alen = a.unicode_len();
    let blen = b.unicode_len();
    let mut i: usize = 0;
    loop
        invariant
            i <= alen,
            i <= blen,
            alen == a@.len(),
            blen == b@.len(),
            forall|j: int| 0 <= j < i ==> a@[j] == b@[j],
        decreases alen - i,
    {
        proof {
            lemma_seq_lex_le_skip_prefix(a@, b@, i as int, char_le_fn());
        }
        if i == alen {
            assert(a@.skip(i as int).len() == 0);
            return true;
        }
        if i == blen {
            assert(a@.skip(i as int).len() != 0 && b@.skip(i as int).len() == 0);
            return false;
        }
        let ca = a.get_char(i);
        let cb = b.get_char(i);
        if ca != cb {
            assert(a@.skip(i as int)[0] == a@[i as int] && b@.skip(i as int)[0] == b@[i as int]);
            return (ca as u32) < (cb as u32);
        }
        i = i + 1;
    }
}

} // verus!
