//! Lexicographic order on byte strings. Directory children are kept in this
//! order, and files are visited in it.

use vstd::prelude::*;

verus! {

/// Strict lexicographic order on byte sequences: `a` sorts before `b`.
pub open spec fn lex_lt(a: Seq<u8>, b: Seq<u8>) -> bool
    decreases a.len(),
{
    if b.len() == 0 {
        false
    } else if a.len() == 0 {
        true
    } else if a[0] < b[0] {
        true
    } else if a[0] > b[0] {
        false
    } else {
        lex_lt(a.drop_first(), b.drop_first())
    }
}

/// Of `lex_lt(a, b)`, `a == b` and `lex_lt(b, a)`, exactly one holds.
pub proof fn lemma_lex_trichotomy(a: Seq<u8>, b: Seq<u8>)
    ensures
        lex_lt(a, b) ==> !lex_lt(b, a) && a != b,
        !lex_lt(a, b) && !lex_lt(b, a) ==> a =~= b,
    decreases a.len(),
{
    if a.len() > 0 && b.len() > 0 && a[0] == b[0] {
        lemma_lex_trichotomy(a.drop_first(), b.drop_first());
        if a.drop_first() == b.drop_first() && a[0] == b[0] {
            assert(a.len() == b.len());
            assert forall|k: int| 0 <= k < a.len() implies a[k] == b[k] by {
                if k >= 1 {
                    assert(a.drop_first()[k - 1] == b.drop_first()[k - 1]);
                }
            }
            assert(a =~= b);
        }
        if a == b {
            assert(a.drop_first() =~= b.drop_first());
        }
    }
}

/// Lexicographic order is transitive.
pub proof fn lemma_lex_trans(a: Seq<u8>, b: Seq<u8>, c: Seq<u8>)
    requires
        lex_lt(a, b),
        lex_lt(b, c),
    ensures
        lex_lt(a, c),
    decreases a.len(),
{
    if a.len() > 0 && b.len() > 0 && c.len() > 0 && a[0] == b[0] && b[0] == c[0] {
        lemma_lex_trans(a.drop_first(), b.drop_first(), c.drop_first());
    }
}

/// Result of a three-way byte-string comparison.
pub enum ByteOrder {
    Before,
    Same,
    After,
}

fn lex_cmp_from(a: &Vec<u8>, b: &Vec<u8>, i: usize) -> (r: ByteOrder)
    requires
        i <= a.len(),
        i <= b.len(),
    ensures
        (r is Before) == lex_lt(a@.skip(i as int), b@.skip(i as int)),
        (r is Same) == (a@.skip(i as int) == b@.skip(i as int)),
        (r is After) == lex_lt(b@.skip(i as int), a@.skip(i as int)),
    decreases a.len() - i,
{
    let ghost sa = a@.skip(i as int);
    let ghost sb = b@.skip(i as int);
    if i == a.len() && i == b.len() {
        proof {
            assert(sa =~= sb);
        }
        ByteOrder::Same
    } else if i == a.len() {
        proof {
            assert(sa.len() == 0 && sb.len() > 0);
            assert(sa != sb);
        }
        ByteOrder::Before
    } else if i == b.len() {
        proof {
            assert(sb.len() == 0 && sa.len() > 0);
            assert(sa != sb);
        }
        ByteOrder::After
    } else if a[i] < b[i] {
        proof {
            assert(sa[0] == a@[i as int] && sb[0] == b@[i as int]);
            assert(sa != sb) by {
                assert(sa[0] != sb[0]);
            }
        }
        ByteOrder::Before
    } else if a[i] > b[i] {
        proof {
            assert(sa[0] == a@[i as int] && sb[0] == b@[i as int]);
            assert(sa != sb) by {
                assert(sa[0] != sb[0]);
            }
        }
        ByteOrder::After
    } else {
        let r = lex_cmp_from(a, b, i + 1);
        proof {
            assert(sa.drop_first() =~= a@.skip(i + 1));
            assert(sb.drop_first() =~= b@.skip(i + 1));
            assert(sa[0] == sb[0]);
            if a@.skip(i + 1) == b@.skip(i + 1) {
                assert forall|k: int| 0 <= k < sa.len() implies sa[k] == sb[k] by {
                    if k >= 1 {
                        assert(a@.skip(i + 1)[k - 1] == b@.skip(i + 1)[k - 1]);
                        assert(sa[k] == a@[i + k]);
                        assert(sb[k] == b@[i + k]);
                    }
                }
                assert(sa =~= sb);
            }
            if sa == sb {
                assert(sa.drop_first() =~= sb.drop_first());
            }
        }
        r
    }
}

/// Compares two byte strings lexicographically.
pub fn lex_cmp(a: &Vec<u8>, b: &Vec<u8>) -> (r: ByteOrder)
    ensures
        (r is Before) == lex_lt(a@, b@),
        (r is Same) == (a@ == b@),
        (r is After) == lex_lt(b@, a@),
{
    proof {
        assert(a@.skip(0) =~= a@);
        assert(b@.skip(0) =~= b@);
    }
    lex_cmp_from(a, b, 0)
}

} // verus!
