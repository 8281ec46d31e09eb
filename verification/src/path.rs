//! Path strings: depth as the count of separator characters, lexicographic
//! comparison of paths, and normalization of root names (trailing separators
//! stripped, except for a root that is a single separator).

use vstd::prelude::*;

verus! {

/// How many `'/'` characters a path holds; the tie-break depth of a node.
pub open spec fn slash_count(s: Seq<char>) -> nat
    decreases s.len(),
{
    if s.len() == 0 {
        0
    } else {
        slash_count(s.drop_last()) + (if s.last() == '/' {
            1nat
        } else {
            0nat
        })
    }
}

/// Strict lexicographic order on character sequences, by code point, with a
/// proper prefix sorting before its extensions.
pub open spec fn lex_lt(a: Seq<char>, b: Seq<char>) -> bool
    decreases a.len(),
{
    if b.len() == 0 {
        false
    } else if a.len() == 0 {
        true
    } else if a[0] != b[0] {
        (a[0] as u32) < (b[0] as u32)
    } else {
        lex_lt(a.drop_first(), b.drop_first())
    }
}

/// A root name with trailing separators stripped; a name that is nothing but
/// one separator is kept as it is.
pub open spec fn normalize(name: Seq<char>) -> Seq<char>
    decreases name.len(),
{
    if name.len() > 1 && name.last() == '/' {
        normalize(name.drop_last())
    } else {
        name
    }
}

/// Counts the separator characters of a path.
pub fn count_slashes(s: &str) -> (r: usize)
    ensures
        r == slash_count(s@),
{
    let len = s.unicode_len();
    let mut i: usize = 0;
    let mut cnt: usize = 0;
    while i < len
        invariant
            0 <= i <= len,
            len == s@.len(),
            cnt == slash_count(s@.take(i as int)),
            cnt <= i,
        decreases len - i,
    {
        let c = s.get_char(i);
        proof {
            assert(s@.take(i + 1).drop_last() =~= s@.take(i as int));
            assert(s@.take(i + 1).last() == s@[i as int]);
        }
        if c == '/' {
            cnt = cnt + 1;
        }
        i = i + 1;
    }
    proof {
        assert(s@.take(len as int) =~= s@);
    }
    cnt
}

proof fn lemma_lex_lt_mismatch(a: Seq<char>, b: Seq<char>, i: int)
    requires
        0 <= i < a.len(),
        i < b.len(),
        forall|j: int| 0 <= j < i ==> a[j] == b[j],
        a[i] != b[i],
    ensures
        lex_lt(a, b) == ((a[i] as u32) < (b[i] as u32)),
    decreases i,
{
    if i == 0 {
    } else {
        assert(a[0] == b[0]);
        assert(forall|j: int|
            0 <= j < i - 1 ==> a.drop_first()[j] == a[j + 1] && b.drop_first()[j] == b[j + 1]);
        lemma_lex_lt_mismatch(a.drop_first(), b.drop_first(), i - 1);
    }
}

proof fn lemma_lex_lt_common_prefix(a: Seq<char>, b: Seq<char>)
    requires
        forall|j: int| 0 <= j < a.len() && j < b.len() ==> a[j] == b[j],
    ensures
        lex_lt(a, b) == (a.len() < b.len()),
    decreases a.len(),
{
    if a.len() == 0 || b.len() == 0 {
    } else {
        assert(a[0] == b[0]);
        assert(forall|j: int|
            0 <= j < a.len() - 1 && j < b.len() - 1 ==> a.drop_first()[j] == a[j + 1]
                && b.drop_first()[j] == b[j + 1]);
        lemma_lex_lt_common_prefix(a.drop_first(), b.drop_first());
    }
}

/// Two sequences compare equal under `lex_lt` in neither direction only when
/// they are the same sequence.
pub proof fn lemma_lex_lt_total(a: Seq<char>, b: Seq<char>)
    ensures
        !lex_lt(a, b) && !lex_lt(b, a) ==> a == b,
        !(lex_lt(a, b) && lex_lt(b, a)),
    decreases a.len(),
{
    if a.len() == 0 || b.len() == 0 {
        if !lex_lt(a, b) && !lex_lt(b, a) {
            assert(a =~= b);
        }
    } else if a[0] != b[0] {
        assert((a[0] as u32) != (b[0] as u32)) by {
            vstd::utf8::char_u32_cast(a[0], a[0] as u32);
            vstd::utf8::char_u32_cast(b[0], b[0] as u32);
        }
    } else {
        lemma_lex_lt_total(a.drop_first(), b.drop_first());
        if !lex_lt(a, b) && !lex_lt(b, a) {
            assert(a.drop_first() == b.drop_first());
            assert(a =~= b) by {
                assert(forall|j: int| 1 <= j < a.len() ==> a[j] == a.drop_first()[j - 1]);
                assert(forall|j: int| 1 <= j < b.len() ==> b[j] == b.drop_first()[j - 1]);
            }
        }
    }
}

/// `lex_lt` is transitive.
pub proof fn lemma_lex_lt_trans(a: Seq<char>, b: Seq<char>, c: Seq<char>)
    requires
        lex_lt(a, b),
        lex_lt(b, c),
    ensures
        lex_lt(a, c),
    decreases a.len(),
{
    if a.len() == 0 {
        assert(c.len() > 0);
    } else {
        assert(b.len() > 0 && c.len() > 0);
        if a[0] != b[0] {
            if b[0] != c[0] {
                if a[0] != c[0] {
                } else {
                    assert((b[0] as u32) > (a[0] as u32) && (c[0] as u32) > (b[0] as u32));
                }
            } else {
                assert(a[0] != c[0]);
            }
        } else {
            if b[0] != c[0] {
                assert(a[0] != c[0] || (a[0] as u32) < (c[0] as u32));
            } else {
                lemma_lex_lt_trans(a.drop_first(), b.drop_first(), c.drop_first());
            }
        }
    }
}

/// Compares two paths lexicographically by code point.
pub fn str_lex_lt(a: &str, b: &str) -> (r: bool)
    ensures
        r == lex_lt(a@, b@),
{
    let alen = a.unicode_len();
    let blen = b.unicode_len();
    let mut i: usize = 0;
    loop
        invariant
            0 <= i <= alen,
            i <= blen,
            alen == a@.len(),
            blen == b@.len(),
            forall|j: int| 0 <= j < i ==> a@[j] == b@[j],
        decreases alen - i,
    {
        if i == alen || i == blen {
            proof {
                lemma_lex_lt_common_prefix(a@, b@);
            }
            return alen < blen;
        }
        let ca = a.get_char(i);
        let cb = b.get_char(i);
        if ca != cb {
            proof {
                lemma_lex_lt_mismatch(a@, b@, i as int);
            }
            return (ca as u32) < (cb as u32);
        }
        i = i + 1;
    }
}

/// Strips trailing separators from a root name, keeping a lone separator.
pub fn normalize_root(name: &str) -> (r: String)
    ensures
        r@ == normalize(name@),
{
    let len = name.unicode_len();
    let mut end: usize = len;
    proof {
        assert(name@.take(len as int) =~= name@);
    }
    while end > 1 && name.get_char(end - 1) == '/'
        invariant
            0 <= end <= len,
            len == name@.len(),
            normalize(name@.take(end as int)) == normalize(name@),
        decreases end,
    {
        proof {
            assert(name@.take(end as int).drop_last() =~= name@.take(end - 1));
        }
        end = end - 1;
    }
    proof {
        assert(name@.take(len as int) =~= name@);
        assert(normalize(name@.take(end as int)) == name@.take(end as int));
    }
    let cut = name.substring_char(0, end);
    proof {
        assert(cut@ =~= name@.take(end as int));
    }
    String::from_str(cut)
}

} // verus!
