use vstd::prelude::*;

verus! {

/// Lexicographic order on character sequences, comparing scalar values
/// position by position; a proper prefix precedes every extension.
pub open spec fn lex_le(a: Seq<char>, b: Seq<char>) -> bool
    decreases a.len(),
{
    if a.len() == 0 {
        true
    } else if b.len() == 0 {
        false
    } else if (a[0] as u32) < (b[0] as u32) {
        true
    } else if (a[0] as u32) > (b[0] as u32) {
        false
    } else {
        lex_le(a.skip(1), b.skip(1))
    }
}

/// Any two character sequences are comparable under `lex_le`.
pub proof fn lemma_lex_le_total(a: Seq<char>, b: Seq<char>)
    ensures
        lex_le(a, b) || lex_le(b, a),
    decreases a.len(),
{
    if a.len() != 0 && b.len() != 0 && (a[0] as u32) == (b[0] as u32) {
        lemma_lex_le_total(a.skip(1), b.skip(1));
    }
}

/// `lex_le` is transitive.
pub proof fn lemma_lex_le_trans(a: Seq<char>, b: Seq<char>, c: Seq<char>)
    requires
        lex_le(a, b),
        lex_le(b, c),
    ensures
        lex_le(a, c),
    decreases a.len(),
{
    if a.len() != 0 && b.len() != 0 && c.len() != 0 && (a[0] as u32) == (b[0] as u32) && (b[0]
        as u32) == (c[0] as u32) {
        lemma_lex_le_trans(a.skip(1), b.skip(1), c.skip(1));
    }
}

/// Compares two strings in the order given by `lex_le`.
pub fn str_le(a: &str, b: &str) -> (r: bool)
    ensures
        r == lex_le(a@, b@),
{
    let alen = a.unicode_len();
    let blen = b.unicode_len();
    let mut i: usize = 0;
    proof {
        assert(a@.skip(0) =~= a@);
        assert(b@.skip(0) =~= b@);
    }
    loop
        invariant
            i <= alen,
            i <= blen,
            alen == a@.len(),
            blen == b@.len(),
            lex_le(a@, b@) == lex_le(a@.skip(i as int), b@.skip(i as int)),
        decreases alen - i,
    {
        if i == alen {
            return true;
        }
        if i == blen {
            return false;
        }
        let ca = a.get_char(i);
        let cb = b.get_char(i);
        if (ca as u32) < (cb as u32) {
            return true;
        }
        if (ca as u32) > (cb as u32) {
            return false;
        }
        proof {
            assert(a@.skip(i as int)[0] == a@[i as int]);
            assert(b@.skip(i as int)[0] == b@[i as int]);
            assert(a@.skip(i as int).skip(1) =~= a@.skip(i + 1));
            assert(b@.skip(i as int).skip(1) =~= b@.skip(i + 1));
        }
        i = i + 1;
    }
}

/// The pattern `p` occurs in `t` starting at position `i`.
pub open spec fn substring_at(t: Seq<char>, p: Seq<char>, i: int) -> bool {
    &&& 0 <= i
    &&& i + p.len() <= t.len()
    &&& t.subrange(i, i + p.len() as int) == p
}

/// The pattern `p` occurs somewhere in `t`; the empty pattern occurs in
/// every text.
pub open spec fn has_substring(t: Seq<char>, p: Seq<char>) -> bool {
    exists|i: int| substring_at(t, p, i)
}

/// The pattern `p` matches `t` at exactly the position `i`.
fn match_at(t: &str, p: &str, i: usize) -> (r: bool)
    requires
        i + p@.len() <= t@.len(),
    ensures
        r == substring_at(t@, p@, i as int),
{
    let tlen = t.unicode_len();
    let plen = p.unicode_len();
    let mut j: usize = 0;
    while j < plen
        invariant
            tlen == t@.len(),
            plen == p@.len(),
            i + plen <= tlen,
            j <= plen,
            forall|m: int| 0 <= m < j ==> t@[i + m] == p@[m],
        decreases plen - j,
    {
        if t.get_char(i + j) != p.get_char(j) {
            proof {
                assert(!substring_at(t@, p@, i as int)) by {
                    if substring_at(t@, p@, i as int) {
                        assert(t@.subrange(i as int, i + p@.len() as int)[j as int] == t@[i + j]);
                    }
                }
            }
            return false;
        }
        j = j + 1;
    }
    proof {
        assert(t@.subrange(i as int, i + p@.len() as int) =~= p@);
    }
    true
}

/// Literal substring search, as the filter of the session uses it.
pub fn contains_str(t: &str, p: &str) -> (r: bool)
    ensures
        r == has_substring(t@, p@),
{
    let tlen = t.unicode_len();
    let plen = p.unicode_len();
    if plen == 0 {
        proof {
            assert(t@.subrange(0, 0) =~= p@);
            assert(substring_at(t@, p@, 0));
        }
        return true;
    }
    if plen > tlen {
        proof {
            assert(forall|i: int| !substring_at(t@, p@, i));
        }
        return false;
    }
    let mut i: usize = 0;
    while i <= tlen - plen
        invariant
            1 <= plen <= tlen,
            tlen == t@.len(),
            plen == p@.len(),
            i <= tlen - plen + 1,
            forall|k: int| 0 <= k < i ==> !substring_at(t@, p@, k),
        decreases tlen - plen - i + 1,
    {
        if match_at(t, p, i) {
            return true;
        }
        i = i + 1;
    }
    proof {
        assert(forall|k: int| !substring_at(t@, p@, k));
    }
    false
}

/// `i` is the least non-negative position satisfying `p`.
pub open spec fn is_least(p: spec_fn(int) -> bool, i: int) -> bool {
    &&& 0 <= i
    &&& p(i)
    &&& forall|j: int| 0 <= j < i ==> !#[trigger] p(j)
}

/// The least witness is unique.
pub proof fn lemma_least_unique(p: spec_fn(int) -> bool, a: int, b: int)
    requires
        is_least(p, a),
        is_least(p, b),
    ensures
        a == b,
{
}

} // verus!
