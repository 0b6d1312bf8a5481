//! Character-level helpers shared by the store and the formatting layer:
//! ASCII case folding (the collation used for listing order), a lexicographic
//! order on folded keys, and substring search.

use vstd::prelude::*;
use vstd::string::StrSliceExecFns;

verus! {

/// Folds an ASCII upper-case letter to its lower-case code point; any other
/// character is taken as its own code point.
pub open spec fn fold_char(c: char) -> u32 {
    if 65 <= c as u32 && c as u32 <= 90 {
        (c as u32 + 32) as u32
    } else {
        c as u32
    }
}

/// The collation key of a name: every character folded.
pub open spec fn fold_key(s: Seq<char>) -> Seq<u32> {
    s.map_values(|c: char| fold_char(c))
}

/// Lexicographic less-or-equal on sequences of code points.
pub open spec fn lex_leq(a: Seq<u32>, b: Seq<u32>) -> bool
    decreases a.len(),
{
    if a.len() == 0 {
        true
    } else if b.len() == 0 {
        false
    } else if a[0] == b[0] {
        lex_leq(a.drop_first(), b.drop_first())
    } else {
        a[0] < b[0]
    }
}

/// Case-insensitive order on names: lexicographic on folded keys.
pub open spec fn name_leq(a: Seq<char>, b: Seq<char>) -> bool {
    lex_leq(fold_key(a), fold_key(b))
}

pub proof fn lemma_lex_leq_total(a: Seq<u32>, b: Seq<u32>)
    ensures
        lex_leq(a, b) || lex_leq(b, a),
    decreases a.len(),
{
    if a.len() == 0 || b.len() == 0 {
    } else if a[0] == b[0] {
        lemma_lex_leq_total(a.drop_first(), b.drop_first());
    }
}

pub proof fn lemma_lex_leq_transitive(a: Seq<u32>, b: Seq<u32>, c: Seq<u32>)
    requires
        lex_leq(a, b),
        lex_leq(b, c),
    ensures
        lex_leq(a, c),
    decreases a.len(),
{
    if a.len() == 0 {
    } else if b.len() == 0 {
    } else if c.len() == 0 {
    } else {
        if a[0] == b[0] && b[0] == c[0] {
            lemma_lex_leq_transitive(a.drop_first(), b.drop_first(), c.drop_first());
        }
    }
}

pub proof fn lemma_name_leq_total(a: Seq<char>, b: Seq<char>)
    ensures
        name_leq(a, b) || name_leq(b, a),
{
    lemma_lex_leq_total(fold_key(a), fold_key(b));
}

pub proof fn lemma_name_leq_transitive(a: Seq<char>, b: Seq<char>, c: Seq<char>)
    requires
        name_leq(a, b),
        name_leq(b, c),
    ensures
        name_leq(a, c),
{
    lemma_lex_leq_transitive(fold_key(a), fold_key(b), fold_key(c));
}

/// Folds one character at run time.
pub fn fold_char_exec(c: char) -> (r: u32)
    ensures
        r == fold_char(c),
{
    let x = c as u32;
    if 65 <= x && x <= 90 {
        x + 32
    } else {
        x
    }
}

/// Decides the case-insensitive order between two names.
pub fn name_leq_exec(a: &str, b: &str) -> (r: bool)
    ensures
        r == name_leq(a@, b@),
{
    let a_len = a.unicode_len();
    let b_len = b.unicode_len();
    let mut i: usize = 0;
    proof {
        assert(fold_key(a@).skip(0) =~= fold_key(a@));
        assert(fold_key(b@).skip(0) =~= fold_key(b@));
    }
    loop
        invariant
            i <= a_len,
            i <= b_len,
            a_len == a@.len(),
            b_len == b@.len(),
            forall|j: int| 0 <= j < i ==> fold_key(a@)[j] == fold_key(b@)[j],
            name_leq(a@, b@) == lex_leq(fold_key(a@).skip(i as int), fold_key(b@).skip(i as int)),
        decreases a_len - i,
    {
        if i >= a_len {
            proof {
                assert(fold_key(a@).skip(i as int).len() == 0);
            }
            return true;
        }
        if i >= b_len {
            proof {
                assert(fold_key(b@).skip(i as int).len() == 0);
                assert(fold_key(a@).skip(i as int).len() > 0);
            }
            return false;
        }
        let ca = fold_char_exec(a.get_char(i));
        let cb = fold_char_exec(b.get_char(i));
        proof {
            let fa = fold_key(a@).skip(i as int);
            let fb = fold_key(b@).skip(i as int);
            assert(fa[0] == fold_key(a@)[i as int]);
            assert(fb[0] == fold_key(b@)[i as int]);
            assert(fa.drop_first() =~= fold_key(a@).skip(i + 1));
            assert(fb.drop_first() =~= fold_key(b@).skip(i + 1));
        }
        if ca != cb {
            return ca < cb;
        }
        i = i + 1;
    }
}

/// `n` occurs in `h` starting at position `i`.
pub open spec fn is_match_at<T>(h: Seq<T>, n: Seq<T>, i: int) -> bool {
    0 <= i && i + n.len() <= h.len() && h.subrange(i, i + n.len()) == n
}

/// `n` occurs somewhere in `h`.
pub open spec fn has_substring<T>(h: Seq<T>, n: Seq<T>) -> bool {
    exists|i: int| is_match_at(h, n, i)
}

/// Equal sequences are substrings of one another.
pub proof fn lemma_self_substring<T>(a: Seq<T>)
    ensures
        has_substring(a, a),
{
    assert(a.subrange(0, a.len() as int) =~= a);
    assert(is_match_at(a, a, 0));
}

/// The position of the first occurrence of `n` in `h`, if any.
pub fn find_sub(h: &str, n: &str) -> (r: Option<usize>)
    ensures
        match r {
            Some(i) => is_match_at(h@, n@, i as int) && forall|j: int|
                0 <= j < i ==> !is_match_at(h@, n@, j),
            None => !has_substring(h@, n@),
        },
{
    let h_len = h.unicode_len();
    let n_len = n.unicode_len();
    if n_len > h_len {
        proof {
            assert(forall|i: int| !is_match_at(h@, n@, i));
        }
        return None;
    }
    if n_len == 0 {
        proof {
            assert(h@.subrange(0, 0) =~= n@);
            assert(is_match_at(h@, n@, 0));
        }
        return Some(0);
    }
    let mut i: usize = 0;
    while i <= h_len - n_len
        invariant
            n_len == n@.len(),
            h_len == h@.len(),
            0 < n_len <= h_len,
            i <= h_len - n_len + 1,
            forall|j: int| 0 <= j < i ==> !is_match_at(h@, n@, j),
        decreases h_len - i,
    {
        let mut k: usize = 0;
        let mut matched = true;
        while k < n_len && matched
            invariant
                n_len == n@.len(),
                h_len == h@.len(),
                i + n_len <= h_len,
                k <= n_len,
                matched ==> forall|j: int| 0 <= j < k ==> h@[i + j] == n@[j],
                !matched ==> !is_match_at(h@, n@, i as int),
            decreases n_len - k + (if matched { 1int } else { 0int }),
    {
            if h.get_char(i + k) != n.get_char(k) {
                matched = false;
                proof {
                    if is_match_at(h@, n@, i as int) {
                        assert(h@.subrange(i as int, i + n@.len())[k as int] == h@[i + k]);
                    }
                }
            } else {
                k = k + 1;
            }
        }
        if matched {
            proof {
                assert(h@.subrange(i as int, i + n@.len()) =~= n@);
                assert(is_match_at(h@, n@, i as int));
            }
            return Some(i);
        }
        i = i + 1;
    }
    proof {
        assert(forall|j: int| j >= i ==> !is_match_at(h@, n@, j));
    }
    None
}

/// Whether `n` occurs in `h` as a substring (or equals it), comparing
/// characters under the case-insensitive collation.
pub fn contains_sub_fold(h: &str, n: &str) -> (r: bool)
    ensures
        r == has_substring(fold_key(h@), fold_key(n@)),
{
    let ghost fh = fold_key(h@);
    let ghost fn_key = fold_key(n@);
    let h_len = h.unicode_len();
    let n_len = n.unicode_len();
    if n_len > h_len {
        proof {
            assert(forall|i: int| !is_match_at(fh, fn_key, i));
        }
        return false;
    }
    if n_len == 0 {
        proof {
            assert(fh.subrange(0, 0) =~= fn_key);
            assert(is_match_at(fh, fn_key, 0));
        }
        return true;
    }
    let mut i: usize = 0;
    while i <= h_len - n_len
        invariant
            fh == fold_key(h@),
            fn_key == fold_key(n@),
            n_len == n@.len(),
            h_len == h@.len(),
            0 < n_len <= h_len,
            i <= h_len - n_len + 1,
            forall|j: int| 0 <= j < i ==> !is_match_at(fh, fn_key, j),
        decreases h_len - i,
    {
        let mut k: usize = 0;
        let mut matched = true;
        while k < n_len && matched
            invariant
                fh == fold_key(h@),
                fn_key == fold_key(n@),
                n_len == n@.len(),
                h_len == h@.len(),
                i + n_len <= h_len,
                k <= n_len,
                matched ==> forall|j: int| 0 <= j < k ==> fh[i + j] == fn_key[j],
                !matched ==> !is_match_at(fh, fn_key, i as int),
            decreases n_len - k + (if matched { 1int } else { 0int }),
        {
            if fold_char_exec(h.get_char(i + k)) != fold_char_exec(n.get_char(k)) {
                matched = false;
                proof {
                    if is_match_at(fh, fn_key, i as int) {
                        assert(fh.subrange(i as int, i + fn_key.len())[k as int] == fh[i + k]);
                    }
                }
            } else {
                k = k + 1;
            }
        }
        if matched {
            proof {
                assert(fh.subrange(i as int, i + fn_key.len()) =~= fn_key);
                assert(is_match_at(fh, fn_key, i as int));
            }
            return true;
        }
        i = i + 1;
    }
    proof {
        assert(forall|j: int| j >= i ==> !is_match_at(fh, fn_key, j));
    }
    false
}

} // verus!
