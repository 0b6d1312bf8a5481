//! The string table for user-facing messages, and the `{}` placeholder
//! substitution used to fill them in. The table is plain data handed in
//! by the caller; lookups fall back to the empty string, and substitution
//! replaces one placeholder per replacement, left to right.

use vstd::prelude::*;
use vstd::string::StrSliceExecFns;
use vstd::string::StringExecFns;

verus! {

use crate::text::{has_substring, is_match_at, find_sub};

/// The message tables: identifiers mapped to informational and error
/// message texts.
pub struct Locale {
    /// Informational messages by identifier.
    pub info: Vec<(String, String)>,
    /// Error messages by identifier.
    pub error: Vec<(String, String)>,
}

/// The views of a table's entries.
pub open spec fn pairs_view(v: Seq<(String, String)>) -> Seq<(Seq<char>, Seq<char>)> {
    Seq::new(v.len(), |i: int| (v[i].0@, v[i].1@))
}

/// The value of the first entry carrying `id`, or the empty string.
pub open spec fn lookup_first(t: Seq<(Seq<char>, Seq<char>)>, id: Seq<char>) -> Seq<char>
    decreases t.len(),
{
    if t.len() == 0 {
        Seq::empty()
    } else if t[0].0 == id {
        t[0].1
    } else {
        lookup_first(t.drop_first(), id)
    }
}

impl Locale {
    /// A locale over the given tables.
    pub fn new(info: Vec<(String, String)>, error: Vec<(String, String)>) -> (l: Locale)
        ensures
            l.info == info,
            l.error == error,
    {
        Locale { info, error }
    }
}

/// Finds `id` in a table; the empty string when it is absent.
fn lookup_table(t: &Vec<(String, String)>, id: &str) -> (r: String)
    ensures
        r@ == lookup_first(pairs_view(t@), id@),
{
    let key = String::from_str(id);
    let len = t.len();
    let mut i: usize = 0;
    proof {
        assert(pairs_view(t@).skip(0) =~= pairs_view(t@));
    }
    while i < len
        invariant
            i <= len,
            len == t@.len(),
            key@ == id@,
            lookup_first(pairs_view(t@), id@) == lookup_first(
                pairs_view(t@).skip(i as int),
                id@,
            ),
        decreases len - i,
    {
        let e = &t[i];
        proof {
            assert(pairs_view(t@).skip(i as int)[0] == (t@[i as int].0@, t@[i as int].1@));
            assert(pairs_view(t@).skip(i as int).drop_first() =~= pairs_view(t@).skip(i + 1));
        }
        if e.0 == key {
            return e.1.clone();
        }
        i = i + 1;
    }
    proof {
        assert(pairs_view(t@).skip(len as int).len() == 0);
    }
    String::new()
}

/// The error message registered under `id`, or the empty string.
pub fn get_error(locale: &Locale, id: &str) -> (r: String)
    ensures
        r@ == lookup_first(pairs_view(locale.error@), id@),
{
    lookup_table(&locale.error, id)
}

/// The informational message registered under `id`, or the empty string.
pub fn get_info(locale: &Locale, id: &str) -> (r: String)
    ensures
        r@ == lookup_first(pairs_view(locale.info@), id@),
{
    lookup_table(&locale.info, id)
}

/// The `{}` placeholder.
pub open spec fn brace_pat() -> Seq<char> {
    seq!['{', '}']
}

/// `i` is the first occurrence of `p` in `t`.
pub open spec fn is_first_match(t: Seq<char>, p: Seq<char>, i: int) -> bool {
    is_match_at(t, p, i) && forall|j: int| 0 <= j < i ==> !is_match_at(t, p, j)
}

/// The position of the first occurrence of `p` in `t` (meaningful only
/// when one exists).
pub open spec fn first_match_idx(t: Seq<char>, p: Seq<char>) -> int {
    choose|i: int| is_first_match(t, p, i)
}

/// A first occurrence is unique, so any witness is the index.
pub proof fn lemma_first_match_idx(t: Seq<char>, p: Seq<char>, i: int)
    requires
        is_first_match(t, p, i),
    ensures
        first_match_idx(t, p) == i,
{
    let j = first_match_idx(t, p);
    assert(is_first_match(t, p, j));
    if i < j {
        assert(is_match_at(t, p, i));
        assert(false);
    } else if j < i {
        assert(is_match_at(t, p, j));
        assert(false);
    }
}

/// The text with the first `p` replaced by `r`; unchanged when `p` does
/// not occur.
pub open spec fn replace_first(t: Seq<char>, p: Seq<char>, r: Seq<char>) -> Seq<char> {
    if has_substring(t, p) {
        let i = first_match_idx(t, p);
        t.subrange(0, i) + r + t.subrange(i + p.len(), t.len() as int)
    } else {
        t
    }
}

/// The text with one `{}` placeholder substituted per replacement, in
/// order.
pub open spec fn spec_replace_all(t: Seq<char>, reps: Seq<Seq<char>>) -> Seq<char>
    decreases reps.len(),
{
    if reps.len() == 0 {
        t
    } else {
        spec_replace_all(replace_first(t, brace_pat(), reps[0]), reps.drop_first())
    }
}

/// The views of a list of replacement texts.
pub open spec fn rep_views(reps: Seq<&String>) -> Seq<Seq<char>> {
    Seq::new(reps.len(), |i: int| reps[i]@)
}

/// Replaces the first `{}` in `text` with `rep`.
fn replace_first_exec(text: String, rep: &String) -> (r: String)
    ensures
        r@ == replace_first(text@, brace_pat(), rep@),
{
    proof {
        reveal_strlit("{}");
        assert("{}"@ =~= brace_pat());
    }
    match find_sub(text.as_str(), "{}") {
        Some(i) => {
            proof {
                assert(is_first_match(text@, brace_pat(), i as int));
                lemma_first_match_idx(text@, brace_pat(), i as int);
                assert(has_substring(text@, brace_pat()));
            }
            let len = text.as_str().unicode_len();
            let prefix = text.as_str().substring_char(0, i);
            let suffix = text.as_str().substring_char(i + 2, len);
            let mut out = String::from_str(prefix);
            out.append(rep.as_str());
            out.append(suffix);
            proof {
                assert(out@ =~= replace_first(text@, brace_pat(), rep@));
            }
            out
        },
        None => {
            proof {
                assert(!has_substring(text@, brace_pat()));
            }
            text
        },
    }
}

/// Fills each `{}` placeholder in `text` with the matching replacement,
/// left to right, one placeholder per replacement.
pub fn replace(text: String, replacements: &[&String]) -> (r: String)
    ensures
        r@ == spec_replace_all(text@, rep_views(replacements@)),
{
    let ghost reps = rep_views(replacements@);
    let mut cur = text;
    let len = replacements.len();
    let mut i: usize = 0;
    proof {
        assert(reps.skip(0) =~= reps);
    }
    while i < len
        invariant
            i <= len,
            len == replacements@.len(),
            reps == rep_views(replacements@),
            spec_replace_all(text@, reps) == spec_replace_all(cur@, reps.skip(i as int)),
        decreases len - i,
    {
        proof {
            assert(reps.skip(i as int)[0] == replacements@[i as int]@);
            assert(reps.skip(i as int).drop_first() =~= reps.skip(i + 1));
        }
        cur = replace_first_exec(cur, replacements[i]);
        i = i + 1;
    }
    proof {
        assert(reps.skip(len as int).len() == 0);
    }
    cur
}

/// The error message under `id`, its placeholders filled in.
pub fn get_error_f(locale: &Locale, id: &str, replacements: &[&String]) -> (r: String)
    ensures
        r@ == spec_replace_all(
            lookup_first(pairs_view(locale.error@), id@),
            rep_views(replacements@),
        ),
{
    let text = get_error(locale, id);
    replace(text, replacements)
}

/// The informational message under `id`, its placeholders filled in.
pub fn get_info_f(locale: &Locale, id: &str, replacements: &[&String]) -> (r: String)
    ensures
        r@ == spec_replace_all(
            lookup_first(pairs_view(locale.info@), id@),
            rep_views(replacements@),
        ),
{
    let text = get_info(locale, id);
    replace(text, replacements)
}

} // verus!
