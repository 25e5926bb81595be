//! `/` search and its `n`/`N` repeats: literal, smartcase, accent-folded,
//! wrapping around the buffer.

use vstd::prelude::*;
use crate::fuzzy::{find_fold, first_fold_match, last_fold_match, rfind_fold};
use crate::motions::{bytes, char_at_offset, char_index, is_boundary};
use crate::text::utf8_len;

verus! {

/// Whether `c` has Unicode's Uppercase property (`char::is_uppercase`).
pub uninterp spec fn is_upper(c: char) -> bool;

/// `char::is_uppercase`: claimed to depend on `c` alone, on ASCII to be
/// exactly the capitals `A`..`Z`, and on Latin-1 exactly those and `À`..`Þ`
/// without `×` (the Uppercase property's Latin-1 members).
#[verifier::external_body]
fn char_is_uppercase(c: char) -> (r: bool)
    ensures
        r == is_upper(c),
        (c as u32) < 0x80 ==> (r <==> ('A' <= c && c <= 'Z')),
        (c as u32) < 0x100 ==> (r <==> crate::fuzzy::latin1_capital(c)),
{
    c.is_uppercase()
}

/// Smartcase: a pattern with no capital searches case-insensitively.
pub open spec fn smartcase_ci(pat: Seq<char>) -> bool {
    !exists|i: int| 0 <= i < pat.len() && is_upper(#[trigger] pat[i])
}

fn pattern_is_ci(pat: &str) -> (r: bool)
    ensures
        r == smartcase_ci(pat@),
{
    let p = crate::text::chars_of(pat);
    let mut i: usize = 0;
    while i < p.len()
        invariant
            p@ == pat@,
            i <= p@.len(),
            forall|j: int| 0 <= j < i ==> !is_upper(#[trigger] pat@[j]),
        decreases p@.len() - i,
    {
        if char_is_uppercase(p[i]) {
            return false;
        }
        i += 1;
    }
    true
}

/// What a search leaves on the notice line.
#[derive(Clone, Copy, Debug, PartialEq, Eq, Structural)]
pub enum SearchNotice {
    /// `n`/`N` before any `/` search.
    NoPrevious,
    /// The match was found by wrapping around the buffer.
    Wrapped,
    /// The pattern does not occur.
    NotFound,
}

impl SearchNotice {
    /// The notice's text for the pattern `pat`.
    pub fn message(&self, pat: &str) -> (r: String)
        ensures
            r@ == match self {
                SearchNotice::NoPrevious => "no previous search"@,
                SearchNotice::Wrapped => "wrapped"@,
                SearchNotice::NotFound => "not found: "@ + pat@,
            },
    {
        match self {
            SearchNotice::NoPrevious => crate::text::string_of(
                crate::text::chars_of("no previous search").as_slice(),
            ),
            SearchNotice::Wrapped => crate::text::string_of(
                crate::text::chars_of("wrapped").as_slice(),
            ),
            SearchNotice::NotFound => {
                let mut v = crate::text::chars_of("not found: ");
                crate::text::extend_str(&mut v, pat);
                crate::text::string_of(v.as_slice())
            },
        }
    }
}

/// One search step from char index `k` of `s`: the char index of the match
/// and whether reaching it wrapped around. Forward looks strictly past the
/// caret char, then from the top; backward looks before the caret, then from
/// the bottom.
#[verifier::opaque]
pub open spec fn search_hit(s: Seq<char>, k: int, pat: Seq<char>, ci: bool, fwd: bool) -> Option<
    (int, bool),
> {
    if fwd {
        let st = if k >= s.len() {
            s.len() as int
        } else {
            k + 1
        };
        match first_fold_match(s.skip(st), pat, ci) {
            Some(m) => Some((st + m, false)),
            None => match first_fold_match(s, pat, ci) {
                Some(m) => Some((m, true)),
                None => None,
            },
        }
    } else {
        match last_fold_match(s.take(k), pat, ci) {
            Some(m) => Some((m, false)),
            None => match last_fold_match(s, pat, ci) {
                Some(m) => Some((m, true)),
                None => None,
            },
        }
    }
}

/// `n` search steps from char index `k`, with `notice` set so far: where the
/// caret ends and the notice left. A step that finds nothing stops there with
/// "not found"; a wrapping step sets "wrapped".
pub open spec fn search_steps(
    s: Seq<char>,
    k: int,
    pat: Seq<char>,
    ci: bool,
    fwd: bool,
    n: nat,
    notice: Option<SearchNotice>,
) -> (int, Option<SearchNotice>)
    decreases n,
{
    if n == 0 {
        (k, notice)
    } else {
        match search_hit(s, k, pat, ci, fwd) {
            None => (k, Some(SearchNotice::NotFound)),
            Some((m, w)) => search_steps(
                s,
                m,
                pat,
                ci,
                fwd,
                (n - 1) as nat,
                if w {
                    Some(SearchNotice::Wrapped)
                } else {
                    notice
                },
            ),
        }
    }
}

/// Where `n` repeats of the search for `pat` leave a caret at byte offset
/// `caret` of `s`, and the notice they set (`None`: the notice is left as
/// it was).
pub open spec fn search_outcome(s: Seq<char>, caret: int, pat: Seq<char>, n: nat, fwd: bool) -> (
    int,
    Option<SearchNotice>,
) {
    if pat.len() == 0 {
        (caret, Some(SearchNotice::NoPrevious))
    } else {
        let r = search_steps(
            s,
            char_at_offset(s, caret),
            pat,
            smartcase_ci(pat),
            fwd,
            n,
            None,
        );
        (utf8_len(s.take(r.0)) as int, r.1)
    }
}

/// The char index of the match of `pat` in `text[st..]` found by
/// [`find_fold`], or `None`.
fn find_after(text: &str, v: &Vec<char>, st: usize, pat: &str, ci: bool) -> (r: Option<usize>)
    requires
        v@ == text@,
        st <= v@.len(),
    ensures
        r is Some <==> first_fold_match(v@.skip(st as int), pat@, ci) is Some,
        r matches Some(m) ==> m == st + first_fold_match(v@.skip(st as int), pat@, ci).unwrap()
            && m < v@.len(),
{
    let sub = text.substring_char(st, v.len());
    assert(sub@ =~= v@.skip(st as int));
    match find_fold(sub, pat, ci) {
        None => None,
        Some(off) => {
            let ghost m = first_fold_match(sub@, pat@, ci).unwrap();
            let w = crate::text::chars_of(sub);
            proof {
                crate::text::lemma_utf8_len_encode(sub@);
                crate::text::lemma_utf8_len_mono(sub@, m, sub@.len() as int);
                assert(sub@.take(sub@.len() as int) =~= sub@);
                crate::motions::lemma_boundary_is_prefix(sub@, off as int);
            }
            let k = char_index(sub, &w, off);
            proof {
                crate::motions::lemma_prefix_len_injective(sub@, k as int, m);
            }
            Some(st + k)
        },
    }
}

/// The char index of the last match of `pat` in `text[..end]` found by
/// [`rfind_fold`], or `None`.
fn find_before(text: &str, v: &Vec<char>, end: usize, pat: &str, ci: bool) -> (r: Option<usize>)
    requires
        v@ == text@,
        end <= v@.len(),
    ensures
        r is Some <==> last_fold_match(v@.take(end as int), pat@, ci) is Some,
        r matches Some(m) ==> m == last_fold_match(v@.take(end as int), pat@, ci).unwrap() && m
            < end,
{
    let sub = text.substring_char(0, end);
    assert(sub@ =~= v@.take(end as int));
    match rfind_fold(sub, pat, ci) {
        None => None,
        Some(off) => {
            let ghost m = last_fold_match(sub@, pat@, ci).unwrap();
            let w = crate::text::chars_of(sub);
            proof {
                crate::text::lemma_utf8_len_encode(sub@);
                crate::text::lemma_utf8_len_mono(sub@, m, sub@.len() as int);
                assert(sub@.take(sub@.len() as int) =~= sub@);
                crate::motions::lemma_boundary_is_prefix(sub@, off as int);
            }
            let k = char_index(sub, &w, off);
            proof {
                crate::motions::lemma_prefix_len_injective(sub@, k as int, m);
            }
            Some(k)
        },
    }
}

/// One search step from char index `k`: [`search_hit`].
fn hit(text: &str, v: &Vec<char>, k: usize, pat: &str, ci: bool, fwd: bool) -> (r: Option<
    (usize, bool),
>)
    requires
        v@ == text@,
        k <= v@.len(),
    ensures
        r is Some <==> search_hit(v@, k as int, pat@, ci, fwd) is Some,
        r matches Some((m, w)) ==> m <= v@.len() && search_hit(v@, k as int, pat@, ci, fwd) == Some(
            (m as int, w),
        ),
{
    proof {
        reveal(search_hit);
    }
    if fwd {
        let st = if k >= v.len() {
            v.len()
        } else {
            k + 1
        };
        match find_after(text, v, st, pat, ci) {
            Some(m) => Some((m, false)),
            None => {
                assert(v@.skip(0) =~= v@);
                match find_after(text, v, 0, pat, ci) {
                    Some(m) => Some((m, true)),
                    None => None,
                }
            },
        }
    } else {
        match find_before(text, v, k, pat, ci) {
            Some(m) => Some((m, false)),
            None => {
                assert(v@.take(v@.len() as int) =~= v@);
                match find_before(text, v, v.len(), pat, ci) {
                    Some(m) => Some((m, true)),
                    None => None,
                }
            },
        }
    }
}

/// Jump `n` matches of `last_search` forward (`fwd`: the `/`-Enter and `n`
/// step) or backward (`N`), wrapping around the buffer. Gives the new caret
/// and the notice to post, if any: "no previous search" for an empty
/// pattern, "not found" (caret left where the steps got to), or "wrapped".
pub fn search_repeat(text: &str, caret: usize, last_search: &str, n: usize, fwd: bool) -> (r: (
    usize,
    Option<SearchNotice>,
))
    requires
        is_boundary(bytes(text), caret as int),
    ensures
        r.0 == search_outcome(text@, caret as int, last_search@, n as nat, fwd).0,
        r.1 == search_outcome(text@, caret as int, last_search@, n as nat, fwd).1,
        is_boundary(bytes(text), r.0 as int),
{
    if last_search.is_empty() {
        return (caret, Some(SearchNotice::NoPrevious));
    }
    let ci = pattern_is_ci(last_search);
    let v = crate::text::chars_of(text);
    let k0 = char_index(text, &v, caret);
    let ghost total = search_steps(v@, k0 as int, last_search@, ci, fwd, n as nat, None);
    let text_len = crate::text::str_byte_len(text);
    proof {
        crate::text::lemma_utf8_len_encode(text@);
    }
    let mut k = k0;
    let mut notice: Option<SearchNotice> = None;
    let mut t: usize = 0;
    while t < n
        invariant
            v@ == text@,
            k <= v@.len(),
            t <= n,
            text_len == utf8_len(v@),
            total == search_steps(v@, k as int, last_search@, ci, fwd, (n - t) as nat, notice),
            total == search_steps(v@, k0 as int, last_search@, ci, fwd, n as nat, None),
            k0 == char_at_offset(v@, caret as int),
            ci == smartcase_ci(last_search@),
            last_search@.len() > 0,
        decreases n - t,
    {
        match hit(text, &v, k, last_search, ci, fwd) {
            Some((m, w)) => {
                k = m;
                if w {
                    notice = Some(SearchNotice::Wrapped);
                }
            },
            None => {
                let at = crate::text::byte_offset(v.as_slice(), k);
                proof {
                    crate::text::lemma_utf8_len_mono(v@, k as int, v@.len() as int);
                    assert(v@.take(v@.len() as int) =~= v@);
                    crate::text::lemma_utf8_len_encode(text@);
                    crate::motions::lemma_boundary_is_prefix(text@, at as int);
                }
                return (at, Some(SearchNotice::NotFound));
            },
        }
        t += 1;
    }
    let at = crate::text::byte_offset(v.as_slice(), k);
    proof {
        crate::text::lemma_utf8_len_mono(v@, k as int, v@.len() as int);
        assert(v@.take(v@.len() as int) =~= v@);
        crate::motions::lemma_boundary_is_prefix(text@, at as int);
    }
    (at, notice)
}

/// Run a typed `/` search: a non-empty `cmdline` becomes the remembered
/// pattern (a bare `/` Enter repeats the last one, like vim), then jump
/// forward once. Gives the remembered pattern, the new caret and the notice.
pub fn execute_search(text: &str, caret: usize, cmdline: &str, last_search: &str) -> (r: (
    String,
    usize,
    Option<SearchNotice>,
))
    requires
        is_boundary(bytes(text), caret as int),
    ensures
        r.0@ == if cmdline@.len() > 0 {
            cmdline@
        } else {
            last_search@
        },
        r.1 == search_outcome(text@, caret as int, r.0@, 1, true).0,
        r.2 == search_outcome(text@, caret as int, r.0@, 1, true).1,
        is_boundary(bytes(text), r.1 as int),
{
    let pat = if !cmdline.is_empty() {
        crate::text::string_of(crate::text::chars_of(cmdline).as_slice())
    } else {
        crate::text::string_of(crate::text::chars_of(last_search).as_slice())
    };
    let (c, note) = search_repeat(text, caret, pat.as_str(), 1, true);
    (pat, c, note)
}

} // verus!
