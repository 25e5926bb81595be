//! Match primitives: the palette's fuzzy scorer and the case/diacritic
//! folding helpers shared with `/` search.

use vstd::prelude::*;
use crate::text;

verus! {

broadcast use vstd::string::group_string_axioms;

/// `char::to_ascii_lowercase`.
pub open spec fn ascii_lower(c: char) -> char {
    if 'A' <= c && c <= 'Z' {
        ((c as u32) + 32) as char
    } else {
        c
    }
}

pub(crate) fn ascii_lower_exec(c: char) -> (r: char)
    ensures
        r == ascii_lower(c),
{
    if 'A' <= c && c <= 'Z' {
        ((c as u8) + 32) as char
    } else {
        c
    }
}

/// A path/word separator: `/ _ - .` or a space.
pub open spec fn is_separator(c: char) -> bool {
    c == '/' || c == '_' || c == '-' || c == '.' || c == ' '
}

fn is_separator_exec(c: char) -> (r: bool)
    ensures
        r == is_separator(c),
{
    c == '/' || c == '_' || c == '-' || c == '.' || c == ' '
}

/// Whether text char `t` satisfies query char `q`: equal ignoring ASCII case,
/// or `q` is a space and `t` a separator.
pub open spec fn hits(q: char, t: char) -> bool {
    ascii_lower(t) == ascii_lower(q) || (q == ' ' && is_separator(t))
}

/// The scorer's state after the first `n` chars of `t`: query chars matched,
/// score so far, and whether the last char matched.
pub open spec fn fuzzy_state(q: Seq<char>, t: Seq<char>, n: nat) -> (nat, int, bool)
    decreases n,
{
    if n == 0 {
        (0, 0, false)
    } else {
        let st = fuzzy_state(q, t, (n - 1) as nat);
        let tc = t[n - 1];
        if st.0 < q.len() && hits(q[st.0 as int], tc) {
            let boundary = n == 1 || is_separator(t[n - 2]);
            (
                st.0 + 1,
                st.1 + 1 + (if boundary {
                    10int
                } else {
                    0int
                }) + (if st.2 {
                    5int
                } else {
                    0int
                }),
                true,
            )
        } else {
            (st.0, st.1, false)
        }
    }
}

/// The palette's fuzzy score of `text` for `query`: `None` unless every query
/// char is matched, in order.
pub open spec fn fuzzy(q: Seq<char>, t: Seq<char>) -> Option<int> {
    if q.len() == 0 {
        Some(0)
    } else {
        let st = fuzzy_state(q, t, t.len());
        if st.0 == q.len() {
            Some(st.1)
        } else {
            None
        }
    }
}

proof fn lemma_fuzzy_state_bounds(q: Seq<char>, t: Seq<char>, n: nat)
    requires
        n <= t.len(),
    ensures
        fuzzy_state(q, t, n).0 <= q.len(),
        fuzzy_state(q, t, n).0 <= fuzzy_state(q, t, n).1 <= 16 * fuzzy_state(q, t, n).0,
    decreases n,
{
    if n > 0 {
        lemma_fuzzy_state_bounds(q, t, (n - 1) as nat);
    }
}

/// A query of fewer than `i32::MAX / 16` chars never overflows the score.
pub proof fn lemma_fuzzy_fits(q: Seq<char>, t: Seq<char>)
    requires
        16 * q.len() <= i32::MAX,
    ensures
        fuzzy_state(q, t, t.len()).1 <= i32::MAX,
{
    lemma_fuzzy_state_bounds(q, t, t.len());
}

proof fn lemma_fuzzy_state_mono(q: Seq<char>, t: Seq<char>, m: nat, n: nat)
    requires
        m <= n <= t.len(),
    ensures
        fuzzy_state(q, t, m).0 <= fuzzy_state(q, t, n).0,
        fuzzy_state(q, t, m).1 <= fuzzy_state(q, t, n).1,
    decreases n - m,
{
    if m < n {
        lemma_fuzzy_state_mono(q, t, m, (n - 1) as nat);
    }
}

/// Fuzzy-match `query` against `text` (the file palette's matcher). Returns a
/// relevance score if every `query` character appears in `text` in order
/// (case-insensitive over ASCII), else `None`. A match at a word boundary
/// (start of string, or just after `/ _ - .` or a space) scores 10 extra, and
/// each consecutive match 5 extra, on top of 1 per matched char. An empty
/// query matches everything with score 0; a space in the query matches any
/// separator.
pub fn fuzzy_score(query: &str, text: &str) -> (r: Option<i32>)
    requires
        fuzzy_state(query@, text@, text@.len()).1 <= i32::MAX,
    ensures
        r matches Some(s) ==> fuzzy(query@, text@) == Some(s as int),
        r is None ==> fuzzy(query@, text@) is None,
{
    let q = text::chars_of(query);
    if q.len() == 0 {
        return Some(0);
    }
    let t = text::chars_of(text);
    let mut qi: usize = 0;
    let mut score: i32 = 0;
    let mut prev_matched = false;
    let mut i: usize = 0;
    while i < t.len()
        invariant
            q@ == query@,
            t@ == text@,
            fuzzy_state(q@, t@, t@.len()).1 <= i32::MAX,
            i <= t.len(),
            fuzzy_state(q@, t@, i as nat) == (qi as nat, score as int, prev_matched),
        decreases t.len() - i,
    {
        proof {
            lemma_fuzzy_state_bounds(q@, t@, i as nat);
            lemma_fuzzy_state_mono(q@, t@, (i + 1) as nat, t@.len());
        }
        let tc = t[i];
        let hit = qi < q.len() && (ascii_lower_exec(tc) == ascii_lower_exec(q[qi]) || (q[qi]
            == ' ' && is_separator_exec(tc)));
        if hit {
            let boundary = i == 0 || is_separator_exec(t[i - 1]);
            score = score + 1;
            if boundary {
                score = score + 10;
            }
            if prev_matched {
                score = score + 5;
            }
            qi = qi + 1;
            prev_matched = true;
        } else {
            prev_matched = false;
        }
        i += 1;
    }
    if qi == q.len() {
        Some(score)
    } else {
        None
    }
}

/// A scored match has at least one point per query char (there are no
/// penalties), and the empty query matches everything with score 0.
pub proof fn lemma_fuzzy_score_floor(q: Seq<char>, t: Seq<char>)
    ensures
        q.len() == 0 ==> fuzzy(q, t) == Some(0int),
        fuzzy(q, t) matches Some(s) ==> s >= q.len(),
{
    if q.len() > 0 {
        lemma_fuzzy_state_bounds(q, t, t.len());
    }
}

/// `f` places each char of `q` on a char of `t` it hits, at strictly
/// increasing positions: `q` is a subsequence of `t` under [`hits`].
pub open spec fn embeds(f: Seq<int>, q: Seq<char>, t: Seq<char>) -> bool {
    &&& f.len() == q.len()
    &&& forall|k: int| 0 <= k < f.len() ==> 0 <= #[trigger] f[k] < t.len() && hits(q[k], t[f[k]])
    &&& forall|j: int, k: int| 0 <= j < k < f.len() ==> f[j] < f[k]
}

/// Where the scorer matched the query chars it has matched after `n` chars.
pub open spec fn greedy_positions(q: Seq<char>, t: Seq<char>, n: nat) -> Seq<int>
    decreases n,
{
    if n == 0 {
        Seq::empty()
    } else {
        let st = fuzzy_state(q, t, (n - 1) as nat);
        let prev = greedy_positions(q, t, (n - 1) as nat);
        if st.0 < q.len() && hits(q[st.0 as int], t[n - 1]) {
            prev.push(n - 1)
        } else {
            prev
        }
    }
}

proof fn lemma_greedy_positions(q: Seq<char>, t: Seq<char>, n: nat)
    requires
        n <= t.len(),
    ensures
        embeds(greedy_positions(q, t, n), q.take(fuzzy_state(q, t, n).0 as int), t),
        forall|k: int|
            0 <= k < greedy_positions(q, t, n).len() ==> #[trigger] greedy_positions(q, t, n)[k]
                < n,
    decreases n,
{
    if n > 0 {
        lemma_greedy_positions(q, t, (n - 1) as nat);
        lemma_fuzzy_state_bounds(q, t, (n - 1) as nat);
        let st = fuzzy_state(q, t, (n - 1) as nat);
        let prev = greedy_positions(q, t, (n - 1) as nat);
        if st.0 < q.len() && hits(q[st.0 as int], t[n - 1]) {
            let f = prev.push(n - 1);
            let qq = q.take(st.0 as int + 1);
            assert forall|k: int| 0 <= k < f.len() implies 0 <= #[trigger] f[k] < t.len() && hits(
                qq[k],
                t[f[k]],
            ) by {
                if k < prev.len() {
                    assert(f[k] == prev[k]);
                    assert(qq[k] == q.take(st.0 as int)[k]);
                }
            }
            assert forall|j: int, k: int| 0 <= j < k < f.len() implies f[j] < f[k] by {
                if k < prev.len() {
                    assert(f[j] == prev[j] && f[k] == prev[k]);
                } else {
                    assert(f[j] == prev[j]);
                }
            }
        }
    }
}

/// Past an embedding's `k`-th position the scorer has matched more than `k`
/// query chars: matching greedily never falls behind any embedding.
proof fn lemma_greedy_keeps_up(f: Seq<int>, q: Seq<char>, t: Seq<char>, k: int)
    requires
        embeds(f, q, t),
        0 <= k < f.len(),
    ensures
        fuzzy_state(q, t, (f[k] + 1) as nat).0 >= k + 1,
    decreases k,
{
    let p = f[k];
    if k > 0 {
        lemma_greedy_keeps_up(f, q, t, k - 1);
        lemma_fuzzy_state_mono(q, t, (f[k - 1] + 1) as nat, p as nat);
    }
    let st = fuzzy_state(q, t, p as nat);
    assert(st.0 >= k);
    if st.0 == k {
        assert(hits(q[k], t[p]));
    }
}

/// The scorer answers exactly when the query is a subsequence of the text:
/// `fuzzy_score` is `Some` iff every query char can be placed on a later
/// text char it hits (equal ignoring ASCII case, or a space on a separator).
pub proof fn lemma_fuzzy_is_subsequence(q: Seq<char>, t: Seq<char>)
    ensures
        fuzzy(q, t) is Some <==> exists|f: Seq<int>| embeds(f, q, t),
{
    lemma_fuzzy_state_bounds(q, t, t.len());
    if q.len() == 0 {
        assert(embeds(Seq::<int>::empty(), q, t));
    } else {
        if fuzzy(q, t) is Some {
            lemma_greedy_positions(q, t, t.len());
            assert(q.take(q.len() as int) =~= q);
            assert(embeds(greedy_positions(q, t, t.len()), q, t));
        }
        if exists|f: Seq<int>| embeds(f, q, t) {
            let f = choose|f: Seq<int>| embeds(f, q, t);
            let last = f.len() - 1;
            lemma_greedy_keeps_up(f, q, t, last);
            lemma_fuzzy_state_mono(q, t, (f[last] + 1) as nat, t.len());
        }
    }
}

/// The score of placing a query on the text positions `f`: one point per
/// matched char, 10 more when it starts a word (the text's first char, or
/// one after a separator), and 5 more when the text char just before it was
/// matched too (a run).
pub open spec fn placement_score(f: Seq<int>, t: Seq<char>) -> int
    decreases f.len(),
{
    if f.len() == 0 {
        0
    } else {
        let p = f.last();
        placement_score(f.drop_last(), t) + 1 + (if p == 0 || is_separator(t[p - 1]) {
            10int
        } else {
            0int
        }) + (if f.len() >= 2 && f[f.len() - 2] == p - 1 {
            5int
        } else {
            0int
        })
    }
}

proof fn lemma_state_is_placement(q: Seq<char>, t: Seq<char>, n: nat)
    requires
        n <= t.len(),
    ensures
        fuzzy_state(q, t, n).1 == placement_score(greedy_positions(q, t, n), t),
        fuzzy_state(q, t, n).2 == (greedy_positions(q, t, n).len() > 0 && greedy_positions(
            q,
            t,
            n,
        ).last() == n - 1),
    decreases n,
{
    if n > 0 {
        lemma_state_is_placement(q, t, (n - 1) as nat);
        lemma_greedy_positions(q, t, (n - 1) as nat);
        let st = fuzzy_state(q, t, (n - 1) as nat);
        let prev = greedy_positions(q, t, (n - 1) as nat);
        if st.0 < q.len() && hits(q[st.0 as int], t[n - 1]) {
            let f = prev.push(n - 1);
            assert(f.drop_last() =~= prev);
            assert(f.last() == n - 1);
            if prev.len() > 0 {
                assert(f[f.len() - 2] == prev.last());
            }
        } else {
            if prev.len() > 0 {
                assert(prev[prev.len() - 1] < n - 1);
            }
        }
    }
}

proof fn lemma_scattered_placement(f: Seq<int>, t: Seq<char>)
    requires
        forall|k: int|
            0 <= k < f.len() ==> #[trigger] f[k] > 0 && f[k] <= t.len() && !is_separator(t[f[k] - 1])
                && (k > 0 ==> f[k - 1] != f[k] - 1),
    ensures
        placement_score(f, t) == f.len(),
    decreases f.len(),
{
    if f.len() > 0 {
        let d = f.drop_last();
        assert forall|k: int| 0 <= k < d.len() implies #[trigger] d[k] > 0 && d[k] <= t.len()
            && !is_separator(t[d[k] - 1]) && (k > 0 ==> d[k - 1] != d[k] - 1) by {
            assert(d[k] == f[k]);
            if k > 0 {
                assert(d[k - 1] == f[k - 1]);
            }
        }
        lemma_scattered_placement(d, t);
        let last = f.len() - 1;
        assert(f[last] > 0);
        if f.len() >= 2 {
            assert(f[last - 1] != f[last] - 1);
        }
    }
}

/// How a score is made up: the scorer places the query on the text
/// greedily (each query char on the first text char after the previous one
/// that it hits), and the score is that placement's points: one per char, 10
/// more at a word start, 5 more for each char whose text neighbour on the
/// left was matched too. So a match whose chars are pairwise apart and none
/// at a word start scores exactly the query's length.
pub proof fn lemma_fuzzy_score_of_placement(q: Seq<char>, t: Seq<char>)
    ensures
        fuzzy(q, t) matches Some(s) ==> embeds(greedy_positions(q, t, t.len()), q, t) && s
            == placement_score(greedy_positions(q, t, t.len()), t),
        fuzzy(q, t) matches Some(s) ==> (forall|k: int|
            0 <= k < q.len() ==> #[trigger] greedy_positions(q, t, t.len())[k] > 0
                && !is_separator(t[greedy_positions(q, t, t.len())[k] - 1]) && (k > 0
                ==> greedy_positions(q, t, t.len())[k - 1] != greedy_positions(q, t, t.len())[k]
                - 1)) ==> s == q.len(),
{
    let f = greedy_positions(q, t, t.len());
    lemma_greedy_positions(q, t, t.len());
    lemma_fuzzy_state_bounds(q, t, t.len());
    lemma_state_is_placement(q, t, t.len());
    if q.len() == 0 {
        assert(f.len() == 0);
    }
    if fuzzy(q, t) is Some {
        let st = fuzzy_state(q, t, t.len());
        assert(q.take(st.0 as int) =~= q);
        if forall|k: int|
            0 <= k < q.len() ==> #[trigger] f[k] > 0 && !is_separator(t[f[k] - 1]) && (k > 0
                ==> f[k - 1] != f[k] - 1) {
            lemma_scattered_placement(f, t);
        }
    }
}

// ---------------------------------------------------------------------------
// Search folding
// ---------------------------------------------------------------------------

/// The first char of `char::to_lowercase(c)`: Unicode's lowercase mapping,
/// 1:1 for all of Latin.
pub uninterp spec fn lowercase_first(c: char) -> char;

/// The capitals of Latin-1: `A`..`Z` and `À`..`Þ` without `×`.
pub open spec fn latin1_capital(c: char) -> bool {
    let u = c as u32;
    ('A' <= c && c <= 'Z') || (0xc0 <= u && u <= 0xde && u != 0xd7)
}

/// Unicode's lowercase mapping on Latin-1: each capital is its small letter
/// `0x20` above; every other Latin-1 char maps to itself.
pub open spec fn latin1_lower(c: char) -> char {
    if latin1_capital(c) {
        ((c as u32) + 0x20) as char
    } else {
        c
    }
}

/// The first char of `c`'s lowercase expansion (`c` itself when it has none).
/// Claimed of `char::to_lowercase`: the result depends on `c` alone, on ASCII
/// it is `to_ascii_lowercase`, and on Latin-1 it is the mapping of the
/// Unicode tables (each capital `A`..`Z`, `À`..`Þ` but `×`, to the letter
/// `0x20` above it; all else to itself).
#[verifier::external_body]
fn to_lowercase_first(c: char) -> (r: char)
    ensures
        r == lowercase_first(c),
        (c as u32) < 0x80 ==> r == ascii_lower(c),
        (c as u32) < 0x100 ==> r == latin1_lower(c),
{
    c.to_lowercase().next().unwrap_or(c)
}

/// Map accented Latin letters to their base letter, both cases (the Latin-1
/// Supplement set). Ligatures (`œ`, `æ`) are left alone.
pub open spec fn base_letter(c: char) -> char {
    let u = c as u32;
    if 0xe0 <= u && u <= 0xe5 {
        'a'
    } else if u == 0xe7 {
        'c'
    } else if 0xe8 <= u && u <= 0xeb {
        'e'
    } else if 0xec <= u && u <= 0xef {
        'i'
    } else if u == 0xf1 {
        'n'
    } else if 0xf2 <= u && u <= 0xf6 {
        'o'
    } else if 0xf9 <= u && u <= 0xfc {
        'u'
    } else if u == 0xfd || u == 0xff {
        'y'
    } else if 0xc0 <= u && u <= 0xc5 {
        'A'
    } else if u == 0xc7 {
        'C'
    } else if 0xc8 <= u && u <= 0xcb {
        'E'
    } else if 0xcc <= u && u <= 0xcf {
        'I'
    } else if u == 0xd1 {
        'N'
    } else if 0xd2 <= u && u <= 0xd6 {
        'O'
    } else if 0xd9 <= u && u <= 0xdc {
        'U'
    } else if u == 0xdd {
        'Y'
    } else {
        c
    }
}

/// Map accented Latin letters to their base letter, both cases.
pub fn strip_diacritic(c: char) -> (r: char)
    ensures
        r == base_letter(c),
{
    let u = c as u32;
    if 0xe0 <= u && u <= 0xe5 {
        'a'
    } else if u == 0xe7 {
        'c'
    } else if 0xe8 <= u && u <= 0xeb {
        'e'
    } else if 0xec <= u && u <= 0xef {
        'i'
    } else if u == 0xf1 {
        'n'
    } else if 0xf2 <= u && u <= 0xf6 {
        'o'
    } else if 0xf9 <= u && u <= 0xfc {
        'u'
    } else if u == 0xfd || u == 0xff {
        'y'
    } else if 0xc0 <= u && u <= 0xc5 {
        'A'
    } else if u == 0xc7 {
        'C'
    } else if 0xc8 <= u && u <= 0xcb {
        'E'
    } else if 0xcc <= u && u <= 0xcf {
        'I'
    } else if u == 0xd1 {
        'N'
    } else if 0xd2 <= u && u <= 0xd6 {
        'O'
    } else if 0xd9 <= u && u <= 0xdc {
        'U'
    } else if u == 0xdd {
        'Y'
    } else {
        c
    }
}

/// A char's search identity: diacritics always stripped, case dropped only
/// when `ci` (the smartcase verdict).
pub open spec fn folded(c: char, ci: bool) -> char {
    base_letter(
        if ci {
            lowercase_first(c)
        } else {
            c
        },
    )
}

/// A char's search identity: diacritics are always stripped (`é` = `e`), and
/// case is dropped only when `ci`.
pub fn fold(c: char, ci: bool) -> (r: char)
    ensures
        r == folded(c, ci),
{
    let c = if ci {
        to_lowercase_first(c)
    } else {
        c
    };
    strip_diacritic(c)
}

/// Whether `s` begins with `pat` when both are folded.
pub open spec fn starts_folded(s: Seq<char>, pat: Seq<char>, ci: bool) -> bool {
    pat.len() <= s.len() && forall|k: int|
        0 <= k < pat.len() ==> folded(#[trigger] s[k], ci) == folded(pat[k], ci)
}

fn starts_folded_at(s: &[char], at: usize, pat: &[char], ci: bool) -> (r: bool)
    requires
        at <= s.len(),
    ensures
        r == starts_folded(s@.skip(at as int), pat@, ci),
{
    let ghost t = s@.skip(at as int);
    if pat.len() > s.len() - at {
        return false;
    }
    let mut k: usize = 0;
    while k < pat.len()
        invariant
            t == s@.skip(at as int),
            at <= s.len(),
            pat.len() <= s.len() - at,
            k <= pat.len(),
            forall|j: int| 0 <= j < k ==> folded(#[trigger] t[j], ci) == folded(pat@[j], ci),
        decreases pat.len() - k,
    {
        assert(t[k as int] == s@[at + k]);
        if fold(s[at + k], ci) != fold(pat[k], ci) {
            return false;
        }
        k += 1;
    }
    true
}

/// Whether `s` begins with `pat` under [`fold`].
pub fn starts_with_fold(s: &str, pat: &str, ci: bool) -> (r: bool)
    ensures
        r == starts_folded(s@, pat@, ci),
{
    let sv = text::chars_of(s);
    let pv = text::chars_of(pat);
    assert(sv@.skip(0) == sv@);
    starts_folded_at(&sv, 0, &pv, ci)
}

/// Char index of the first folded match of `pat` in `hay`: the first char
/// position (a position before some char, so never the very end) where
/// `hay` continues with `pat`.
pub open spec fn first_fold_match(hay: Seq<char>, pat: Seq<char>, ci: bool) -> Option<int> {
    if exists|i: int| 0 <= i < hay.len() && starts_folded(hay.skip(i), pat, ci) {
        Some(
            choose|i: int|
                0 <= i < hay.len() && starts_folded(hay.skip(i), pat, ci) && forall|j: int|
                    0 <= j < i ==> !starts_folded(#[trigger] hay.skip(j), pat, ci),
        )
    } else {
        None
    }
}

/// Char index of the last folded match of `pat` in `hay`.
pub open spec fn last_fold_match(hay: Seq<char>, pat: Seq<char>, ci: bool) -> Option<int> {
    if exists|i: int| 0 <= i < hay.len() && starts_folded(hay.skip(i), pat, ci) {
        Some(
            choose|i: int|
                0 <= i < hay.len() && starts_folded(hay.skip(i), pat, ci) && forall|j: int|
                    i < j < hay.len() ==> !starts_folded(#[trigger] hay.skip(j), pat, ci),
        )
    } else {
        None
    }
}

/// Byte offset of the first folded match of `pat` in `hay`, or `None`.
/// Compared char by char through [`fold`] at every char boundary, so the
/// offset is into the unfolded text.
pub fn find_fold(hay: &str, pat: &str, ci: bool) -> (r: Option<usize>)
    ensures
        r is Some <==> first_fold_match(hay@, pat@, ci) is Some,
        r matches Some(b) ==> b == text::utf8_len(
            hay@.take(first_fold_match(hay@, pat@, ci).unwrap()),
        ),
        first_fold_match(hay@, pat@, ci) matches Some(m) ==> 0 <= m < hay@.len(),
{
    let h = text::chars_of(hay);
    let p = text::chars_of(pat);
    let hay_bytes = text::str_byte_len(hay);
    assert(text::utf8_len(hay@) == hay_bytes);
    let mut i: usize = 0;
    while i < h.len()
        invariant
            h@ == hay@,
            p@ == pat@,
            text::utf8_len(hay@) <= usize::MAX,
            i <= h.len(),
            forall|j: int| 0 <= j < i ==> !starts_folded(#[trigger] h@.skip(j), pat@, ci),
        decreases h.len() - i,
    {
        if starts_folded_at(&h, i, &p, ci) {
            let ghost m = first_fold_match(hay@, pat@, ci);
            assert(m == Some(i as int));
            return Some(text::byte_offset(&h, i));
        }
        i += 1;
    }
    None
}

/// [`find_fold`], but the *last* match — the backward (`N`) direction.
pub fn rfind_fold(hay: &str, pat: &str, ci: bool) -> (r: Option<usize>)
    ensures
        r is Some <==> last_fold_match(hay@, pat@, ci) is Some,
        r matches Some(b) ==> b == text::utf8_len(
            hay@.take(last_fold_match(hay@, pat@, ci).unwrap()),
        ),
        last_fold_match(hay@, pat@, ci) matches Some(m) ==> 0 <= m < hay@.len(),
{
    let h = text::chars_of(hay);
    let p = text::chars_of(pat);
    let hay_bytes = text::str_byte_len(hay);
    assert(text::utf8_len(hay@) == hay_bytes);
    let mut i: usize = h.len();
    while i > 0
        invariant
            h@ == hay@,
            p@ == pat@,
            text::utf8_len(hay@) <= usize::MAX,
            i <= h.len(),
            forall|j: int| i <= j < h.len() ==> !starts_folded(#[trigger] h@.skip(j), pat@, ci),
        decreases i,
    {
        if starts_folded_at(&h, i - 1, &p, ci) {
            let ghost m = last_fold_match(hay@, pat@, ci);
            assert(m == Some(i - 1));
            return Some(text::byte_offset(&h, i - 1));
        }
        i -= 1;
    }
    None
}


/// `char::to_ascii_uppercase`.
pub open spec fn ascii_upper(c: char) -> char {
    if 'a' <= c && c <= 'z' {
        ((c as u32) - 32) as char
    } else {
        c
    }
}

/// A score is at least 1 and at most 16 per query char (1 for the match,
/// 10 at a word boundary, 5 when consecutive); an empty query scores 0.
pub proof fn lemma_fuzzy_score_bounds(q: Seq<char>, t: Seq<char>)
    ensures
        fuzzy(q, t) matches Some(sc) ==> q.len() <= sc <= 16 * q.len(),
{
    lemma_fuzzy_state_bounds(q, t, t.len());
}

proof fn lemma_upper_hits(q: char, t: char)
    ensures
        hits(ascii_upper(q), t) == hits(q, t),
{
    assert(ascii_lower(ascii_upper(q)) == ascii_lower(q)) by {
        if 'a' <= q && q <= 'z' {
            assert(((((q as u32) - 32) as char) as u32) == (q as u32) - 32);
        } else if 'A' <= q && q <= 'Z' {
        }
    }
}

proof fn lemma_upper_state(q: Seq<char>, t: Seq<char>, n: nat)
    requires
        n <= t.len(),
    ensures
        fuzzy_state(q.map_values(|c: char| ascii_upper(c)), t, n) == fuzzy_state(q, t, n),
    decreases n,
{
    if n > 0 {
        lemma_upper_state(q, t, (n - 1) as nat);
        let st = fuzzy_state(q, t, (n - 1) as nat);
        if st.0 < q.len() {
            lemma_upper_hits(q[st.0 as int], t[n - 1]);
        }
    }
}

/// Upper-casing the query (ASCII) changes no score: matching ignores ASCII
/// case.
pub proof fn lemma_fuzzy_ignores_query_case(q: Seq<char>, t: Seq<char>)
    ensures
        fuzzy(q.map_values(|c: char| ascii_upper(c)), t) == fuzzy(q, t),
{
    lemma_upper_state(q, t, t.len());
}

} // verus!
