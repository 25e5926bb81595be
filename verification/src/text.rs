//! Character-sequence helpers shared by every parser and formatter: the
//! mathematical model of the `str` operations the library leans on (trim,
//! prefix/suffix tests, first/last occurrence, line splitting, UTF-8 widths,
//! decimal rendering) together with executable versions proved against it.

use vstd::prelude::*;

verus! {

broadcast use vstd::string::group_string_axioms;

// ---------------------------------------------------------------------------
// Character classes
// ---------------------------------------------------------------------------

/// Unicode `White_Space`, the set `char::is_whitespace` (and so `str::trim`)
/// uses.
pub open spec fn is_ws(c: char) -> bool {
    let u = c as u32;
    ||| u == 0x20
    ||| (0x09 <= u && u <= 0x0d)
    ||| u == 0x85
    ||| u == 0xa0
    ||| u == 0x1680
    ||| (0x2000 <= u && u <= 0x200a)
    ||| u == 0x2028
    ||| u == 0x2029
    ||| u == 0x202f
    ||| u == 0x205f
    ||| u == 0x3000
}

/// `is_ws` as a predicate value, for the generic counting functions.
pub open spec fn ws_pred() -> spec_fn(char) -> bool {
    |c: char| is_ws(c)
}

/// The predicate "equals `x`".
pub open spec fn eq_pred(x: char) -> spec_fn(char) -> bool {
    |c: char| c == x
}

pub open spec fn is_digit(c: char) -> bool {
    '0' <= c && c <= '9'
}

pub fn char_is_ws(c: char) -> (r: bool)
    ensures
        r == is_ws(c),
{
    let u = c as u32;
    u == 0x20 || (0x09 <= u && u <= 0x0d) || u == 0x85 || u == 0xa0 || u == 0x1680 || (0x2000
        <= u && u <= 0x200a) || u == 0x2028 || u == 0x2029 || u == 0x202f || u == 0x205f || u
        == 0x3000
}

pub fn char_is_digit(c: char) -> (r: bool)
    ensures
        r == is_digit(c),
{
    '0' <= c && c <= '9'
}

// ---------------------------------------------------------------------------
// Leading / trailing runs
// ---------------------------------------------------------------------------

/// Length of the longest prefix of `s` whose chars all satisfy `p`.
pub open spec fn lead(s: Seq<char>, p: spec_fn(char) -> bool) -> nat
    decreases s.len(),
{
    if s.len() > 0 && p(s[0]) {
        1 + lead(s.drop_first(), p)
    } else {
        0
    }
}

/// Length of the longest suffix of `s` whose chars all satisfy `p`.
pub open spec fn trail(s: Seq<char>, p: spec_fn(char) -> bool) -> nat
    decreases s.len(),
{
    if s.len() > 0 && p(s.last()) {
        1 + trail(s.drop_last(), p)
    } else {
        0
    }
}

pub proof fn lemma_lead(s: Seq<char>, p: spec_fn(char) -> bool, i: int)
    requires
        0 <= i <= s.len(),
        forall|j: int| 0 <= j < i ==> #[trigger] p(s[j]),
        i == s.len() || !p(s[i]),
    ensures
        lead(s, p) == i,
    decreases i,
{
    if i > 0 {
        let t = s.drop_first();
        assert forall|j: int| 0 <= j < i - 1 implies #[trigger] p(t[j]) by {
            assert(t[j] == s[j + 1]);
        }
        if i - 1 < t.len() {
            assert(t[i - 1] == s[i]);
        }
        lemma_lead(t, p, i - 1);
    }
}

pub proof fn lemma_trail(s: Seq<char>, p: spec_fn(char) -> bool, i: int)
    requires
        0 <= i <= s.len(),
        forall|j: int| s.len() - i <= j < s.len() ==> #[trigger] p(s[j]),
        i == s.len() || !p(s[s.len() - 1 - i]),
    ensures
        trail(s, p) == i,
    decreases i,
{
    if i > 0 {
        let t = s.drop_last();
        assert(p(s[s.len() - 1]));
        assert forall|j: int| t.len() - (i - 1) <= j < t.len() implies #[trigger] p(t[j]) by {
            assert(t[j] == s[j]);
        }
        if i - 1 < t.len() {
            assert(t[t.len() - 1 - (i - 1)] == s[s.len() - 1 - i]);
        }
        lemma_trail(t, p, i - 1);
    }
}

pub proof fn lemma_lead_bounds(s: Seq<char>, p: spec_fn(char) -> bool)
    ensures
        lead(s, p) <= s.len(),
        forall|j: int| 0 <= j < lead(s, p) ==> #[trigger] p(s[j]),
        lead(s, p) < s.len() ==> !p(s[lead(s, p) as int]),
    decreases s.len(),
{
    if s.len() > 0 && p(s[0]) {
        let t = s.drop_first();
        lemma_lead_bounds(t, p);
        assert forall|j: int| 0 <= j < lead(s, p) implies #[trigger] p(s[j]) by {
            if j > 0 {
                assert(s[j] == t[j - 1]);
            }
        }
        if lead(s, p) < s.len() {
            assert(s[lead(s, p) as int] == t[lead(t, p) as int]);
        }
    }
}

pub proof fn lemma_trail_bounds(s: Seq<char>, p: spec_fn(char) -> bool)
    ensures
        trail(s, p) <= s.len(),
        forall|j: int| s.len() - trail(s, p) <= j < s.len() ==> #[trigger] p(s[j]),
        trail(s, p) < s.len() ==> !p(s[s.len() - 1 - trail(s, p)]),
    decreases s.len(),
{
    if s.len() > 0 && p(s.last()) {
        let t = s.drop_last();
        lemma_trail_bounds(t, p);
        assert forall|j: int| s.len() - trail(s, p) <= j < s.len() implies #[trigger] p(s[j]) by {
            if j < s.len() - 1 {
                assert(s[j] == t[j]);
            }
        }
        if trail(s, p) < s.len() {
            assert(s[s.len() - 1 - trail(s, p)] == t[t.len() - 1 - trail(t, p)]);
        }
    }
}

/// `str::trim_start`.
pub open spec fn trim_start(s: Seq<char>) -> Seq<char> {
    s.skip(lead(s, ws_pred()) as int)
}

/// `str::trim_end`.
pub open spec fn trim_end(s: Seq<char>) -> Seq<char> {
    s.take(s.len() - trail(s, ws_pred()))
}

/// `str::trim`.
pub open spec fn trim(s: Seq<char>) -> Seq<char> {
    trim_end(trim_start(s))
}

/// `str::trim_start_matches(x)` for a single char `x`.
pub open spec fn trim_start_char(s: Seq<char>, x: char) -> Seq<char> {
    s.skip(lead(s, eq_pred(x)) as int)
}

/// `str::trim_end_matches(x)` for a single char `x`.
pub open spec fn trim_end_char(s: Seq<char>, x: char) -> Seq<char> {
    s.take(s.len() - trail(s, eq_pred(x)))
}

/// Number of leading whitespace chars of `v`.
pub fn ws_lead(v: &[char]) -> (r: usize)
    ensures
        r == lead(v@, ws_pred()),
{
    let mut i: usize = 0;
    while i < v.len() && char_is_ws(v[i])
        invariant
            i <= v.len(),
            forall|j: int| 0 <= j < i ==> #[trigger] is_ws(v@[j]),
        decreases v.len() - i,
    {
        i += 1;
    }
    proof {
        assert forall|j: int| 0 <= j < i implies #[trigger] ws_pred()(v@[j]) by {
            assert(is_ws(v@[j]));
        }
        lemma_lead(v@, ws_pred(), i as int);
    }
    i
}

/// Number of trailing whitespace chars of `v`.
pub fn ws_trail(v: &[char]) -> (r: usize)
    ensures
        r == trail(v@, ws_pred()),
{
    let mut i: usize = 0;
    while i < v.len() && char_is_ws(v[v.len() - 1 - i])
        invariant
            i <= v.len(),
            forall|j: int| v.len() - i <= j < v.len() ==> #[trigger] is_ws(v@[j]),
        decreases v.len() - i,
    {
        i += 1;
    }
    proof {
        assert forall|j: int| v.len() - i <= j < v.len() implies #[trigger] ws_pred()(v@[j]) by {
            assert(is_ws(v@[j]));
        }
        lemma_trail(v@, ws_pred(), i as int);
    }
    i
}

/// Number of leading `x` chars of `v`.
pub fn char_lead(v: &[char], x: char) -> (r: usize)
    ensures
        r == lead(v@, eq_pred(x)),
{
    let mut i: usize = 0;
    while i < v.len() && v[i] == x
        invariant
            i <= v.len(),
            forall|j: int| 0 <= j < i ==> #[trigger] v@[j] == x,
        decreases v.len() - i,
    {
        i += 1;
    }
    proof {
        assert forall|j: int| 0 <= j < i implies #[trigger] eq_pred(x)(v@[j]) by {
            assert(v@[j] == x);
        }
        lemma_lead(v@, eq_pred(x), i as int);
    }
    i
}

/// Number of leading ASCII digits of `v`.
pub fn char_lead_pred_digits(v: &[char]) -> (r: usize)
    ensures
        r == lead(v@, |c: char| is_digit(c)),
{
    let mut i: usize = 0;
    while i < v.len() && char_is_digit(v[i])
        invariant
            i <= v.len(),
            forall|j: int| 0 <= j < i ==> #[trigger] is_digit(v@[j]),
        decreases v.len() - i,
    {
        i += 1;
    }
    proof {
        let p = |c: char| is_digit(c);
        assert forall|j: int| 0 <= j < i implies #[trigger] p(v@[j]) by {
            assert(is_digit(v@[j]));
        }
        lemma_lead(v@, p, i as int);
    }
    i
}

/// Number of trailing `x` chars of `v`.
pub fn char_trail(v: &[char], x: char) -> (r: usize)
    ensures
        r == trail(v@, eq_pred(x)),
{
    let mut i: usize = 0;
    while i < v.len() && v[v.len() - 1 - i] == x
        invariant
            i <= v.len(),
            forall|j: int| v.len() - i <= j < v.len() ==> #[trigger] v@[j] == x,
        decreases v.len() - i,
    {
        i += 1;
    }
    proof {
        assert forall|j: int| v.len() - i <= j < v.len() implies #[trigger] eq_pred(x)(v@[j]) by {
            assert(v@[j] == x);
        }
        lemma_trail(v@, eq_pred(x), i as int);
    }
    i
}

/// `str::trim_start` on a char sequence.
pub fn trim_start_exec(v: &[char]) -> (r: Vec<char>)
    ensures
        r@ == trim_start(v@),
{
    let a = ws_lead(v);
    proof {
        lemma_lead_bounds(v@, ws_pred());
    }
    slice_of(v, a, v.len())
}

/// `str::trim_end` on a char sequence.
pub fn trim_end_exec(v: &[char]) -> (r: Vec<char>)
    ensures
        r@ == trim_end(v@),
{
    let t = ws_trail(v);
    proof {
        lemma_trail_bounds(v@, ws_pred());
    }
    slice_of(v, 0, v.len() - t)
}

/// `str::trim` on a char sequence.
pub fn trim_exec(v: &[char]) -> (r: Vec<char>)
    ensures
        r@ == trim(v@),
{
    let w = trim_start_exec(v);
    trim_end_exec(&w)
}

/// `str::trim_start_matches(x)` on a char sequence.
pub fn trim_start_char_exec(v: &[char], x: char) -> (r: Vec<char>)
    ensures
        r@ == trim_start_char(v@, x),
{
    let a = char_lead(v, x);
    proof {
        lemma_lead_bounds(v@, eq_pred(x));
    }
    slice_of(v, a, v.len())
}

/// `str::trim_end_matches(x)` on a char sequence.
pub fn trim_end_char_exec(v: &[char], x: char) -> (r: Vec<char>)
    ensures
        r@ == trim_end_char(v@, x),
{
    let t = char_trail(v, x);
    proof {
        lemma_trail_bounds(v@, eq_pred(x));
    }
    slice_of(v, 0, v.len() - t)
}

// ---------------------------------------------------------------------------
// Copies, slices, concatenation
// ---------------------------------------------------------------------------

/// The chars of `s`, in order.
pub fn chars_of(s: &str) -> (v: Vec<char>)
    ensures
        v@ == s@,
{
    let mut v: Vec<char> = Vec::new();
    for c in it: s.chars()
        invariant
            v@ == it.seq().take(it.index() as int),
    {
        v.push(c);
    }
    v
}

/// `v[a..b]` as a fresh vector.
pub fn slice_of(v: &[char], a: usize, b: usize) -> (r: Vec<char>)
    requires
        a <= b <= v.len(),
    ensures
        r@ == v@.subrange(a as int, b as int),
{
    let mut r: Vec<char> = Vec::new();
    let mut i = a;
    while i < b
        invariant
            a <= i <= b <= v.len(),
            r@ == v@.subrange(a as int, i as int),
        decreases b - i,
    {
        r.push(v[i]);
        i += 1;
    }
    r
}

/// Append all of `w` to `v`.
pub fn extend(v: &mut Vec<char>, w: &[char])
    ensures
        final(v)@ == old(v)@ + w@,
{
    let mut i: usize = 0;
    let ghost v0 = v@;
    while i < w.len()
        invariant
            i <= w.len(),
            v@ == v0 + w@.take(i as int),
        decreases w.len() - i,
    {
        v.push(w[i]);
        i += 1;
        assert(w@.take(i as int) == w@.take((i - 1) as int).push(w@[i - 1]));
    }
    assert(w@.take(w.len() as int) == w@);
}

/// Append the chars of `s` to `v`.
pub fn extend_str(v: &mut Vec<char>, s: &str)
    ensures
        final(v)@ == old(v)@ + s@,
{
    let w = chars_of(s);
    extend(v, &w);
}

/// `n` copies of `c`.
pub open spec fn repeat_char(c: char, n: nat) -> Seq<char> {
    Seq::new(n, |i: int| c)
}

pub fn push_repeat(v: &mut Vec<char>, c: char, n: usize)
    ensures
        final(v)@ == old(v)@ + repeat_char(c, n as nat),
{
    let ghost v0 = v@;
    let mut i: usize = 0;
    while i < n
        invariant
            i <= n,
            v@ == v0 + repeat_char(c, i as nat),
        decreases n - i,
    {
        v.push(c);
        i += 1;
        assert(repeat_char(c, i as nat) == repeat_char(c, (i - 1) as nat).push(c));
    }
}

#[verifier::external_body]
fn push_char(s: &mut String, c: char)
    ensures
        final(s)@ == old(s)@.push(c),
{
    s.push(c);
}

/// A `String` holding exactly `v`.
pub fn string_of(v: &[char]) -> (s: String)
    ensures
        s@ == v@,
{
    let mut s = String::new();
    let mut i: usize = 0;
    while i < v.len()
        invariant
            i <= v.len(),
            s@ == v@.take(i as int),
        decreases v.len() - i,
    {
        push_char(&mut s, v[i]);
        i += 1;
        assert(v@.take(i as int) == v@.take((i - 1) as int).push(v@[i - 1]));
    }
    assert(v@.take(v.len() as int) == v@);
    s
}

/// Element-wise equality of two char slices.
pub fn chars_eq(a: &[char], b: &[char]) -> (r: bool)
    ensures
        r == (a@ == b@),
{
    if a.len() != b.len() {
        return false;
    }
    let mut i: usize = 0;
    while i < a.len()
        invariant
            a.len() == b.len(),
            i <= a.len(),
            forall|j: int| 0 <= j < i ==> a@[j] == b@[j],
        decreases a.len() - i,
    {
        if a[i] != b[i] {
            return false;
        }
        i += 1;
    }
    assert(a@ =~= b@);
    true
}

/// Whether `v` equals the chars of `s`.
pub fn chars_eq_str(v: &[char], s: &str) -> (r: bool)
    ensures
        r == (v@ == s@),
{
    let w = chars_of(s);
    chars_eq(v, &w)
}

// ---------------------------------------------------------------------------
// Prefixes, suffixes, occurrences
// ---------------------------------------------------------------------------

pub open spec fn starts_with(s: Seq<char>, p: Seq<char>) -> bool {
    p.len() <= s.len() && s.take(p.len() as int) == p
}

pub open spec fn ends_with(s: Seq<char>, p: Seq<char>) -> bool {
    p.len() <= s.len() && s.skip(s.len() - p.len()) == p
}

pub proof fn lemma_starts_with_one(s: Seq<char>, c: char)
    ensures
        starts_with(s, seq![c]) <==> (s.len() > 0 && s[0] == c),
{
    if s.len() > 0 {
        if s[0] == c {
            assert(s.take(1) =~= seq![c]);
        }
        if s.take(1) == seq![c] {
            assert(s.take(1)[0] == c);
        }
    }
}

/// Whether `p` occurs in `s` at index `i`.
pub open spec fn occurs_at(s: Seq<char>, p: Seq<char>, i: int) -> bool {
    0 <= i && i + p.len() <= s.len() && s.subrange(i, i + p.len()) == p
}

/// `str::contains` for a pattern string.
pub open spec fn contains_seq(s: Seq<char>, p: Seq<char>) -> bool {
    exists|i: int| occurs_at(s, p, i)
}

pub fn starts_with_at(v: &[char], at: usize, p: &[char]) -> (r: bool)
    requires
        at <= v.len(),
    ensures
        r == starts_with(v@.skip(at as int), p@),
        r == occurs_at(v@, p@, at as int),
{
    if p.len() > v.len() - at {
        return false;
    }
    let mut i: usize = 0;
    while i < p.len()
        invariant
            p.len() <= v.len() - at,
            i <= p.len(),
            forall|j: int| 0 <= j < i ==> v@[at + j] == p@[j],
        decreases p.len() - i,
    {
        if v[at + i] != p[i] {
            assert(v@.skip(at as int).take(p.len() as int)[i as int] != p@[i as int]);
            assert(v@.subrange(at as int, at + p.len())[i as int] != p@[i as int]);
            return false;
        }
        i += 1;
    }
    assert(v@.skip(at as int).take(p.len() as int) =~= p@);
    assert(v@.subrange(at as int, at + p.len()) =~= p@);
    true
}

pub fn starts_with_str(v: &[char], p: &str) -> (r: bool)
    ensures
        r == starts_with(v@, p@),
{
    let w = chars_of(p);
    let r = starts_with_at(v, 0, &w);
    assert(v@.skip(0) == v@);
    r
}

pub fn ends_with_str(v: &[char], p: &str) -> (r: bool)
    ensures
        r == ends_with(v@, p@),
{
    let w = chars_of(p);
    if w.len() > v.len() {
        return false;
    }
    let at = v.len() - w.len();
    let r = starts_with_at(v, at, &w);
    assert(v@.skip(at as int).take(w.len() as int) == v@.skip(at as int));
    r
}

/// Whether `p` occurs anywhere in `v`.
pub fn contains_at_any(v: &[char], p: &[char]) -> (r: bool)
    ensures
        r == contains_seq(v@, p@),
{
    let mut i: usize = 0;
    loop
        invariant
            i <= v.len(),
            forall|j: int| 0 <= j < i ==> !occurs_at(v@, p@, j),
        ensures
            forall|j: int| 0 <= j <= v.len() ==> !occurs_at(v@, p@, j),
        decreases v.len() - i,
    {
        if starts_with_at(v, i, p) {
            return true;
        }
        if i == v.len() {
            break;
        }
        i += 1;
    }
    assert forall|j: int| !occurs_at(v@, p@, j) by {
        if 0 <= j && j + p@.len() <= v@.len() {
            assert(j <= v.len());
        }
    }
    false
}

pub fn contains_str(v: &[char], p: &str) -> (r: bool)
    ensures
        r == contains_seq(v@, p@),
{
    let w = chars_of(p);
    contains_at_any(v, &w)
}

/// Index of the first `c` in `s`.
pub open spec fn find(s: Seq<char>, c: char) -> Option<nat>
    decreases s.len(),
{
    if s.len() == 0 {
        None
    } else if s[0] == c {
        Some(0)
    } else {
        match find(s.drop_first(), c) {
            Some(i) => Some(i + 1),
            None => None,
        }
    }
}

/// Index of the last `c` in `s`.
pub open spec fn rfind(s: Seq<char>, c: char) -> Option<nat>
    decreases s.len(),
{
    if s.len() == 0 {
        None
    } else if s.last() == c {
        Some((s.len() - 1) as nat)
    } else {
        rfind(s.drop_last(), c)
    }
}

pub proof fn lemma_find(s: Seq<char>, c: char)
    ensures
        match find(s, c) {
            Some(i) => i < s.len() && s[i as int] == c && forall|j: int|
                0 <= j < i ==> s[j] != c,
            None => forall|j: int| 0 <= j < s.len() ==> s[j] != c,
        },
    decreases s.len(),
{
    if s.len() > 0 && s[0] != c {
        let t = s.drop_first();
        lemma_find(t, c);
        match find(t, c) {
            Some(i) => {
                assert forall|j: int| 0 <= j < i + 1 implies s[j] != c by {
                    if j > 0 {
                        assert(s[j] == t[j - 1]);
                    }
                }
            },
            None => {
                assert forall|j: int| 0 <= j < s.len() implies s[j] != c by {
                    if j > 0 {
                        assert(s[j] == t[j - 1]);
                    }
                }
            },
        }
    }
}

pub proof fn lemma_find_unique(s: Seq<char>, c: char, i: int)
    requires
        0 <= i < s.len(),
        s[i] == c,
        forall|j: int| 0 <= j < i ==> s[j] != c,
    ensures
        find(s, c) == Some(i as nat),
{
    lemma_find(s, c);
    match find(s, c) {
        Some(k) => {
            if k < i {
                assert(s[k as int] != c);
            }
            if k > i {
                assert(s[i] != c);
            }
        },
        None => {
            assert(s[i] != c);
        },
    }
}

pub proof fn lemma_find_none(s: Seq<char>, c: char)
    requires
        forall|j: int| 0 <= j < s.len() ==> s[j] != c,
    ensures
        find(s, c) == None::<nat>,
{
    lemma_find(s, c);
    if let Some(k) = find(s, c) {
        assert(s[k as int] == c);
    }
}

pub proof fn lemma_rfind(s: Seq<char>, c: char)
    ensures
        match rfind(s, c) {
            Some(i) => i < s.len() && s[i as int] == c && forall|j: int|
                i < j < s.len() ==> s[j] != c,
            None => forall|j: int| 0 <= j < s.len() ==> s[j] != c,
        },
    decreases s.len(),
{
    if s.len() > 0 && s.last() != c {
        let t = s.drop_last();
        lemma_rfind(t, c);
        match rfind(t, c) {
            Some(i) => {
                assert forall|j: int| i < j < s.len() implies s[j] != c by {
                    if j < s.len() - 1 {
                        assert(s[j] == t[j]);
                    }
                }
            },
            None => {
                assert forall|j: int| 0 <= j < s.len() implies s[j] != c by {
                    if j < s.len() - 1 {
                        assert(s[j] == t[j]);
                    }
                }
            },
        }
    }
}

pub proof fn lemma_rfind_unique(s: Seq<char>, c: char, i: int)
    requires
        0 <= i < s.len(),
        s[i] == c,
        forall|j: int| i < j < s.len() ==> s[j] != c,
    ensures
        rfind(s, c) == Some(i as nat),
{
    lemma_rfind(s, c);
    match rfind(s, c) {
        Some(k) => {
            if k < i {
                assert(s[i] != c);
            }
            if k > i {
                assert(s[k as int] != c);
            }
        },
        None => {
            assert(s[i] != c);
        },
    }
}

pub proof fn lemma_rfind_none(s: Seq<char>, c: char)
    requires
        forall|j: int| 0 <= j < s.len() ==> s[j] != c,
    ensures
        rfind(s, c) == None::<nat>,
{
    lemma_rfind(s, c);
    if let Some(k) = rfind(s, c) {
        assert(s[k as int] == c);
    }
}

/// First index of `c` in `v`.
pub fn find_char(v: &[char], c: char) -> (r: Option<usize>)
    ensures
        r matches Some(i) ==> find(v@, c) == Some(i as nat),
        r is None ==> find(v@, c) == None::<nat>,
{
    let mut i: usize = 0;
    while i < v.len()
        invariant
            i <= v.len(),
            forall|j: int| 0 <= j < i ==> v@[j] != c,
        decreases v.len() - i,
    {
        if v[i] == c {
            proof {
                lemma_find_unique(v@, c, i as int);
            }
            return Some(i);
        }
        i += 1;
    }
    proof {
        lemma_find_none(v@, c);
    }
    None
}

/// Last index of `c` in `v`.
pub fn rfind_char(v: &[char], c: char) -> (r: Option<usize>)
    ensures
        r matches Some(i) ==> rfind(v@, c) == Some(i as nat),
        r is None ==> rfind(v@, c) == None::<nat>,
{
    let mut i: usize = v.len();
    while i > 0
        invariant
            i <= v.len(),
            forall|j: int| i <= j < v.len() ==> v@[j] != c,
        decreases i,
    {
        if v[i - 1] == c {
            proof {
                lemma_rfind_unique(v@, c, i - 1);
            }
            return Some(i - 1);
        }
        i -= 1;
    }
    proof {
        lemma_rfind_none(v@, c);
    }
    None
}

/// The part of `s` before the first `c` (all of `s` when there is none).
pub open spec fn before(s: Seq<char>, c: char) -> Seq<char> {
    match find(s, c) {
        Some(i) => s.take(i as int),
        None => s,
    }
}

/// The part of `s` after the first `c` (empty when there is none).
pub open spec fn after(s: Seq<char>, c: char) -> Seq<char> {
    match find(s, c) {
        Some(i) => s.skip(i as int + 1),
        None => Seq::empty(),
    }
}

/// `str::split_once(c)`: the parts around the first `c`.
pub fn split_once_exec(v: &[char], c: char) -> (r: Option<(Vec<char>, Vec<char>)>)
    ensures
        r is Some <==> find(v@, c) is Some,
        r matches Some((a, b)) ==> a@ == before(v@, c) && b@ == after(v@, c),
{
    proof {
        lemma_find(v@, c);
    }
    match find_char(v, c) {
        Some(i) => {
            assert(i < v.len());
            let a = slice_of(v, 0, i);
            let b = slice_of(v, i + 1, v.len());
            Some((a, b))
        },
        None => None,
    }
}

/// The part of `v` before the first `c`.
pub fn before_exec(v: &[char], c: char) -> (r: Vec<char>)
    ensures
        r@ == before(v@, c),
{
    proof {
        lemma_find(v@, c);
    }
    match find_char(v, c) {
        Some(i) => slice_of(v, 0, i),
        None => slice_of(v, 0, v.len()),
    }
}

pub fn contains_char(v: &[char], c: char) -> (r: bool)
    ensures
        r == v@.contains(c),
        r == (find(v@, c) is Some),
{
    proof {
        lemma_find(v@, c);
    }
    match find_char(v, c) {
        Some(i) => {
            assert(v@[i as int] == c);
            true
        },
        None => false,
    }
}

// ---------------------------------------------------------------------------
// Lines
// ---------------------------------------------------------------------------

/// A line with one trailing `\r` removed.
pub open spec fn strip_cr(l: Seq<char>) -> Seq<char> {
    if l.len() > 0 && l.last() == '\r' {
        l.drop_last()
    } else {
        l
    }
}

/// `str::lines`: split after each `\n` (a final one opens no extra line),
/// dropping the `\n` and a `\r` right before it.
pub open spec fn lines_of(s: Seq<char>) -> Seq<Seq<char>>
    decreases s.len(),
{
    if s.len() == 0 {
        Seq::empty()
    } else {
        match find(s, '\n') {
            None => seq![s],
            Some(i) => {
                proof {
                    lemma_find(s, '\n');
                }
                seq![strip_cr(s.take(i as int))] + lines_of(s.skip(i as int + 1))
            },
        }
    }
}

pub proof fn lemma_lines_of_cons(a: Seq<char>, b: Seq<char>)
    requires
        !a.contains('\n'),
    ensures
        lines_of(a + seq!['\n'] + b) == seq![strip_cr(a)] + lines_of(b),
{
    let s = a + seq!['\n'] + b;
    assert(s[a.len() as int] == '\n');
    assert forall|j: int| 0 <= j < a.len() implies s[j] != '\n' by {
        assert(s[j] == a[j]);
    }
    lemma_find_unique(s, '\n', a.len() as int);
    assert(s.take(a.len() as int) == a);
    assert(s.skip(a.len() as int + 1) == b);
}

/// The char sequences held by a vector of char vectors.
pub open spec fn views(v: Seq<Vec<char>>) -> Seq<Seq<char>> {
    Seq::new(v.len(), |i: int| v[i]@)
}

/// The char sequences held by a vector of strings.
pub open spec fn strings(v: Seq<String>) -> Seq<Seq<char>> {
    Seq::new(v.len(), |i: int| v[i]@)
}

/// `ls` written one per line, each terminated by `\n`.
pub open spec fn joined(ls: Seq<Seq<char>>) -> Seq<char>
    decreases ls.len(),
{
    if ls.len() == 0 {
        Seq::empty()
    } else {
        ls[0] + seq!['\n'] + joined(ls.drop_first())
    }
}

pub proof fn lemma_joined_push(ls: Seq<Seq<char>>, l: Seq<char>)
    ensures
        joined(ls.push(l)) == joined(ls) + l + seq!['\n'],
    decreases ls.len(),
{
    if ls.len() == 0 {
        assert(ls.push(l).drop_first() == Seq::<Seq<char>>::empty());
        assert(joined(Seq::<Seq<char>>::empty()) == Seq::<char>::empty());
        assert(ls.push(l)[0] == l);
        assert(joined(ls) == Seq::<char>::empty());
        assert(joined(ls.push(l)) =~= l + seq!['\n']);
    } else {
        lemma_joined_push(ls.drop_first(), l);
        assert(ls.push(l).drop_first() == ls.drop_first().push(l));
        assert(ls.push(l)[0] == ls[0]);
        assert(joined(ls.push(l)) =~= joined(ls) + l + seq!['\n']);
    }
}

/// A line with no line break and no trailing `\r` reads back unchanged.
pub open spec fn plain_line(l: Seq<char>) -> bool {
    !l.contains('\n') && !(l.len() > 0 && l.last() == '\r')
}

/// Splitting `\n`-terminated plain lines gives them back.
pub proof fn lemma_lines_of_joined(ls: Seq<Seq<char>>)
    requires
        forall|i: int| 0 <= i < ls.len() ==> plain_line(#[trigger] ls[i]),
    ensures
        lines_of(joined(ls)) == ls,
    decreases ls.len(),
{
    if ls.len() > 0 {
        let t = ls.drop_first();
        assert forall|i: int| 0 <= i < t.len() implies plain_line(#[trigger] t[i]) by {
            assert(t[i] == ls[i + 1]);
        }
        lemma_lines_of_joined(t);
        assert(plain_line(ls[0]));
        lemma_lines_of_cons(ls[0], joined(t));
        assert(strip_cr(ls[0]) == ls[0]);
        assert(seq![ls[0]] + t =~= ls);
    }
}

/// The lines of `v`, as `str::lines` splits them.
pub fn lines_exec(v: &[char]) -> (r: Vec<Vec<char>>)
    ensures
        views(r@) == lines_of(v@),
{
    let mut r: Vec<Vec<char>> = Vec::new();
    let mut start: usize = 0;
    assert(v@.skip(0) == v@);
    assert(views(r@) + lines_of(v@) =~= lines_of(v@));
    while start < v.len()
        invariant
            start <= v.len(),
            lines_of(v@) == views(r@) + lines_of(v@.skip(start as int)),
        decreases v.len() - start,
    {
        let rest = slice_of(v, start, v.len());
        assert(rest@ == v@.skip(start as int));
        proof {
            lemma_find(rest@, '\n');
        }
        match find_char(&rest, '\n') {
            None => {
                let ghost old_r = views(r@);
                r.push(rest);
                assert(views(r@) =~= old_r.push(rest@));
                assert(lines_of(rest@) == seq![rest@]);
                assert(v@.skip(v.len() as int) == Seq::<char>::empty());
                start = v.len();
                assert(lines_of(v@.skip(start as int)) == Seq::<Seq<char>>::empty());
                assert(lines_of(v@) == views(r@) + lines_of(v@.skip(start as int)));
            },
            Some(i) => {
                let mut line = slice_of(&rest, 0, i);
                if line.len() > 0 && line[line.len() - 1] == '\r' {
                    line.pop();
                }
                assert(line@ == strip_cr(rest@.take(i as int)));
                let ghost old_r = views(r@);
                r.push(line);
                assert(views(r@) =~= old_r.push(line@));
                assert(rest@.skip(i + 1) == v@.skip(start + i + 1));
                start = start + i + 1;
                assert(lines_of(v@) == views(r@) + lines_of(v@.skip(start as int)));
            },
        }
    }
    assert(v@.skip(start as int) == Seq::<char>::empty());
    assert(views(r@) + Seq::<Seq<char>>::empty() == views(r@));
    r
}

// ---------------------------------------------------------------------------
// Splitting on a separator, joining with one
// ---------------------------------------------------------------------------

/// `str::split(c)`: the pieces between occurrences of `c`, empty ones
/// included; always at least one piece.
pub open spec fn split(s: Seq<char>, c: char) -> Seq<Seq<char>>
    decreases s.len(),
{
    match find(s, c) {
        None => seq![s],
        Some(i) => {
            proof {
                lemma_find(s, c);
            }
            seq![s.take(i as int)] + split(s.skip(i as int + 1), c)
        },
    }
}

/// `ls` joined with `sep` between consecutive pieces (`[T]::join`).
pub open spec fn join_sep(ls: Seq<Seq<char>>, sep: Seq<char>) -> Seq<char>
    decreases ls.len(),
{
    if ls.len() == 0 {
        Seq::empty()
    } else if ls.len() == 1 {
        ls[0]
    } else {
        join_sep(ls.drop_last(), sep) + sep + ls.last()
    }
}

/// Splitting at a first piece free of `c`.
pub proof fn lemma_split_cons(a: Seq<char>, c: char, b: Seq<char>)
    requires
        !a.contains(c),
    ensures
        split(a + seq![c] + b, c) == seq![a] + split(b, c),
{
    let s = a + seq![c] + b;
    assert(s[a.len() as int] == c);
    assert forall|j: int| 0 <= j < a.len() implies s[j] != c by {
        assert(s[j] == a[j]);
        if s[j] == c {
            assert(a.contains(c));
        }
    }
    lemma_find_unique(s, c, a.len() as int);
    assert(s.take(a.len() as int) == a);
    assert(s.skip(a.len() as int + 1) == b);
}

/// A piece free of `c` splits to itself.
pub proof fn lemma_split_single(a: Seq<char>, c: char)
    requires
        !a.contains(c),
    ensures
        split(a, c) == seq![a],
{
    assert forall|j: int| 0 <= j < a.len() implies a[j] != c by {
        if a[j] == c {
            assert(a.contains(c));
        }
    }
    lemma_find_none(a, c);
}

/// Joining from the front.
pub proof fn lemma_join_sep_front(ls: Seq<Seq<char>>, sep: Seq<char>)
    requires
        ls.len() >= 2,
    ensures
        join_sep(ls, sep) == ls[0] + sep + join_sep(ls.drop_first(), sep),
    decreases ls.len(),
{
    if ls.len() == 2 {
        assert(ls.drop_last().len() == 1);
        assert(ls.drop_first().len() == 1);
        assert(ls.drop_first()[0] == ls.last());
        assert(join_sep(ls.drop_last(), sep) == ls[0]);
        assert(join_sep(ls.drop_first(), sep) == ls.last());
    } else {
        let d = ls.drop_last();
        lemma_join_sep_front(d, sep);
        assert(d.drop_first() == ls.drop_first().drop_last());
        assert(ls.drop_first().last() == ls.last());
        assert(d[0] == ls[0]);
    }
}

/// Pieces free of `sep` split back out of their join.
pub proof fn lemma_split_join(ls: Seq<Seq<char>>, c: char)
    requires
        ls.len() >= 1,
        forall|i: int| 0 <= i < ls.len() ==> !(#[trigger] ls[i]).contains(c),
    ensures
        split(join_sep(ls, seq![c]), c) == ls,
    decreases ls.len(),
{
    if ls.len() == 1 {
        assert(!ls[0].contains(c));
        lemma_split_single(ls[0], c);
        assert(seq![ls[0]] =~= ls);
    } else {
        let t = ls.drop_first();
        assert forall|i: int| 0 <= i < t.len() implies !(#[trigger] t[i]).contains(c) by {
            assert(t[i] == ls[i + 1]);
        }
        lemma_split_join(t, c);
        lemma_join_sep_front(ls, seq![c]);
        assert(!ls[0].contains(c));
        lemma_split_cons(ls[0], c, join_sep(t, seq![c]));
        assert(seq![ls[0]] + t =~= ls);
    }
}

/// The pieces of `v` between occurrences of `c`.
pub fn split_exec(v: &[char], c: char) -> (r: Vec<Vec<char>>)
    ensures
        views(r@) == split(v@, c),
{
    let mut r: Vec<Vec<char>> = Vec::new();
    let mut start: usize = 0;
    assert(v@.skip(0) == v@);
    assert(views(r@) + split(v@, c) =~= split(v@, c));
    loop
        invariant
            start <= v.len(),
            split(v@, c) == views(r@) + split(v@.skip(start as int), c),
        decreases v.len() - start,
    {
        let rest = slice_of(v, start, v.len());
        assert(rest@ == v@.skip(start as int));
        proof {
            lemma_find(rest@, c);
        }
        match find_char(&rest, c) {
            None => {
                let ghost old_r = views(r@);
                r.push(rest);
                assert(views(r@) =~= old_r.push(rest@));
                assert(split(rest@, c) == seq![rest@]);
                assert(split(v@, c) =~= views(r@));
                return r;
            },
            Some(i) => {
                let piece = slice_of(&rest, 0, i);
                let ghost old_r = views(r@);
                r.push(piece);
                assert(views(r@) =~= old_r.push(piece@));
                assert(rest@.skip(i + 1) == v@.skip(start + i + 1));
                assert(split(rest@, c) == seq![piece@] + split(rest@.skip(i + 1), c));
                start = start + i + 1;
                assert(split(v@, c) =~= views(r@) + split(v@.skip(start as int), c));
            },
        }
    }
}

/// `ls` joined with `sep` between consecutive pieces.
pub fn join_exec(ls: &Vec<Vec<char>>, sep: &[char]) -> (r: Vec<char>)
    ensures
        r@ == join_sep(views(ls@), sep@),
{
    let mut r: Vec<char> = Vec::new();
    let mut i: usize = 0;
    while i < ls.len()
        invariant
            i <= ls.len(),
            r@ == join_sep(views(ls@).take(i as int), sep@),
        decreases ls.len() - i,
    {
        let ghost pre = views(ls@).take(i as int);
        if i > 0 {
            extend(&mut r, sep);
        }
        extend(&mut r, ls[i].as_slice());
        i += 1;
        proof {
            let cur = views(ls@).take(i as int);
            assert(cur.drop_last() =~= pre);
            assert(cur.last() == ls@[i - 1]@);
            if i == 1 {
                assert(cur.len() == 1);
            }
        }
    }
    assert(views(ls@).take(ls.len() as int) =~= views(ls@));
    r
}

// ---------------------------------------------------------------------------
// UTF-8 widths
// ---------------------------------------------------------------------------

/// Bytes `c` takes in UTF-8.
pub open spec fn utf8_width(c: char) -> nat {
    if (c as u32) < 0x80 {
        1
    } else if (c as u32) < 0x800 {
        2
    } else if (c as u32) < 0x10000 {
        3
    } else {
        4
    }
}

/// Bytes `s` takes in UTF-8: the byte offset just past its last char.
pub open spec fn utf8_len(s: Seq<char>) -> nat
    decreases s.len(),
{
    if s.len() == 0 {
        0
    } else {
        utf8_len(s.drop_last()) + utf8_width(s.last())
    }
}

pub proof fn lemma_utf8_len_push(s: Seq<char>, c: char)
    ensures
        utf8_len(s.push(c)) == utf8_len(s) + utf8_width(c),
{
    assert(s.push(c).drop_last() == s);
}

pub proof fn lemma_utf8_len_mono(s: Seq<char>, i: int, j: int)
    requires
        0 <= i <= j <= s.len(),
    ensures
        utf8_len(s.take(i)) <= utf8_len(s.take(j)),
        i < j ==> utf8_len(s.take(i)) < utf8_len(s.take(j)),
    decreases j - i,
{
    if i < j {
        lemma_utf8_len_mono(s, i, j - 1);
        assert(s.take(j).drop_last() == s.take(j - 1));
    }
}

pub proof fn lemma_utf8_len_ascii(s: Seq<char>)
    requires
        forall|j: int| 0 <= j < s.len() ==> (s[j] as u32) < 0x80,
    ensures
        utf8_len(s) == s.len(),
    decreases s.len(),
{
    if s.len() > 0 {
        lemma_utf8_len_ascii(s.drop_last());
    }
}

pub fn char_utf8_width(c: char) -> (r: usize)
    ensures
        r == utf8_width(c),
{
    let u = c as u32;
    if u < 0x80 {
        1
    } else if u < 0x800 {
        2
    } else if u < 0x10000 {
        3
    } else {
        4
    }
}

pub proof fn lemma_utf8_len_cons(c: char, s: Seq<char>)
    ensures
        utf8_len(seq![c] + s) == utf8_width(c) + utf8_len(s),
    decreases s.len(),
{
    if s.len() == 0 {
        assert(seq![c] + s =~= seq![c]);
        assert(seq![c].drop_last() =~= Seq::<char>::empty());
        assert(utf8_len(Seq::<char>::empty()) == 0);
        assert(seq![c].last() == c);
        assert(utf8_len(s) == 0);
    } else {
        lemma_utf8_len_cons(c, s.drop_last());
        assert((seq![c] + s).drop_last() =~= seq![c] + s.drop_last());
        assert((seq![c] + s).last() == s.last());
    }
}

/// The UTF-8 encoding of `s` takes `utf8_len(s)` bytes.
pub proof fn lemma_utf8_len_encode(s: Seq<char>)
    ensures
        vstd::utf8::encode_utf8(s).len() == utf8_len(s),
    decreases s.len(),
{
    if s.len() > 0 {
        lemma_utf8_len_encode(s.drop_first());
        lemma_utf8_len_cons(s[0], s.drop_first());
        assert(seq![s[0]] + s.drop_first() =~= s);
        let c = s[0];
        vstd::utf8::char_is_scalar(c);
        assert(vstd::utf8::encode_scalar(c as u32).len() == utf8_width(c));
    }
}

/// The byte length of `s`: the UTF-8 length of its chars.
pub fn str_byte_len(s: &str) -> (n: usize)
    ensures
        n == utf8_len(s@),
{
    proof {
        lemma_utf8_len_encode(s@);
    }
    s.as_bytes().len()
}

/// Byte offset of char index `n` in `v` (the UTF-8 length of `v[..n]`).
pub fn byte_offset(v: &[char], n: usize) -> (r: usize)
    requires
        n <= v.len(),
        utf8_len(v@) <= usize::MAX,
    ensures
        r == utf8_len(v@.take(n as int)),
{
    let mut i: usize = 0;
    let mut b: usize = 0;
    proof {
        assert(v@.take(v.len() as int) =~= v@);
    }
    while i < n
        invariant
            i <= n <= v.len(),
            utf8_len(v@) <= usize::MAX,
            b == utf8_len(v@.take(i as int)),
        decreases n - i,
    {
        proof {
            assert(v@.take(i + 1).drop_last() == v@.take(i as int));
            lemma_utf8_len_mono(v@, i + 1, v.len() as int);
            assert(v@.take(v.len() as int) =~= v@);
        }
        b = b + char_utf8_width(v[i]);
        i += 1;
    }
    b
}

// ---------------------------------------------------------------------------
// Decimal numbers
// ---------------------------------------------------------------------------

pub open spec fn digit_char(d: nat) -> char {
    if d == 0 {
        '0'
    } else if d == 1 {
        '1'
    } else if d == 2 {
        '2'
    } else if d == 3 {
        '3'
    } else if d == 4 {
        '4'
    } else if d == 5 {
        '5'
    } else if d == 6 {
        '6'
    } else if d == 7 {
        '7'
    } else if d == 8 {
        '8'
    } else {
        '9'
    }
}

/// The value of a digit char.
pub open spec fn digit_value(c: char) -> nat {
    (c as u32 - '0' as u32) as nat
}

/// Decimal rendering of `n`, as `{}` formats an unsigned integer.
pub open spec fn dec(n: nat) -> Seq<char>
    decreases n,
{
    if n < 10 {
        seq![digit_char(n)]
    } else {
        dec(n / 10).push(digit_char(n % 10))
    }
}

/// Value of an all-digit sequence.
pub open spec fn digits_value(s: Seq<char>) -> nat
    decreases s.len(),
{
    if s.len() == 0 {
        0
    } else {
        digits_value(s.drop_last()) * 10 + digit_value(s.last())
    }
}

/// The digits part of a `usize` literal: everything after an optional `+`.
pub open spec fn unsigned_digits(s: Seq<char>) -> Seq<char> {
    if s.len() > 0 && s[0] == '+' {
        s.drop_first()
    } else {
        s
    }
}

/// What `str::parse::<usize>` accepts: an optional `+`, then one or more
/// ASCII digits whose value fits a `usize`.
pub open spec fn parse_usize(s: Seq<char>) -> Option<nat> {
    let d = unsigned_digits(s);
    if d.len() > 0 && (forall|j: int| 0 <= j < d.len() ==> is_digit(#[trigger] d[j]))
        && digits_value(d) <= usize::MAX {
        Some(digits_value(d))
    } else {
        None
    }
}

fn digit_char_exec(d: usize) -> (c: char)
    requires
        d < 10,
    ensures
        c == digit_char(d as nat),
{
    if d == 0 {
        '0'
    } else if d == 1 {
        '1'
    } else if d == 2 {
        '2'
    } else if d == 3 {
        '3'
    } else if d == 4 {
        '4'
    } else if d == 5 {
        '5'
    } else if d == 6 {
        '6'
    } else if d == 7 {
        '7'
    } else if d == 8 {
        '8'
    } else {
        '9'
    }
}

/// Append the decimal rendering of `n` to `v`.
pub fn push_dec(v: &mut Vec<char>, n: usize)
    ensures
        final(v)@ == old(v)@ + dec(n as nat),
    decreases n,
{
    if n < 10 {
        let c = digit_char_exec(n);
        v.push(c);
        assert(dec(n as nat) == seq![c]);
    } else {
        push_dec(v, n / 10);
        let c = digit_char_exec(n % 10);
        v.push(c);
    }
}

pub proof fn lemma_digits_value_push(s: Seq<char>, c: char)
    ensures
        digits_value(s.push(c)) == digits_value(s) * 10 + digit_value(c),
{
    assert(s.push(c).drop_last() == s);
}

/// `str::parse::<usize>` on a char sequence.
pub fn parse_usize_exec(v: &[char]) -> (r: Option<usize>)
    ensures
        r matches Some(n) ==> parse_usize(v@) == Some(n as nat),
        r is None ==> parse_usize(v@) is None,
{
    let start: usize = if v.len() > 0 && v[0] == '+' {
        1
    } else {
        0
    };
    let ghost d = v@.skip(start as int);
    assert(d == unsigned_digits(v@));
    if start >= v.len() {
        return None;
    }
    let mut acc: usize = 0;
    let mut i = start;
    while i < v.len()
        invariant
            start <= i <= v.len(),
            start < v.len(),
            d == v@.skip(start as int),
            d == unsigned_digits(v@),
            forall|j: int| 0 <= j < i - start ==> is_digit(#[trigger] d[j]),
            acc == digits_value(d.take(i - start)),
        decreases v.len() - i,
    {
        let c = v[i];
        if !char_is_digit(c) {
            assert(!is_digit(d[i - start]));
            return None;
        }
        let dv = (c as u32 - '0' as u32) as usize;
        proof {
            lemma_digits_value_push(d.take(i - start), c);
            assert(d.take(i - start).push(c) == d.take(i + 1 - start));
        }
        assert(digit_value(c) == dv);
        if acc > (usize::MAX - dv) / 10 {
            proof {
                assert(acc * 10 + dv > usize::MAX) by (nonlinear_arith)
                    requires
                        acc > (usize::MAX - dv) / 10,
                        dv < 10,
                ;
                // every further digit only grows the value
                lemma_digits_value_prefix_mono(d, i + 1 - start);
            }
            return None;
        }
        acc = acc * 10 + dv;
        i += 1;
    }
    assert(d.take(i - start) == d);
    Some(acc)
}

proof fn lemma_digit_char(d: nat)
    requires
        d < 10,
    ensures
        is_digit(digit_char(d)),
        digit_value(digit_char(d)) == d,
{
}

/// The decimal rendering of a number reads back as that number.
pub proof fn lemma_dec_parse(n: nat)
    requires
        n <= usize::MAX,
    ensures
        parse_usize(dec(n)) == Some(n),
        dec(n).len() > 0,
        forall|j: int| 0 <= j < dec(n).len() ==> is_digit(#[trigger] dec(n)[j]),
{
    lemma_dec_digits(n);
    assert(unsigned_digits(dec(n)) == dec(n));
}

proof fn lemma_dec_digits(n: nat)
    ensures
        dec(n).len() > 0,
        forall|j: int| 0 <= j < dec(n).len() ==> is_digit(#[trigger] dec(n)[j]),
        digits_value(dec(n)) == n,
    decreases n,
{
    if n < 10 {
        lemma_digit_char(n);
        assert(dec(n).drop_last() == Seq::<char>::empty());
        assert(digits_value(dec(n)) == digits_value(Seq::<char>::empty()) * 10 + digit_value(
            digit_char(n),
        ));
    } else {
        lemma_dec_digits(n / 10);
        lemma_digit_char(n % 10);
        lemma_digits_value_push(dec(n / 10), digit_char(n % 10));
        assert((n / 10) * 10 + n % 10 == n) by (nonlinear_arith);
        let d = dec(n);
        assert forall|j: int| 0 <= j < d.len() implies is_digit(#[trigger] d[j]) by {
            if j < d.len() - 1 {
                assert(d[j] == dec(n / 10)[j]);
            }
        }
    }
}

pub proof fn lemma_digits_value_prefix_mono(s: Seq<char>, k: int)
    requires
        0 <= k <= s.len(),
    ensures
        digits_value(s.take(k)) <= digits_value(s),
    decreases s.len() - k,
{
    if k < s.len() {
        lemma_digits_value_prefix_mono(s, k + 1);
        lemma_digits_value_push(s.take(k), s[k]);
        let x = digits_value(s.take(k));
        let d = digit_value(s[k]);
        assert(x <= x * 10 + d) by (nonlinear_arith);
        assert(s.take(k).push(s[k]) == s.take(k + 1));
        assert(digits_value(s.take(k + 1)) == x * 10 + d);
    } else {
        assert(s.take(k) == s);
    }
}

} // verus!
