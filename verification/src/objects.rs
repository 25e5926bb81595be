//! Text objects: the buffer ranges that `iw`/`aw`, `i(`/`a(`, `i"`/`a"` and
//! friends select around the caret. Ranges are half-open byte ranges.

use vstd::prelude::*;
use crate::motions::{bytes, is_boundary, is_cont, line_end, line_end_of, line_start, line_start_of};

verus! {

/// The first offset at or after `i` whose byte fails `p`, or the end.
pub open spec fn scan_fwd(b: Seq<u8>, i: int, p: spec_fn(u8) -> bool) -> int
    decreases b.len() - i,
{
    if i >= b.len() || !p(b[i]) {
        i
    } else {
        scan_fwd(b, i + 1, p)
    }
}

/// The offset just after the last byte before `i` that fails `p`, or 0.
pub open spec fn scan_back(b: Seq<u8>, i: int, p: spec_fn(u8) -> bool) -> int
    decreases i,
{
    if i <= 0 || !p(b[i - 1]) {
        i
    } else {
        scan_back(b, i - 1, p)
    }
}

proof fn lemma_scan_fwd(b: Seq<u8>, i: int, p: spec_fn(u8) -> bool)
    requires
        0 <= i <= b.len(),
    ensures
        i <= scan_fwd(b, i, p) <= b.len(),
        scan_fwd(b, i, p) < b.len() ==> !p(b[scan_fwd(b, i, p)]),
        forall|j: int| i <= j < scan_fwd(b, i, p) ==> p(#[trigger] b[j]),
    decreases b.len() - i,
{
    if !(i >= b.len() || !p(b[i])) {
        lemma_scan_fwd(b, i + 1, p);
    }
}

proof fn lemma_scan_back(b: Seq<u8>, i: int, p: spec_fn(u8) -> bool)
    requires
        0 <= i <= b.len(),
    ensures
        0 <= scan_back(b, i, p) <= i,
        scan_back(b, i, p) > 0 ==> !p(b[scan_back(b, i, p) - 1]),
        forall|j: int| scan_back(b, i, p) <= j < i ==> p(#[trigger] b[j]),
    decreases i,
{
    if !(i <= 0 || !p(b[i - 1])) {
        lemma_scan_back(b, i - 1, p);
    }
}

/// The range `(a, z)` lies in `b` and begins and ends on char boundaries.
pub open spec fn whole_chars(b: Seq<u8>, a: int, z: int) -> bool {
    a <= z <= b.len() && is_boundary(b, a) && is_boundary(b, z)
}

/// A blank: space or tab. (A newline is neither blank nor part of a word.)
pub open spec fn is_blank(c: u8) -> bool {
    c == 0x20 || c == 0x09
}

pub open spec fn blank() -> spec_fn(u8) -> bool {
    |c: u8| is_blank(c)
}

/// Bytes of the same class as a blank (`t`) or a word char (`!t`), never a
/// newline.
pub open spec fn same_class(t: bool) -> spec_fn(u8) -> bool {
    |c: u8| is_blank(c) == t && c != 0x0Au8
}

fn byte_is_blank(c: u8) -> (r: bool)
    ensures
        r == is_blank(c),
{
    c == 0x20 || c == 0x09
}

/// The `iw`/`aw` range: the run of same-class bytes under the caret (the
/// last byte if the caret is at the end), never crossing a newline. `aw` on a
/// word adds the blanks after it, or those before it when none follow.
pub open spec fn word_range(b: Seq<u8>, caret: int, around: bool) -> (int, int) {
    if b.len() == 0 {
        (0, 0)
    } else {
        let pos = if caret < b.len() - 1 {
            caret
        } else {
            b.len() - 1
        };
        let t = is_blank(b[pos]);
        let s = scan_back(b, pos, same_class(t));
        let e = scan_fwd(b, pos + 1, same_class(t));
        if around && !t {
            let a = scan_fwd(b, e, blank());
            if a > e {
                (s, a)
            } else {
                (scan_back(b, s, blank()), e)
            }
        } else {
            (s, e)
        }
    }
}

fn scan_fwd_class(b: &[u8], i: usize, t: bool) -> (r: usize)
    requires
        i <= b@.len(),
    ensures
        r == scan_fwd(b@, i as int, same_class(t)),
        i <= r <= b@.len(),
{
    let mut e = i;
    while e < b.len() && byte_is_blank(b[e]) == t && b[e] != 0x0Au8
        invariant
            i <= e <= b@.len(),
            scan_fwd(b@, e as int, same_class(t)) == scan_fwd(b@, i as int, same_class(t)),
        decreases b@.len() - e,
    {
        e += 1;
    }
    e
}

fn scan_back_class(b: &[u8], i: usize, t: bool) -> (r: usize)
    requires
        i <= b@.len(),
    ensures
        r == scan_back(b@, i as int, same_class(t)),
        r <= i,
{
    let mut s = i;
    while s > 0 && byte_is_blank(b[s - 1]) == t && b[s - 1] != 0x0Au8
        invariant
            s <= i <= b@.len(),
            scan_back(b@, s as int, same_class(t)) == scan_back(b@, i as int, same_class(t)),
        decreases s,
    {
        s -= 1;
    }
    s
}

fn scan_fwd_blank(b: &[u8], i: usize) -> (r: usize)
    requires
        i <= b@.len(),
    ensures
        r == scan_fwd(b@, i as int, blank()),
        i <= r <= b@.len(),
{
    let mut a = i;
    while a < b.len() && byte_is_blank(b[a])
        invariant
            i <= a <= b@.len(),
            scan_fwd(b@, a as int, blank()) == scan_fwd(b@, i as int, blank()),
        decreases b@.len() - a,
    {
        a += 1;
    }
    a
}

fn scan_back_blank(b: &[u8], i: usize) -> (r: usize)
    requires
        i <= b@.len(),
    ensures
        r == scan_back(b@, i as int, blank()),
        r <= i,
{
    let mut s = i;
    while s > 0 && byte_is_blank(b[s - 1])
        invariant
            s <= i <= b@.len(),
            scan_back(b@, s as int, blank()) == scan_back(b@, i as int, blank()),
        decreases s,
    {
        s -= 1;
    }
    s
}

proof fn lemma_word_ends(text: &str, pos: int, t: bool)
    requires
        0 <= pos < bytes(text).len(),
        t == is_blank(bytes(text)[pos]),
    ensures
        whole_chars(
            bytes(text),
            scan_back(bytes(text), pos, same_class(t)),
            scan_fwd(bytes(text), pos + 1, same_class(t)),
        ),
{
    let b = bytes(text);
    lemma_scan_back(b, pos, same_class(t));
    lemma_scan_fwd(b, pos + 1, same_class(t));
    let s = scan_back(b, pos, same_class(t));
    let e = scan_fwd(b, pos + 1, same_class(t));
    if s > 0 {
        if t && b[s - 1] != 0x0Au8 {
            assert(is_blank(b[s]));
        } else {
            crate::motions::lemma_after_ascii(text@, s);
        }
    }
    if e < b.len() {
        if t && b[e] != 0x0Au8 {
            assert(is_blank(b[e - 1]));
            crate::motions::lemma_after_ascii(text@, e);
        }
    }
}

/// `iw`/`aw`: the run of same-class chars (word vs blank, never crossing a
/// newline) under the caret. `aw` also takes the trailing blanks, or the
/// leading ones if there are no trailing ones. Words are whitespace-delimited
/// (like vim's `iW`/`aW`).
pub fn word_object(text: &str, caret: usize, around: bool) -> (r: (usize, usize))
    ensures
        (r.0 as int, r.1 as int) == word_range(bytes(text), caret as int, around),
        whole_chars(bytes(text), r.0 as int, r.1 as int),
{
    let b = text.as_bytes();
    let n = b.len();
    if n == 0 {
        return (0, 0);
    }
    let pos = if caret < n - 1 {
        caret
    } else {
        n - 1
    };
    let target_ws = byte_is_blank(b[pos]);
    let s = scan_back_class(b, pos, target_ws);
    let e = scan_fwd_class(b, pos + 1, target_ws);
    proof {
        lemma_word_ends(text, pos as int, target_ws);
    }
    if around && !target_ws {
        let a = scan_fwd_blank(b, e);
        proof {
            lemma_scan_fwd(b@, e as int, blank());
            if a > e && a < n {
                crate::motions::lemma_after_ascii(text@, a as int);
            }
        }
        if a > e {
            return (s, a);
        }
        let ls = scan_back_blank(b, s);
        proof {
            lemma_scan_back(b@, s as int, blank());
            if ls < s {
                assert(is_blank(b@[ls as int]));
            }
        }
        return (ls, e);
    }
    (s, e)
}

// ---------------------------------------------------------------------------
// Bracket pairs
// ---------------------------------------------------------------------------

/// The nesting change at `i` when scanning left from `start`: a close bracket
/// (other than one at `start` itself) is one level deeper, an open one one
/// level out.
pub open spec fn left_step(b: Seq<u8>, i: int, start: int, open: u8, close: u8) -> int {
    if b[i] == close && i != start {
        1
    } else if b[i] == open {
        -1
    } else {
        0
    }
}

/// The nesting depth of `b[i..=start]` seen from `start`.
pub open spec fn left_depth(b: Seq<u8>, i: int, start: int, open: u8, close: u8) -> int
    decreases start + 1 - i,
{
    if i > start {
        0
    } else {
        left_depth(b, i + 1, start, open, close) + left_step(b, i, start, open, close)
    }
}

/// The open bracket enclosing `start`: the nearest offset at or left of it
/// where the depth seen from `start` drops below zero.
#[verifier::opaque]
pub open spec fn enclosing_open(b: Seq<u8>, start: int, open: u8, close: u8) -> Option<int> {
    if exists|i: int| 0 <= i <= start && #[trigger] left_depth(b, i, start, open, close) < 0 {
        Some(
            choose|i: int|
                0 <= i <= start && #[trigger] left_depth(b, i, start, open, close) < 0 && forall|
                    k: int,
                | i < k <= start ==> #[trigger] left_depth(b, k, start, open, close) >= 0,
        )
    } else {
        None
    }
}

/// The nesting depth of `b[o+1..=j]` seen from the open bracket at `o`.
pub open spec fn right_depth(b: Seq<u8>, o: int, j: int, open: u8, close: u8) -> int
    decreases j - o,
{
    if j <= o {
        0
    } else {
        right_depth(b, o, j - 1, open, close) + if b[j] == open {
            1int
        } else if b[j] == close {
            -1int
        } else {
            0int
        }
    }
}

/// The close bracket matching the open one at `o`: the first offset after it
/// where the depth drops below zero.
#[verifier::opaque]
pub open spec fn matching_close(b: Seq<u8>, o: int, open: u8, close: u8) -> Option<int> {
    if exists|j: int| o < j < b.len() && #[trigger] right_depth(b, o, j, open, close) < 0 {
        Some(
            choose|j: int|
                o < j < b.len() && #[trigger] right_depth(b, o, j, open, close) < 0 && forall|
                    k: int,
                | o < k < j ==> #[trigger] right_depth(b, o, k, open, close) >= 0,
        )
    } else {
        None
    }
}

/// The `i(`/`a(` range for the bracket pair `open`/`close` enclosing the
/// caret (the last byte if the caret is at the end): inside the brackets, or
/// with them when `around`.
pub open spec fn pair_range(b: Seq<u8>, caret: int, open: u8, close: u8, around: bool) -> Option<
    (int, int),
> {
    if b.len() == 0 {
        None
    } else {
        let start = if caret < b.len() - 1 {
            caret
        } else {
            b.len() - 1
        };
        match enclosing_open(b, start, open, close) {
            None => None,
            Some(o) => match matching_close(b, o, open, close) {
                None => None,
                Some(c) => Some(
                    if around {
                        (o, c + 1)
                    } else {
                        (o + 1, c)
                    },
                ),
            },
        }
    }
}

fn find_enclosing_open(b: &[u8], start: usize, open: u8, close: u8) -> (r: Option<usize>)
    requires
        start < b@.len(),
    ensures
        r is Some <==> enclosing_open(b@, start as int, open, close) is Some,
        r matches Some(o) ==> o == enclosing_open(b@, start as int, open, close).unwrap() && o
            <= start && b@[o as int] == open,
{
    let mut depth: usize = 0;
    let mut i = start;
    loop
        invariant
            i <= start < b@.len(),
            depth == left_depth(b@, i + 1, start as int, open, close),
            depth <= start - i,
            forall|k: int| i < k <= start ==> #[trigger] left_depth(b@, k, start as int, open, close)
                >= 0,
        decreases i,
    {
        let ch = b[i];
        if ch == close && i != start {
            depth += 1;
        } else if ch == open {
            if depth == 0 {
                assert(left_depth(b@, i as int, start as int, open, close) < 0);
                proof {
                    reveal(enclosing_open);
                    let c = choose|j: int|
                        0 <= j <= start && #[trigger] left_depth(b@, j, start as int, open, close)
                            < 0 && forall|k: int|
                            j < k <= start ==> #[trigger] left_depth(b@, k, start as int, open, close)
                                >= 0;
                    assert(c == i);
                }
                return Some(i);
            }
            depth -= 1;
        }
        if i == 0 {
            proof {
                reveal(enclosing_open);
            }
            assert(forall|k: int| 0 <= k <= start ==> #[trigger] left_depth(b@, k, start as int, open, close)
                >= 0);
            return None;
        }
        i -= 1;
    }
}

fn find_matching_close(b: &[u8], o: usize, open: u8, close: u8) -> (r: Option<usize>)
    requires
        o < b@.len(),
    ensures
        r is Some <==> matching_close(b@, o as int, open, close) is Some,
        r matches Some(c) ==> c == matching_close(b@, o as int, open, close).unwrap() && o < c
            < b@.len() && b@[c as int] == close,
{
    let n = b.len();
    let mut depth: usize = 0;
    let mut j = o + 1;
    while j < n
        invariant
            n == b@.len(),
            o < j <= n,
            depth == right_depth(b@, o as int, j - 1, open, close),
            depth <= j - 1 - o,
            forall|k: int| o < k < j ==> #[trigger] right_depth(b@, o as int, k, open, close) >= 0,
        decreases n - j,
    {
        let ch = b[j];
        if ch == open {
            depth += 1;
        } else if ch == close {
            if depth == 0 {
                assert(right_depth(b@, o as int, j as int, open, close) < 0);
                proof {
                    reveal(matching_close);
                    let c = choose|x: int|
                        o < x < b@.len() && #[trigger] right_depth(b@, o as int, x, open, close) < 0
                            && forall|k: int|
                            o < k < x ==> #[trigger] right_depth(b@, o as int, k, open, close) >= 0;
                    assert(c == j);
                }
                return Some(j);
            }
            depth -= 1;
        }
        j += 1;
    }
    proof {
        reveal(matching_close);
    }
    None
}

/// `i(`/`a(` and friends: the range between the bracket pair enclosing the
/// caret, nesting-aware. `around` includes the brackets themselves.
pub fn pair_object(text: &str, caret: usize, open: u8, close: u8, around: bool) -> (r: Option<
    (usize, usize),
>)
    ensures
        r is Some <==> pair_range(bytes(text), caret as int, open, close, around) is Some,
        r matches Some((a, z)) ==> pair_range(bytes(text), caret as int, open, close, around)
            == Some((a as int, z as int)),
        r matches Some((a, z)) ==> a <= z <= bytes(text).len(),
        r matches Some((a, z)) ==> open < 0x80 && close < 0x80 ==> whole_chars(
            bytes(text),
            a as int,
            z as int,
        ),
{
    let b = text.as_bytes();
    let n = b.len();
    if n == 0 {
        return None;
    }
    let start = if caret < n - 1 {
        caret
    } else {
        n - 1
    };
    let open_idx = match find_enclosing_open(b, start, open, close) {
        Some(o) => o,
        None => return None,
    };
    let close_idx = match find_matching_close(b, open_idx, open, close) {
        Some(c) => c,
        None => return None,
    };
    proof {
        if open < 0x80 && close < 0x80 {
            crate::motions::lemma_after_ascii(text@, open_idx + 1);
            crate::motions::lemma_after_ascii(text@, close_idx + 1);
        }
    }
    Some(
        if around {
            (open_idx, close_idx + 1)
        } else {
            (open_idx + 1, close_idx)
        },
    )
}

// ---------------------------------------------------------------------------
// Quote pairs
// ---------------------------------------------------------------------------

/// The offsets in `b[a..z]` that hold the quote byte `q`, in order.
pub open spec fn quote_positions(b: Seq<u8>, a: int, z: int, q: u8) -> Seq<int>
    decreases z - a,
{
    if z <= a {
        Seq::empty()
    } else {
        let p = quote_positions(b, a, z - 1, q);
        if b[z - 1] == q {
            p.push(z - 1)
        } else {
            p
        }
    }
}

/// Pairing the quotes `qs` left to right from the `k`th, the first pair whose
/// closing quote is at or after the caret.
pub open spec fn first_pair_reaching(qs: Seq<int>, caret: int, k: int) -> Option<(int, int)>
    decreases qs.len() - k,
{
    if k < 0 || k + 1 >= qs.len() {
        None
    } else if caret <= qs[k + 1] {
        Some((qs[k], qs[k + 1]))
    } else {
        first_pair_reaching(qs, caret, k + 2)
    }
}

/// The `i"`/`a"` range for the quote byte `q`: the quotes of the caret's line
/// are paired left to right, and the first pair closing at or after the caret
/// is taken, inside the quotes or with them when `around`.
pub open spec fn quote_range(b: Seq<u8>, caret: int, q: u8, around: bool) -> Option<(int, int)> {
    let qs = quote_positions(b, line_start_of(b, caret), line_end_of(b, caret), q);
    match first_pair_reaching(qs, caret, 0) {
        None => None,
        Some((a, z)) => Some(
            if around {
                (a, z + 1)
            } else {
                (a + 1, z)
            },
        ),
    }
}

/// `i"`/`a"` and friends: the range between a matching quote pair on the
/// current line. `around` includes the quotes.
pub fn quote_object(text: &str, caret: usize, q: u8, around: bool) -> (r: Option<(usize, usize)>)
    requires
        caret <= bytes(text).len(),
    ensures
        r is Some <==> quote_range(bytes(text), caret as int, q, around) is Some,
        r matches Some((a, z)) ==> quote_range(bytes(text), caret as int, q, around) == Some(
            (a as int, z as int),
        ),
        r matches Some((a, z)) ==> a <= z <= bytes(text).len(),
        r matches Some((a, z)) ==> q < 0x80 ==> whole_chars(bytes(text), a as int, z as int),
{
    let b = text.as_bytes();
    let ls = line_start(text, caret);
    let le = line_end(text, caret);
    let ghost qs_all = quote_positions(b@, ls as int, le as int, q);
    let mut quotes: Vec<usize> = Vec::new();
    let mut i = ls;
    while i < le
        invariant
            b@ == bytes(text),
            ls <= i <= le <= b@.len(),
            quotes@.len() == quote_positions(b@, ls as int, i as int, q).len(),
            forall|j: int|
                0 <= j < quotes@.len() ==> quotes@[j] == quote_positions(
                    b@,
                    ls as int,
                    i as int,
                    q,
                )[j] && ls <= quotes@[j] < i && b@[quotes@[j] as int] == q,
            forall|j: int, k: int| 0 <= j < k < quotes@.len() ==> quotes@[j] < quotes@[k],
        decreases le - i,
    {
        if b[i] == q {
            quotes.push(i);
        }
        i += 1;
    }
    assert(quotes@.len() == qs_all.len());
    let nq = quotes.len();
    let mut k: usize = 0;
    while nq - k > 1
        invariant
            nq == quotes@.len(),
            k <= nq,
            quotes@.len() == qs_all.len(),
            qs_all == quote_positions(
                bytes(text),
                line_start_of(bytes(text), caret as int),
                line_end_of(bytes(text), caret as int),
                q,
            ),
            forall|j: int|
                0 <= j < quotes@.len() ==> quotes@[j] == qs_all[j] && quotes@[j] < le && b@[quotes@[j] as int]
                    == q,
            forall|j: int, k: int| 0 <= j < k < quotes@.len() ==> quotes@[j] < quotes@[k],
            b@ == bytes(text),
            le <= b@.len(),
            first_pair_reaching(qs_all, caret as int, 0) == first_pair_reaching(
                qs_all,
                caret as int,
                k as int,
            ),
        decreases quotes@.len() - k,
    {
        let a = quotes[k];
        let z = quotes[k + 1];
        proof {
            if q < 0x80 {
                crate::motions::lemma_after_ascii(text@, a + 1);
                crate::motions::lemma_after_ascii(text@, z + 1);
            }
        }
        if caret <= z {
            return Some(
                if around {
                    (a, z + 1)
                } else {
                    (a + 1, z)
                },
            );
        }
        k += 2;
    }
    None
}

// ---------------------------------------------------------------------------
// Dispatch
// ---------------------------------------------------------------------------

/// The range the text object `obj` selects: `w` a word, `(`/`)`/`b`,
/// `{`/`}`/`B`, `[`/`]` and `<`/`>` bracket pairs, `"`, `'` and `` ` `` quote
/// pairs; any other char selects nothing.
pub open spec fn object_range(b: Seq<u8>, caret: int, obj: char, around: bool) -> Option<
    (int, int),
> {
    if obj == 'w' {
        Some(word_range(b, caret, around))
    } else if obj == '(' || obj == ')' || obj == 'b' {
        pair_range(b, caret, 0x28u8, 0x29u8, around)
    } else if obj == '{' || obj == '}' || obj == 'B' {
        pair_range(b, caret, 0x7Bu8, 0x7Du8, around)
    } else if obj == '[' || obj == ']' {
        pair_range(b, caret, 0x5Bu8, 0x5Du8, around)
    } else if obj == '<' || obj == '>' {
        pair_range(b, caret, 0x3Cu8, 0x3Eu8, around)
    } else if obj == '"' {
        quote_range(b, caret, 0x22u8, around)
    } else if obj == '\'' {
        quote_range(b, caret, 0x27u8, around)
    } else if obj == '`' {
        quote_range(b, caret, 0x60u8, around)
    } else {
        None
    }
}

/// Resolve a text object to a buffer range. `around` selects `a` (include
/// delimiters / trailing blanks) vs `i` (inner). `None` if there is no such
/// object under the caret.
pub fn text_object(text: &str, caret: usize, obj: char, around: bool) -> (r: Option<
    (usize, usize),
>)
    requires
        obj == '"' || obj == '\'' || obj == '`' ==> caret <= bytes(text).len(),
    ensures
        r is Some <==> object_range(bytes(text), caret as int, obj, around) is Some,
        r matches Some((a, z)) ==> object_range(bytes(text), caret as int, obj, around) == Some(
            (a as int, z as int),
        ),
        r matches Some((a, z)) ==> whole_chars(bytes(text), a as int, z as int),
{
    match obj {
        'w' => Some(word_object(text, caret, around)),
        '(' | ')' | 'b' => pair_object(text, caret, 0x28u8, 0x29u8, around),
        '{' | '}' | 'B' => pair_object(text, caret, 0x7Bu8, 0x7Du8, around),
        '[' | ']' => pair_object(text, caret, 0x5Bu8, 0x5Du8, around),
        '<' | '>' => pair_object(text, caret, 0x3Cu8, 0x3Eu8, around),
        '"' => quote_object(text, caret, 0x22u8, around),
        '\'' => quote_object(text, caret, 0x27u8, around),
        '`' => quote_object(text, caret, 0x60u8, around),
        _ => None,
    }
}

// ---------------------------------------------------------------------------
// What a quote object selects
// ---------------------------------------------------------------------------

proof fn lemma_quote_positions(b: Seq<u8>, a: int, z: int, q: u8)
    requires
        0 <= a,
        z <= b.len(),
    ensures
        forall|j: int|
            0 <= j < quote_positions(b, a, z, q).len() ==> a <= #[trigger] quote_positions(
                b,
                a,
                z,
                q,
            )[j] < z && b[quote_positions(b, a, z, q)[j]] == q,
        forall|j: int, k: int|
            0 <= j < k < quote_positions(b, a, z, q).len() ==> #[trigger] quote_positions(
                b,
                a,
                z,
                q,
            )[j] < #[trigger] quote_positions(b, a, z, q)[k],
        forall|p: int|
            a <= p < z && b[p] == q ==> exists|j: int|
                0 <= j < quote_positions(b, a, z, q).len() && #[trigger] quote_positions(
                    b,
                    a,
                    z,
                    q,
                )[j] == p,
    decreases z - a,
{
    if z > a {
        lemma_quote_positions(b, a, z - 1, q);
        let prev = quote_positions(b, a, z - 1, q);
        let qs = quote_positions(b, a, z, q);
        if b[z - 1] == q {
            assert(qs == prev.push(z - 1));
            assert forall|p: int| a <= p < z && b[p] == q implies exists|j: int|
                0 <= j < qs.len() && #[trigger] qs[j] == p by {
                if p == z - 1 {
                    assert(qs[prev.len() as int] == p);
                } else {
                    let j = choose|j: int| 0 <= j < prev.len() && #[trigger] prev[j] == p;
                    assert(qs[j] == p);
                }
            }
            assert forall|j: int, k: int| 0 <= j < k < qs.len() implies #[trigger] qs[j]
                < #[trigger] qs[k] by {
                assert(qs[j] == prev[j]);
                if k < prev.len() {
                    assert(qs[k] == prev[k]);
                }
            }
        }
    }
}

proof fn lemma_first_pair_reaching(qs: Seq<int>, caret: int, k: int)
    requires
        0 <= k,
    ensures
        first_pair_reaching(qs, caret, k) matches Some((x, y)) ==> exists|j: int|
            k <= j && j + 1 < qs.len() && #[trigger] qs[j] == x && qs[j + 1] == y && caret <= y,
    decreases qs.len() - k,
{
    if !(k + 1 >= qs.len()) && !(caret <= qs[k + 1]) {
        lemma_first_pair_reaching(qs, caret, k + 2);
    }
}

/// Quote byte `q` at `o` and `c` (`o < c`) on the line `[ls, le)`, with the
/// caret at or before `c` and no `q` between them.
pub open spec fn quote_pair(b: Seq<u8>, ls: int, le: int, q: u8, caret: int, o: int, c: int) -> bool {
    &&& ls <= o < c < le
    &&& b[o] == q && b[c] == q
    &&& caret <= c
    &&& forall|p: int| o < p < c ==> b[p] != q
}

/// The range a quote object selects for the pair at `o`, `c`: inside the
/// quotes, or with them when `around`.
pub open spec fn quote_span(o: int, c: int, around: bool) -> (int, int) {
    if around {
        (o, c + 1)
    } else {
        (o + 1, c)
    }
}

/// The first two quote bytes `q` of the caret's line, when the second lies at
/// or after the caret.
pub open spec fn first_quote_pair(b: Seq<u8>, caret: int, q: u8, o: int, c: int) -> bool {
    let ls = line_start_of(b, caret);
    let le = line_end_of(b, caret);
    &&& quote_pair(b, ls, le, q, caret, o, c)
    &&& forall|p: int| ls <= p < o ==> b[p] != q
}

proof fn lemma_quote_range_law(b: Seq<u8>, caret: int, q: u8, around: bool, o: int, c: int)
    requires
        0 <= caret <= b.len(),
    ensures
        quote_range(b, caret, q, around) matches Some((x, y)) ==> exists|o2: int, c2: int|
            quote_pair(b, line_start_of(b, caret), line_end_of(b, caret), q, caret, o2, c2)
                && (x, y) == #[trigger] quote_span(o2, c2, around),
        first_quote_pair(b, caret, q, o, c) ==> quote_range(b, caret, q, around) == Some(
            quote_span(o, c, around),
        ),
{
    let ls = line_start_of(b, caret);
    let le = line_end_of(b, caret);
    lemma_line_start_of(b, caret);
    crate::motions::lemma_line_end_of(b, caret);
    lemma_quote_positions(b, ls, le, q);
    let qs = quote_positions(b, ls, le, q);
    lemma_first_pair_reaching(qs, caret, 0);
    if let Some((x, y)) = first_pair_reaching(qs, caret, 0) {
        let j = choose|j: int| 0 <= j && j + 1 < qs.len() && #[trigger] qs[j] == x && qs[j + 1] == y
            && caret <= y;
        assert(qs[j] < qs[j + 1]);
        assert forall|p: int| x < p < y implies b[p] != q by {
            if b[p] == q {
                let k = choose|k: int| 0 <= k < qs.len() && #[trigger] qs[k] == p;
                if k <= j {
                    if k < j {
                        assert(qs[k] < qs[j]);
                    }
                } else if k >= j + 1 {
                    if k > j + 1 {
                        assert(qs[j + 1] < qs[k]);
                    }
                }
            }
        }
        assert(quote_pair(b, ls, le, q, caret, x, y));
        assert(quote_range(b, caret, q, around) == Some(quote_span(x, y, around)));
    }
    if first_quote_pair(b, caret, q, o, c) {
        let jo = choose|j: int| 0 <= j < qs.len() && #[trigger] qs[j] == o;
        let jc = choose|j: int| 0 <= j < qs.len() && #[trigger] qs[j] == c;
        if jo > 0 {
            assert(qs[0] < qs[jo]);
        }
        assert(jo == 0);
        if jc < 1 {
        } else if jc > 1 {
            assert(qs[1] < qs[jc]);
            assert(qs[0] < qs[1]);
        }
        assert(jc == 1);
        assert(first_pair_reaching(qs, caret, 0) == Some((o, c)));
    }
}

proof fn lemma_line_start_of(b: Seq<u8>, pos: int)
    requires
        0 <= pos <= b.len(),
    ensures
        0 <= line_start_of(b, pos) <= pos,
    decreases pos,
{
    if !(pos <= 0 || b[pos - 1] == 0x0Au8) {
        lemma_line_start_of(b, pos - 1);
    }
}

/// The quote objects `"`, `'` and `` ` `` select between quote bytes of
/// their own kind (`0x22`, `0x27`, `0x60`): a selection is always a pair of
/// that quote on the caret's line, closing at or after the caret, with no
/// such quote inside it; and the first two such quotes of the line, the
/// second at or after the caret, are always the pair selected.
pub proof fn lemma_quote_objects(b: Seq<u8>, caret: int, around: bool)
    requires
        0 <= caret <= b.len(),
    ensures
        forall|obj: char, q: u8|
            #![trigger object_range(b, caret, obj, around), quote_kind(obj, q)]
            quote_kind(obj, q) ==> (object_range(b, caret, obj, around) matches Some((x, y))
                ==> exists|o: int, c: int|
                quote_pair(b, line_start_of(b, caret), line_end_of(b, caret), q, caret, o, c) && (x, y)
                    == #[trigger] quote_span(o, c, around)),
        forall|obj: char, q: u8, o: int, c: int|
            #![trigger object_range(b, caret, obj, around), quote_kind(obj, q), first_quote_pair(b, caret, q, o, c)]
            quote_kind(obj, q) && first_quote_pair(b, caret, q, o, c) ==> object_range(
                b,
                caret,
                obj,
                around,
            ) == Some(quote_span(o, c, around)),
{
    assert forall|obj: char, q: u8|
        #![trigger object_range(b, caret, obj, around), quote_kind(obj, q)]
        quote_kind(obj, q) implies (object_range(b, caret, obj, around) matches Some((x, y))
            ==> exists|o: int, c: int|
            quote_pair(b, line_start_of(b, caret), line_end_of(b, caret), q, caret, o, c) && (x, y)
                == #[trigger] quote_span(o, c, around)) by {
        lemma_quote_range_law(b, caret, q, around, 0, 0);
    }
    assert forall|obj: char, q: u8, o: int, c: int|
        #![trigger object_range(b, caret, obj, around), quote_kind(obj, q), first_quote_pair(b, caret, q, o, c)]
        quote_kind(obj, q) && first_quote_pair(b, caret, q, o, c) implies object_range(
            b,
            caret,
            obj,
            around,
        ) == Some(quote_span(o, c, around)) by {
        lemma_quote_range_law(b, caret, q, around, o, c);
    }
}

/// The quote byte each quote object stands for.
pub open spec fn quote_kind(obj: char, q: u8) -> bool {
    (obj == '"' && q == 0x22u8) || (obj == '\'' && q == 0x27u8) || (obj == '`' && q == 0x60u8)
}

/// The bracket bytes each bracket object stands for.
pub open spec fn bracket_kind(obj: char, open: u8, close: u8) -> bool {
    ((obj == '(' || obj == ')' || obj == 'b') && open == 0x28u8 && close == 0x29u8) || ((obj == '{'
        || obj == '}' || obj == 'B') && open == 0x7Bu8 && close == 0x7Du8) || ((obj == '[' || obj
        == ']') && open == 0x5Bu8 && close == 0x5Du8) || ((obj == '<' || obj == '>') && open
        == 0x3Cu8 && close == 0x3Eu8)
}

proof fn lemma_nearest_open(b: Seq<u8>, start: int, open: u8, close: u8, hi: int)
    requires
        hi <= start,
        forall|k: int| hi < k <= start ==> #[trigger] left_depth(b, k, start, open, close) >= 0,
        exists|i: int| 0 <= i <= hi && #[trigger] left_depth(b, i, start, open, close) < 0,
    ensures
        exists|i: int|
            0 <= i <= start && #[trigger] left_depth(b, i, start, open, close) < 0 && forall|k: int|
                i < k <= start ==> #[trigger] left_depth(b, k, start, open, close) >= 0,
    decreases hi,
{
    if left_depth(b, hi, start, open, close) < 0 {
        assert(0 <= hi);
    } else {
        lemma_nearest_open(b, start, open, close, hi - 1);
    }
}

proof fn lemma_first_close(b: Seq<u8>, o: int, open: u8, close: u8, lo: int)
    requires
        o < lo,
        forall|k: int| o < k < lo ==> #[trigger] right_depth(b, o, k, open, close) >= 0,
        exists|j: int| lo <= j < b.len() && #[trigger] right_depth(b, o, j, open, close) < 0,
    ensures
        exists|j: int|
            o < j < b.len() && #[trigger] right_depth(b, o, j, open, close) < 0 && forall|k: int|
                o < k < j ==> #[trigger] right_depth(b, o, k, open, close) >= 0,
    decreases b.len() - lo,
{
    if right_depth(b, o, lo, open, close) < 0 {
    } else {
        lemma_first_close(b, o, open, close, lo + 1);
    }
}

proof fn lemma_enclosing_open_is_open(b: Seq<u8>, start: int, open: u8, close: u8)
    requires
        0 <= start < b.len(),
    ensures
        enclosing_open(b, start, open, close) matches Some(o) ==> 0 <= o <= start && b[o] == open,
{
    reveal(enclosing_open);
    if exists|i: int| 0 <= i <= start && #[trigger] left_depth(b, i, start, open, close) < 0 {
        lemma_nearest_open(b, start, open, close, start);
        let o = enclosing_open(b, start, open, close)->0;
        assert(0 <= o <= start && left_depth(b, o, start, open, close) < 0);
        assert(left_depth(b, o + 1, start, open, close) >= 0) by {
            if o + 1 <= start {
                assert(o < o + 1 <= start);
            }
        }
    }
}

proof fn lemma_matching_close_is_close(b: Seq<u8>, o: int, open: u8, close: u8)
    requires
        0 <= o < b.len(),
    ensures
        matching_close(b, o, open, close) matches Some(c) ==> o < c < b.len() && b[c] == close,
{
    reveal(matching_close);
    if exists|j: int| o < j < b.len() && #[trigger] right_depth(b, o, j, open, close) < 0 {
        lemma_first_close(b, o, open, close, o + 1);
        let c = matching_close(b, o, open, close)->0;
        assert(o < c < b.len() && right_depth(b, o, c, open, close) < 0);
        assert(right_depth(b, o, c - 1, open, close) >= 0) by {
            if c - 1 > o {
                assert(o < c - 1 < c);
            }
        }
    }
}

proof fn lemma_pair_range_brackets(b: Seq<u8>, caret: int, open: u8, close: u8, around: bool)
    requires
        0 <= caret,
    ensures
        pair_range(b, caret, open, close, around) matches Some((x, y)) ==> exists|o: int, c: int|
            0 <= o <= caret && o < c < b.len() && b[o] == open && b[c] == close && (x, y)
                == #[trigger] quote_span(o, c, around),
{
    if b.len() > 0 {
        let start = if caret < b.len() - 1 {
            caret
        } else {
            b.len() - 1
        };
        lemma_enclosing_open_is_open(b, start, open, close);
        if let Some(o) = enclosing_open(b, start, open, close) {
            lemma_matching_close_is_close(b, o, open, close);
            if let Some(c) = matching_close(b, o, open, close) {
                assert(pair_range(b, caret, open, close, around) == Some(quote_span(o, c, around)));
            }
        }
    }
}

/// The bracket objects `(` `)` `b`, `{` `}` `B`, `[` `]` and `<` `>` select
/// between brackets of their own kind: a selection is always an open
/// bracket at or before the caret and a close bracket after it, inside them
/// or with them when `around`.
pub proof fn lemma_bracket_objects(b: Seq<u8>, caret: int, around: bool)
    requires
        0 <= caret,
    ensures
        forall|obj: char, open: u8, close: u8|
            #![trigger object_range(b, caret, obj, around), bracket_kind(obj, open, close)]
            bracket_kind(obj, open, close) ==> (object_range(b, caret, obj, around) matches Some(
                (x, y),
            ) ==> exists|o: int, c: int|
                0 <= o <= caret && o < c < b.len() && b[o] == open && b[c] == close && (x, y)
                    == #[trigger] quote_span(o, c, around)),
{
    assert forall|obj: char, open: u8, close: u8|
        #![trigger object_range(b, caret, obj, around), bracket_kind(obj, open, close)]
        bracket_kind(obj, open, close) implies (object_range(b, caret, obj, around) matches Some(
            (x, y),
        ) ==> exists|o: int, c: int|
            0 <= o <= caret && o < c < b.len() && b[o] == open && b[c] == close && (x, y)
                == #[trigger] quote_span(o, c, around)) by {
        lemma_pair_range_brackets(b, caret, open, close, around);
    }
}

} // verus!
