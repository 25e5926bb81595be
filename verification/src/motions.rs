//! Caret motions over the editor buffer: line ends, char steps, word jumps.
//!
//! Positions are byte offsets into the UTF-8 text, as the caret is. The
//! contracts speak of the text's bytes, [`bytes`].

use vstd::prelude::*;
use vstd::utf8::{encode_scalar, encode_utf8};
use crate::text::{utf8_len, utf8_width};

verus! {

/// The UTF-8 bytes of `text`, as `str::as_bytes` hands them out.
pub open spec fn bytes(text: &str) -> Seq<u8> {
    vstd::utf8::encode_utf8(text@)
}

/// ASCII whitespace as `u8::is_ascii_whitespace` counts it: space, tab, line
/// feed, form feed and carriage return.
pub open spec fn is_ascii_ws(c: u8) -> bool {
    c == 0x20 || c == 0x09 || c == 0x0A || c == 0x0C || c == 0x0D
}

pub fn byte_is_ascii_ws(c: u8) -> (r: bool)
    ensures
        r == is_ascii_ws(c),
{
    c == 0x20 || c == 0x09 || c == 0x0A || c == 0x0C || c == 0x0D
}

/// A UTF-8 continuation byte (`10xxxxxx`): never the first byte of a char.
pub open spec fn is_cont(c: u8) -> bool {
    0x80 <= c <= 0xBF
}

fn byte_is_cont(c: u8) -> (r: bool)
    ensures
        r == is_cont(c),
{
    0x80 <= c && c <= 0xBF
}

/// Whether byte offset `i` is a char boundary of `b`: the start, the end, or
/// a byte that begins a char.
pub open spec fn is_boundary(b: Seq<u8>, i: int) -> bool {
    0 <= i <= b.len() && (i == 0 || i == b.len() || !is_cont(b[i]))
}

/// The start of the line holding `pos`: just past the last `\n` before it,
/// or 0.
pub open spec fn line_start_of(b: Seq<u8>, pos: int) -> int
    decreases pos,
{
    if pos <= 0 || b[pos - 1] == 0x0Au8 {
        pos
    } else {
        line_start_of(b, pos - 1)
    }
}

/// The end of the line holding `pos`: the first `\n` at or after it, or the
/// end of the text.
pub open spec fn line_end_of(b: Seq<u8>, pos: int) -> int
    decreases b.len() - pos,
{
    if pos >= b.len() || b[pos] == 0x0Au8 {
        pos
    } else {
        line_end_of(b, pos + 1)
    }
}

/// Offset of the start of the line containing `pos`: just past the last
/// `\n` before it, or 0.
pub fn line_start(text: &str, pos: usize) -> (r: usize)
    requires
        pos <= bytes(text).len(),
    ensures
        r == line_start_of(bytes(text), pos as int),
        r <= pos,
        r == 0 || bytes(text)[r - 1] == 0x0Au8,
        forall|j: int| r <= j < pos ==> bytes(text)[j] != 0x0Au8,
{
    let b = text.as_bytes();
    let mut i = pos;
    while i > 0 && b[i - 1] != 0x0Au8
        invariant
            b@ == bytes(text),
            i <= pos <= b@.len(),
            forall|j: int| i <= j < pos ==> b@[j] != 0x0Au8,
            line_start_of(b@, i as int) == line_start_of(b@, pos as int),
        decreases i,
    {
        i -= 1;
    }
    i
}

/// Offset of the end of the line containing `pos`: the `\n` that ends it, or
/// the end of the text. A `pos` past the end comes back unchanged.
pub fn line_end(text: &str, pos: usize) -> (r: usize)
    ensures
        r == line_end_of(bytes(text), pos as int),
        pos <= r,
        r <= bytes(text).len() || r == pos,
        r < bytes(text).len() ==> bytes(text)[r as int] == 0x0Au8,
        forall|j: int| pos <= j < r ==> bytes(text)[j] != 0x0Au8,
{
    let b = text.as_bytes();
    let mut i = pos;
    while i < b.len() && b[i] != 0x0Au8
        invariant
            b@ == bytes(text),
            pos <= i,
            i <= b@.len() || i == pos,
            forall|j: int| pos <= j < i ==> b@[j] != 0x0Au8,
            line_end_of(b@, i as int) == line_end_of(b@, pos as int),
        decreases b@.len() - i,
    {
        i += 1;
    }
    i
}

/// The first char boundary after `i`, or `i` itself at (or past) the end.
pub open spec fn next_boundary(b: Seq<u8>, i: int) -> int {
    if i >= b.len() {
        i
    } else {
        lead_at_or_after(b, i + 1)
    }
}

/// The first offset at or after `j` that is not a continuation byte, or the
/// end.
pub open spec fn lead_at_or_after(b: Seq<u8>, j: int) -> int
    decreases b.len() - j,
{
    if j >= b.len() || !is_cont(b[j]) {
        j
    } else {
        lead_at_or_after(b, j + 1)
    }
}

pub proof fn lemma_lead_at_or_after(b: Seq<u8>, j: int)
    requires
        0 <= j,
    ensures
        j <= lead_at_or_after(b, j),
        lead_at_or_after(b, j) <= b.len() || lead_at_or_after(b, j) == j,
        lead_at_or_after(b, j) < b.len() ==> !is_cont(b[lead_at_or_after(b, j)]),
        forall|k: int| j <= k < lead_at_or_after(b, j) ==> is_cont(#[trigger] b[k]),
    decreases b.len() - j,
{
    if !(j >= b.len() || !is_cont(b[j])) {
        lemma_lead_at_or_after(b, j + 1);
    }
}

/// Byte offset one character right of `i`, clamped to the end.
pub fn next_char(text: &str, i: usize) -> (r: usize)
    requires
        is_boundary(bytes(text), i as int),
    ensures
        r == next_boundary(bytes(text), i as int),
        i == bytes(text).len() ==> r == i,
        i < bytes(text).len() ==> i < r && is_boundary(bytes(text), r as int) && forall|j: int|
            i < j < r ==> is_cont(#[trigger] bytes(text)[j]),
{
    let b = text.as_bytes();
    if i >= b.len() {
        return i;
    }
    let mut j = i + 1;
    while j < b.len() && byte_is_cont(b[j])
        invariant
            b@ == bytes(text),
            i < j <= b@.len(),
            lead_at_or_after(b@, j as int) == lead_at_or_after(b@, i + 1),
            forall|k: int| i < k < j ==> is_cont(#[trigger] b@[k]),
        decreases b@.len() - j,
    {
        j += 1;
    }
    j
}

/// The last char boundary before `i`, or 0.
pub open spec fn prev_boundary(b: Seq<u8>, i: int) -> int {
    if i <= 0 {
        0
    } else {
        lead_at_or_before(b, i - 1)
    }
}

/// The last offset at or before `j` that is not a continuation byte, or 0.
pub open spec fn lead_at_or_before(b: Seq<u8>, j: int) -> int
    decreases j,
{
    if j <= 0 || !is_cont(b[j]) {
        j
    } else {
        lead_at_or_before(b, j - 1)
    }
}

pub proof fn lemma_lead_at_or_before(b: Seq<u8>, j: int)
    requires
        0 <= j < b.len(),
    ensures
        0 <= lead_at_or_before(b, j) <= j,
        lead_at_or_before(b, j) == 0 || !is_cont(b[lead_at_or_before(b, j)]),
    decreases j,
{
    if !(j <= 0 || !is_cont(b[j])) {
        lemma_lead_at_or_before(b, j - 1);
    }
}

/// Byte offset one character left of `i`, clamped to 0.
pub fn prev_char(text: &str, i: usize) -> (r: usize)
    requires
        is_boundary(bytes(text), i as int),
    ensures
        r == prev_boundary(bytes(text), i as int),
        i == 0 ==> r == 0,
        i > 0 ==> r < i && is_boundary(bytes(text), r as int) && forall|j: int|
            r < j < i ==> is_cont(#[trigger] bytes(text)[j]),
{
    let b = text.as_bytes();
    if i == 0 {
        return 0;
    }
    let mut j = i - 1;
    while j > 0 && byte_is_cont(b[j])
        invariant
            b@ == bytes(text),
            0 <= j < i <= b@.len(),
            lead_at_or_before(b@, j as int) == lead_at_or_before(b@, i - 1),
            forall|k: int| j < k < i ==> is_cont(#[trigger] b@[k]),
        decreases j,
    {
        j -= 1;
    }
    j
}

/// The offset `n` chars right of `i`: [`next_boundary`] taken `n` times.
pub open spec fn nth_boundary(b: Seq<u8>, i: int, n: nat) -> int
    decreases n,
{
    if n == 0 {
        i
    } else {
        nth_boundary(b, next_boundary(b, i), (n - 1) as nat)
    }
}

pub proof fn lemma_nth_boundary_grows(b: Seq<u8>, i: int, n: nat)
    requires
        0 <= i,
    ensures
        i <= nth_boundary(b, i, n),
    decreases n,
{
    if n > 0 {
        if i < b.len() {
            lemma_lead_at_or_after(b, i + 1);
        }
        lemma_nth_boundary_grows(b, next_boundary(b, i), (n - 1) as nat);
    }
}

/// Byte offset `col` chars into the text from `start`, clamped to `end` (so a
/// shorter target line lands the caret at its end).
pub fn advance_chars(text: &str, start: usize, col: usize, end: usize) -> (r: usize)
    requires
        col > 0 && start < end ==> is_boundary(bytes(text), start as int),
    ensures
        r == if nth_boundary(bytes(text), start as int, col as nat) < end {
            nth_boundary(bytes(text), start as int, col as nat)
        } else {
            end as int
        },
        is_boundary(bytes(text), start as int) && is_boundary(bytes(text), end as int)
            ==> is_boundary(bytes(text), r as int),
{
    let ghost b = bytes(text);
    let mut pos = start;
    let mut t: usize = 0;
    while t < col
        invariant
            b == bytes(text),
            t <= col,
            col > 0 && start < end ==> is_boundary(b, start as int),
            t == 0 ==> pos == start,
            t > 0 ==> is_boundary(b, pos as int),
            nth_boundary(b, start as int, col as nat) == nth_boundary(
                b,
                pos as int,
                (col - t) as nat,
            ),
        decreases col - t,
    {
        if pos >= end {
            proof {
                lemma_nth_boundary_grows(b, pos as int, (col - t) as nat);
            }
            return end;
        }
        pos = next_char(text, pos);
        t += 1;
    }
    if pos < end {
        pos
    } else {
        end
    }
}

/// The end of the run of bytes from `i` on that are whitespace (`ws`) or are
/// not (`!ws`).
pub open spec fn run_end(b: Seq<u8>, i: int, ws: bool) -> int
    decreases b.len() - i,
{
    if i >= b.len() || is_ascii_ws(b[i]) != ws {
        i
    } else {
        run_end(b, i + 1, ws)
    }
}

/// The start of the run of bytes ending just before `i` that are whitespace
/// (`ws`) or are not (`!ws`).
pub open spec fn run_start(b: Seq<u8>, i: int, ws: bool) -> int
    decreases i,
{
    if i <= 0 || is_ascii_ws(b[i - 1]) != ws {
        i
    } else {
        run_start(b, i - 1, ws)
    }
}

/// What [`run_end`] is: the first offset from `i` on whose byte leaves the run.
pub proof fn lemma_run_end(b: Seq<u8>, i: int, ws: bool)
    requires
        0 <= i,
    ensures
        i <= run_end(b, i, ws),
        run_end(b, i, ws) <= b.len() || run_end(b, i, ws) == i,
        run_end(b, i, ws) < b.len() ==> is_ascii_ws(b[run_end(b, i, ws)]) != ws,
        forall|j: int| i <= j < run_end(b, i, ws) ==> is_ascii_ws(#[trigger] b[j]) == ws,
    decreases b.len() - i,
{
    if !(i >= b.len() || is_ascii_ws(b[i]) != ws) {
        lemma_run_end(b, i + 1, ws);
    }
}

/// What [`run_start`] is: the offset after the last byte before `i` that
/// leaves the run, or 0.
pub proof fn lemma_run_start(b: Seq<u8>, i: int, ws: bool)
    requires
        0 <= i <= b.len(),
    ensures
        0 <= run_start(b, i, ws) <= i,
        run_start(b, i, ws) > 0 ==> is_ascii_ws(b[run_start(b, i, ws) - 1]) != ws,
        forall|j: int| run_start(b, i, ws) <= j < i ==> is_ascii_ws(#[trigger] b[j]) == ws,
    decreases i,
{
    if !(i <= 0 || is_ascii_ws(b[i - 1]) != ws) {
        lemma_run_start(b, i - 1, ws);
    }
}

/// Start of the next whitespace-delimited word after `from`: past the rest of
/// the current word, then past the whitespace after it.
pub fn word_forward_pos(text: &str, from: usize) -> (r: usize)
    ensures
        r == run_end(bytes(text), run_end(bytes(text), from as int, false), true),
        from <= bytes(text).len() ==> is_boundary(bytes(text), r as int),
{
    let b = text.as_bytes();
    let n = b.len();
    let mut i = from;
    while i < n && !byte_is_ascii_ws(b[i])
        invariant
            b@ == bytes(text),
            n == b@.len(),
            from <= i,
            i <= n || i == from,
            run_end(b@, i as int, false) == run_end(b@, from as int, false),
        decreases n - i,
    {
        i += 1;
    }
    let ghost mid = i;
    while i < n && byte_is_ascii_ws(b[i])
        invariant
            b@ == bytes(text),
            n == b@.len(),
            mid <= i,
            i <= n || i == mid,
            mid == run_end(b@, from as int, false),
            run_end(b@, i as int, true) == run_end(b@, mid as int, true),
        decreases n - i,
    {
        i += 1;
    }
    proof {
        if from <= n {
            lemma_run_end(b@, from as int, false);
            lemma_run_end(b@, mid as int, true);
            if i < n && i > 0 {
                if i == mid {
                    assert(is_ascii_ws(b@[mid as int]));
                    assert(false);
                }
                assert(is_ascii_ws(b@[i - 1]));
                lemma_after_ascii(text@, i as int);
            }
        }
    }
    i
}

/// Start of the word at or before `from`: back over any whitespace, then to
/// the start of the word before it.
pub fn word_back_pos(text: &str, from: usize) -> (r: usize)
    requires
        from <= bytes(text).len(),
    ensures
        r == run_start(bytes(text), run_start(bytes(text), from as int, true), false),
        is_boundary(bytes(text), r as int),
{
    let b = text.as_bytes();
    let mut i = from;
    while i > 0 && byte_is_ascii_ws(b[i - 1])
        invariant
            b@ == bytes(text),
            i <= from <= b@.len(),
            run_start(b@, i as int, true) == run_start(b@, from as int, true),
        decreases i,
    {
        i -= 1;
    }
    let ghost mid = i;
    while i > 0 && !byte_is_ascii_ws(b[i - 1])
        invariant
            b@ == bytes(text),
            i <= mid <= b@.len(),
            mid == run_start(b@, from as int, true),
            run_start(b@, i as int, false) == run_start(b@, mid as int, false),
        decreases i,
    {
        i -= 1;
    }
    proof {
        if i > 0 {
            lemma_after_ascii(text@, i as int);
        }
    }
    i
}

/// The first offset at or after `i` whose byte begins a non-whitespace char,
/// or the end.
pub open spec fn first_word_lead(b: Seq<u8>, i: int) -> int
    decreases b.len() - i,
{
    if i >= b.len() || (!is_ascii_ws(b[i]) && !is_cont(b[i])) {
        i
    } else {
        first_word_lead(b, i + 1)
    }
}

/// Where vim `e` lands from `from`: the first char of the current or next
/// word after the caret char is found, and the offset of that word's last
/// char comes back; with no word after the caret char, `from` itself.
pub open spec fn word_end(b: Seq<u8>, from: int) -> int {
    let start = next_boundary(b, from);
    if start >= b.len() {
        from
    } else {
        let w = first_word_lead(b, start);
        if w >= b.len() {
            from
        } else {
            lead_at_or_before(b, run_end(b, w, false) - 1)
        }
    }
}

/// Byte offset of the last char of the current/next word — vim `e` lands the
/// caret on that char. Skips any leading whitespace (`\n` included, so it can
/// cross lines), then runs to the word's end.
pub fn word_end_pos(text: &str, from: usize) -> (r: usize)
    requires
        is_boundary(bytes(text), from as int),
    ensures
        r == word_end(bytes(text), from as int),
        is_boundary(bytes(text), r as int),
{
    let b = text.as_bytes();
    let start = next_char(text, from);
    if start >= b.len() {
        return from;
    }
    let mut last = from;
    let mut in_word = false;
    let mut j = start;
    while j < b.len() && !(in_word && byte_is_ascii_ws(b[j]))
        invariant
            b@ == bytes(text),
            start == next_boundary(b@, from as int),
            start <= j <= b@.len(),
            !in_word ==> last == from && first_word_lead(b@, start as int) == first_word_lead(
                b@,
                j as int,
            ),
            in_word ==> first_word_lead(b@, start as int) < j && run_end(
                b@,
                first_word_lead(b@, start as int),
                false,
            ) == run_end(b@, j as int, false) && last == lead_at_or_before(b@, j - 1),
        decreases b@.len() - j,
    {
        let c = b[j];
        if byte_is_ascii_ws(c) {
        } else if !byte_is_cont(c) {
            if !in_word {
                in_word = true;
            }
            last = j;
        }
        j += 1;
    }
    proof {
        if in_word {
            lemma_lead_at_or_before(b@, j - 1);
        }
    }
    last
}

/// The number of chars that begin in `b[a..z]`: its bytes that are not
/// continuation bytes.
pub open spec fn lead_count(b: Seq<u8>, a: int, z: int) -> nat
    decreases z - a,
{
    if z <= a {
        0
    } else {
        lead_count(b, a, z - 1) + if is_cont(b[z - 1]) {
            0nat
        } else {
            1nat
        }
    }
}

/// The caret's column: how many chars lie between its line start and it.
pub open spec fn column_of(b: Seq<u8>, caret: int) -> nat {
    lead_count(b, line_start_of(b, caret), caret)
}

/// The char count of `text[a..z]`.
pub fn count_chars(text: &str, a: usize, z: usize) -> (r: usize)
    requires
        a <= z <= bytes(text).len(),
    ensures
        r == lead_count(bytes(text), a as int, z as int),
{
    let b = text.as_bytes();
    let mut n: usize = 0;
    let mut i = a;
    while i < z
        invariant
            b@ == bytes(text),
            a <= i <= z <= b@.len(),
            n == lead_count(b@, a as int, i as int),
            n <= i - a,
        decreases z - i,
    {
        if !byte_is_cont(b[i]) {
            n += 1;
        }
        i += 1;
    }
    n
}

/// [`advance_chars`] as a value: `col` chars right of `start`, but no
/// further than `end`.
pub open spec fn advanced(b: Seq<u8>, start: int, col: nat, end: int) -> int {
    if nth_boundary(b, start, col) < end {
        nth_boundary(b, start, col)
    } else {
        end
    }
}

/// `h`: one char left, but not past the start of the line.
pub fn move_left(text: &str, caret: usize) -> (r: usize)
    requires
        is_boundary(bytes(text), caret as int),
    ensures
        r == if caret > line_start_of(bytes(text), caret as int) {
            prev_boundary(bytes(text), caret as int)
        } else {
            caret as int
        },
        is_boundary(bytes(text), r as int),
{
    if caret > line_start(text, caret) {
        prev_char(text, caret)
    } else {
        caret
    }
}

/// `l`: one char right, but not onto the line's `\n`.
pub fn move_right(text: &str, caret: usize) -> (r: usize)
    requires
        is_boundary(bytes(text), caret as int),
    ensures
        r == if caret < line_end_of(bytes(text), caret as int) {
            next_boundary(bytes(text), caret as int)
        } else {
            caret as int
        },
        is_boundary(bytes(text), r as int),
{
    if caret < line_end(text, caret) {
        next_char(text, caret)
    } else {
        caret
    }
}

/// `j`: the same column on the next line (its end if it is shorter); on the
/// last line the caret stays.
pub fn move_down(text: &str, caret: usize) -> (r: usize)
    requires
        is_boundary(bytes(text), caret as int),
    ensures
        r == ({
            let b = bytes(text);
            let le = line_end_of(b, caret as int);
            if le >= b.len() {
                caret as int
            } else {
                advanced(b, le + 1, column_of(b, caret as int), line_end_of(b, le + 1))
            }
        }),
        is_boundary(bytes(text), r as int),
{
    let ls = line_start(text, caret);
    let col = count_chars(text, ls, caret);
    let le = line_end(text, caret);
    if le >= text.as_bytes().len() {
        return caret;
    }
    let next_start = le + 1;
    proof {
        lemma_after_ascii(text@, next_start as int);
    }
    let next_end = line_end(text, next_start);
    proof {
        lemma_line_end_of(bytes(text), next_start as int);
    }
    advance_chars(text, next_start, col, next_end)
}

/// `k`: the same column on the previous line (its end if it is shorter); on
/// the first line the caret stays.
pub fn move_up(text: &str, caret: usize) -> (r: usize)
    requires
        is_boundary(bytes(text), caret as int),
    ensures
        r == ({
            let b = bytes(text);
            let ls = line_start_of(b, caret as int);
            if ls == 0 {
                caret as int
            } else {
                advanced(b, line_start_of(b, ls - 1), column_of(b, caret as int), ls - 1)
            }
        }),
        is_boundary(bytes(text), r as int),
{
    let ls = line_start(text, caret);
    if ls == 0 {
        return caret;
    }
    let col = count_chars(text, ls, caret);
    let prev_start = line_start(text, ls - 1);
    proof {
        if prev_start > 0 {
            lemma_after_ascii(text@, prev_start as int);
        }
    }
    let prev_end = ls - 1;
    advance_chars(text, prev_start, col, prev_end)
}

/// What [`line_end_of`] is: no newline from `pos` to it, and it is the end
/// of the text or a newline.
pub proof fn lemma_line_end_of(b: Seq<u8>, pos: int)
    requires
        0 <= pos <= b.len(),
    ensures
        pos <= line_end_of(b, pos) <= b.len(),
        line_end_of(b, pos) < b.len() ==> b[line_end_of(b, pos)] == 0x0Au8,
        forall|j: int| pos <= j < line_end_of(b, pos) ==> b[j] != 0x0Au8,
    decreases b.len() - pos,
{
    if !(pos >= b.len() || b[pos] == 0x0Au8) {
        lemma_line_end_of(b, pos + 1);
    }
}

// ---------------------------------------------------------------------------
// UTF-8 structure
// ---------------------------------------------------------------------------

/// The encoding of one char: `utf8_width(c)` bytes, a first byte that is no
/// continuation byte, continuation bytes after it; the first byte is ASCII
/// exactly when the char is, and is then the char itself.
pub proof fn lemma_encode_char(c: char)
    ensures
        encode_scalar(c as u32).len() == utf8_width(c),
        !is_cont(encode_scalar(c as u32)[0]),
        forall|j: int| 1 <= j < utf8_width(c) ==> is_cont(#[trigger] encode_scalar(c as u32)[j]),
        (encode_scalar(c as u32)[0] < 0x80) == ((c as u32) < 0x80),
        (c as u32) < 0x80 ==> encode_scalar(c as u32)[0] == (c as u32) as u8,
{
    vstd::utf8::char_is_scalar(c);
    let v = c as u32;
    let e = encode_scalar(v);
    if v <= 0x7F {
        assert((v & 0x7F) as u8 == v as u8 && ((v & 0x7F) as u8) < 0x80) by (bit_vector)
            requires
                v <= 0x7F,
        ;
    } else if v <= 0x7FF {
        let b0 = (0xC0u8 | ((v >> 6) & 0x1F) as u8);
        let b1 = (0x80u8 | (v & 0x3F) as u8);
        assert(0xC0 <= (0xC0u8 | ((v >> 6) & 0x1F) as u8) <= 0xDF) by (bit_vector);
        assert(0x80 <= (0x80u8 | (v & 0x3F) as u8) <= 0xBF) by (bit_vector);
        assert(e =~= seq![b0, b1]);
    } else if v <= 0xFFFF {
        let b0 = (0xE0u8 | ((v >> 12) & 0x0F) as u8);
        let b1 = (0x80u8 | ((v >> 6) & 0x3F) as u8);
        let b2 = (0x80u8 | (v & 0x3F) as u8);
        assert(0xE0 <= (0xE0u8 | ((v >> 12) & 0x0F) as u8) <= 0xEF) by (bit_vector);
        assert(0x80 <= (0x80u8 | ((v >> 6) & 0x3F) as u8) <= 0xBF) by (bit_vector);
        assert(0x80 <= (0x80u8 | (v & 0x3F) as u8) <= 0xBF) by (bit_vector);
        assert(e =~= seq![b0, b1, b2]);
    } else {
        let b0 = (0xF0u8 | ((v >> 18) & 0x7) as u8);
        let b1 = (0x80u8 | ((v >> 12) & 0x3F) as u8);
        let b2 = (0x80u8 | ((v >> 6) & 0x3F) as u8);
        let b3 = (0x80u8 | (v & 0x3F) as u8);
        assert(0xF0 <= (0xF0u8 | ((v >> 18) & 0x7) as u8) <= 0xF7) by (bit_vector);
        assert(0x80 <= (0x80u8 | ((v >> 12) & 0x3F) as u8) <= 0xBF) by (bit_vector);
        assert(0x80 <= (0x80u8 | ((v >> 6) & 0x3F) as u8) <= 0xBF) by (bit_vector);
        assert(0x80 <= (0x80u8 | (v & 0x3F) as u8) <= 0xBF) by (bit_vector);
        assert(e =~= seq![b0, b1, b2, b3]);
    }
}

proof fn lemma_encode_cons(s: Seq<char>)
    requires
        s.len() > 0,
    ensures
        encode_utf8(s) == encode_scalar(s[0] as u32) + encode_utf8(s.drop_first()),
        forall|k: int|
            1 <= k <= s.len() ==> s.take(k) =~= seq![s[0]] + #[trigger] s.drop_first().take(
                k - 1,
            ),
{
}

/// A byte offset of the text is a char boundary exactly when it is the byte
/// length of some prefix of its chars.
pub proof fn lemma_boundary_is_prefix(s: Seq<char>, i: int)
    requires
        0 <= i <= encode_utf8(s).len(),
    ensures
        is_boundary(encode_utf8(s), i) <==> exists|k: int|
            0 <= k <= s.len() && #[trigger] utf8_len(s.take(k)) == i,
    decreases s.len(),
{
    let b = encode_utf8(s);
    crate::text::lemma_utf8_len_encode(s);
    assert(s.take(0) =~= Seq::<char>::empty());
    assert(utf8_len(s.take(0)) == 0);
    if s.len() == 0 || i == 0 {
        assert(is_boundary(b, i) ==> utf8_len(s.take(0)) == i);
        return;
    }
    let c = s[0];
    let rest = s.drop_first();
    let w = utf8_width(c) as int;
    let r = encode_utf8(rest);
    lemma_encode_cons(s);
    lemma_encode_char(c);
    crate::text::lemma_utf8_len_encode(rest);
    assert forall|k: int| 1 <= k <= s.len() implies #[trigger] utf8_len(s.take(k)) == w
        + utf8_len(rest.take(k - 1)) by {
        crate::text::lemma_utf8_len_cons(c, rest.take(k - 1));
    }
    if i < w {
        assert(b[i] == encode_scalar(c as u32)[i]);
        assert(!is_boundary(b, i));
        if exists|k: int| 0 <= k <= s.len() && #[trigger] utf8_len(s.take(k)) == i {
            let k = choose|k: int| 0 <= k <= s.len() && #[trigger] utf8_len(s.take(k)) == i;
            assert(k >= 1);
            assert(utf8_len(s.take(k)) >= w);
        }
    } else {
        lemma_boundary_is_prefix(rest, i - w);
        if i < b.len() {
            assert(b[i] == r[i - w]);
        }
        if i == w && r.len() > 0 {
            lemma_encode_cons(rest);
            lemma_encode_char(rest[0]);
            assert(r[0] == encode_scalar(rest[0] as u32)[0]);
        }
        assert(is_boundary(b, i) == is_boundary(r, i - w));
        if is_boundary(b, i) {
            let k2 = choose|k: int| 0 <= k <= rest.len() && #[trigger] utf8_len(rest.take(k)) == i - w;
            assert(utf8_len(s.take(k2 + 1)) == i);
        } else {
            if exists|k: int| 0 <= k <= s.len() && #[trigger] utf8_len(s.take(k)) == i {
                let k = choose|k: int| 0 <= k <= s.len() && #[trigger] utf8_len(s.take(k)) == i;
                assert(k >= 1);
                assert(utf8_len(rest.take(k - 1)) == i - w);
            }
        }
    }
}

/// Byte `j` of the char at index `k` sits at offset `utf8_len(s.take(k)) + j`
/// of the encoding.
pub proof fn lemma_byte_of_char(s: Seq<char>, k: int, j: int)
    requires
        0 <= k < s.len(),
        0 <= j < utf8_width(s[k]),
    ensures
        utf8_len(s.take(k)) + j < encode_utf8(s).len(),
        encode_utf8(s)[utf8_len(s.take(k)) + j] == encode_scalar(s[k] as u32)[j],
    decreases k,
{
    let c = s[0];
    let rest = s.drop_first();
    lemma_encode_cons(s);
    lemma_encode_char(c);
    crate::text::lemma_utf8_len_encode(s);
    crate::text::lemma_utf8_len_encode(rest);
    crate::text::lemma_utf8_len_cons(c, rest);
    assert(seq![c] + rest =~= s);
    assert(s.take(0) =~= Seq::<char>::empty());
    if k == 0 {
        lemma_encode_char(s[0]);
        crate::text::lemma_utf8_len_mono(rest, 0, rest.len() as int);
        assert(rest.take(rest.len() as int) =~= rest);
        assert(rest.take(0) =~= Seq::<char>::empty());
    } else {
        lemma_byte_of_char(rest, k - 1, j);
        crate::text::lemma_utf8_len_cons(c, rest.take(k - 1));
        assert(rest[k - 1] == s[k]);
    }
}

/// The byte after an ASCII byte starts a char (or is the end).
pub proof fn lemma_after_ascii(s: Seq<char>, i: int)
    requires
        0 < i <= encode_utf8(s).len(),
        encode_utf8(s)[i - 1] < 0x80,
    ensures
        is_boundary(encode_utf8(s), i),
{
    let b = encode_utf8(s);
    lemma_boundary_is_prefix(s, i - 1);
    let k = choose|k: int| 0 <= k <= s.len() && #[trigger] utf8_len(s.take(k)) == i - 1;
    crate::text::lemma_utf8_len_encode(s);
    assert(s.take(s.len() as int) =~= s);
    if k >= s.len() {
        assert(false);
    }
    lemma_byte_of_char(s, k, 0);
    lemma_encode_char(s[k]);
    assert(s.take(k + 1).drop_last() =~= s.take(k));
    assert(utf8_len(s.take(k + 1)) == i);
    lemma_boundary_is_prefix(s, i);
}

/// The char index whose prefix is `i` bytes long, for a boundary `i`.
pub open spec fn char_at_offset(s: Seq<char>, i: int) -> int {
    choose|k: int| 0 <= k <= s.len() && #[trigger] utf8_len(s.take(k)) == i
}

/// Distinct prefixes have distinct byte lengths.
pub proof fn lemma_prefix_len_injective(s: Seq<char>, k1: int, k2: int)
    requires
        0 <= k1 <= s.len(),
        0 <= k2 <= s.len(),
        utf8_len(s.take(k1)) == utf8_len(s.take(k2)),
    ensures
        k1 == k2,
{
    if k1 < k2 {
        crate::text::lemma_utf8_len_mono(s, k1, k2);
    } else if k2 < k1 {
        crate::text::lemma_utf8_len_mono(s, k2, k1);
    }
}

/// The byte length of a concatenation is the sum of the parts'.
pub proof fn lemma_utf8_len_concat(a: Seq<char>, b: Seq<char>)
    ensures
        utf8_len(a + b) == utf8_len(a) + utf8_len(b),
    decreases b.len(),
{
    if b.len() > 0 {
        lemma_utf8_len_concat(a, b.drop_last());
        assert((a + b).drop_last() =~= a + b.drop_last());
        assert((a + b).last() == b.last());
    } else {
        assert(a + b =~= a);
    }
}

/// The char index of the boundary byte offset `i` of `text`, whose chars are
/// `v`.
pub fn char_index(text: &str, v: &Vec<char>, i: usize) -> (k: usize)
    requires
        v@ == text@,
        is_boundary(bytes(text), i as int),
    ensures
        k <= v@.len(),
        utf8_len(v@.take(k as int)) == i,
        k == char_at_offset(v@, i as int),
{
    proof {
        lemma_boundary_is_prefix(text@, i as int);
        crate::text::lemma_utf8_len_encode(text@);
        assert(v@.take(v@.len() as int) =~= v@);
        assert(v@.take(0) =~= Seq::<char>::empty());
    }
    let ghost target = choose|k: int| 0 <= k <= v@.len() && #[trigger] utf8_len(v@.take(k)) == i;
    let n = v.len();
    let mut k: usize = 0;
    let mut acc: usize = 0;
    while acc < i
        invariant
            v@ == text@,
            n == v@.len(),
            k <= v@.len(),
            0 <= target <= v@.len(),
            utf8_len(v@.take(target)) == i,
            acc == utf8_len(v@.take(k as int)),
            acc <= i,
            k <= target,
        decreases i - acc,
    {
        proof {
            if k == target {
                assert(false);
            }
            crate::text::lemma_utf8_len_mono(v@, k + 1, target);
            assert(v@.take(k + 1).drop_last() =~= v@.take(k as int));
        }
        acc = acc + crate::text::char_utf8_width(v[k]);
        k += 1;
    }
    proof {
        lemma_prefix_len_injective(v@, k as int, target);
    }
    k
}

} // verus!
