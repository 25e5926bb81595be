//! The writing column's geometry: soft-wrapping the buffer into display rows,
//! the line-number gutter, the caret's row and column, and scrolling.

use vstd::prelude::*;
use crate::motions::{bytes, is_boundary, lead_count};
use crate::text::{utf8_len, utf8_width};

verus! {

/// Writing-region width in characters: the line-number gutter and the text
/// column together (the gutter takes its share from it).
pub const WRITE_COLS: usize = 63;

/// Minimum digit columns in the line-number gutter (before its separator).
pub const GUTTER_MIN_DIGITS: usize = 2;

/// Visible writing rows: the 272 px panel in 20 px rows.
pub const ROWS: usize = 13;

/// Half-page scroll distance for `Ctrl-d`/`Ctrl-u`, in display rows.
pub const HALF_PAGE: usize = 6;

/// One wrapped display line: its text and the byte offset in the buffer of
/// its first char.
pub struct Line {
    pub start: usize,
    pub text: String,
}

/// The char index of the end of the logical line holding char `k`: the next
/// `\n`, or the end.
pub open spec fn char_line_end(s: Seq<char>, k: int) -> int
    decreases s.len() - k,
{
    if k >= s.len() || s[k] == '\n' {
        k
    } else {
        char_line_end(s, k + 1)
    }
}

proof fn lemma_char_line_end(s: Seq<char>, k: int)
    requires
        0 <= k <= s.len(),
    ensures
        k <= char_line_end(s, k) <= s.len(),
        char_line_end(s, k) < s.len() ==> s[char_line_end(s, k)] == '\n',
        forall|j: int| k <= j < char_line_end(s, k) ==> s[j] != '\n',
    decreases s.len() - k,
{
    if !(k >= s.len() || s[k] == '\n') {
        lemma_char_line_end(s, k + 1);
    }
}

/// The last space in `l[lo..hi]`.
pub open spec fn last_space(l: Seq<char>, lo: int, hi: int) -> Option<int>
    decreases hi - lo,
{
    if hi <= lo {
        None
    } else if l[hi - 1] == ' ' {
        Some(hi - 1)
    } else {
        last_space(l, lo, hi - 1)
    }
}

/// How many chars of the logical line `l` the row starting at char `c`
/// takes: the rest if it fits in `cols`; else up to and including the last
/// space within the `cols`-wide window (not one at the row's very start);
/// else a hard break at `cols`.
pub open spec fn row_len(l: Seq<char>, c: int, cols: int) -> int {
    if l.len() - c <= cols {
        l.len() - c
    } else {
        match last_space(l, c, c + cols) {
            Some(sp) => if sp > c {
                sp + 1 - c
            } else {
                cols
            },
            None => cols,
        }
    }
}

/// The rows of the logical line `l` from char `c` on, as (byte offset, text)
/// pairs, the line starting at byte offset `base`.
pub open spec fn rows_of(l: Seq<char>, c: int, base: int, cols: int) -> Seq<(int, Seq<char>)>
    decreases l.len() - c,
{
    if c >= l.len() || cols <= 0 {
        Seq::empty()
    } else {
        let t = row_len(l, c, cols);
        if t <= 0 || c + t > l.len() {
            Seq::empty()
        } else {
            seq![(base + utf8_len(l.take(c)), l.subrange(c, c + t))] + rows_of(l, c + t, base, cols)
        }
    }
}

/// The rows of one logical line starting at byte offset `base`: one empty
/// row for an empty line.
pub open spec fn wrap_line(l: Seq<char>, base: int, cols: int) -> Seq<(int, Seq<char>)> {
    if l.len() == 0 {
        seq![(base, Seq::<char>::empty())]
    } else {
        rows_of(l, 0, base, cols)
    }
}

/// The display rows of `s` from the logical line starting at char `k` on.
pub open spec fn layout_from(s: Seq<char>, k: int, cols: int) -> Seq<(int, Seq<char>)>
    decreases s.len() - k,
{
    if k < 0 || k > s.len() {
        Seq::empty()
    } else {
        let le = char_line_end(s, k);
        let rows = wrap_line(s.subrange(k, le), utf8_len(s.take(k)) as int, cols);
        if le >= s.len() || le < k {
            rows
        } else {
            rows + layout_from(s, le + 1, cols)
        }
    }
}

/// The display rows of the buffer `s` wrapped to `cols` columns.
pub open spec fn layout_spec(s: Seq<char>, cols: int) -> Seq<(int, Seq<char>)> {
    layout_from(s, 0, cols)
}

/// The (byte offset, text) of each of `lines`.
pub open spec fn line_views(lines: Seq<Line>) -> Seq<(int, Seq<char>)> {
    Seq::new(lines.len(), |i: int| (lines[i].start as int, lines[i].text@))
}

proof fn lemma_row_len(l: Seq<char>, c: int, cols: int)
    requires
        0 <= c < l.len(),
        cols > 0,
    ensures
        1 <= row_len(l, c, cols) <= l.len() - c,
        row_len(l, c, cols) <= cols,
{
    if l.len() - c > cols {
        lemma_last_space(l, c, c + cols);
    }
}

proof fn lemma_last_space(l: Seq<char>, lo: int, hi: int)
    requires
        0 <= lo <= hi <= l.len(),
    ensures
        last_space(l, lo, hi) matches Some(sp) ==> lo <= sp < hi && l[sp] == ' ' && forall|j: int|
            sp < j < hi ==> l[j] != ' ',
        last_space(l, lo, hi) is None ==> forall|j: int| lo <= j < hi ==> l[j] != ' ',
    decreases hi - lo,
{
    if hi > lo && l[hi - 1] != ' ' {
        lemma_last_space(l, lo, hi - 1);
    }
}

/// The byte length of `v[a..b]`.
fn bytes_of_chars(v: &Vec<char>, a: usize, b: usize) -> (r: usize)
    requires
        a <= b <= v@.len(),
        utf8_len(v@) <= usize::MAX,
    ensures
        r == utf8_len(v@.subrange(a as int, b as int)),
        utf8_len(v@.take(a as int)) + r == utf8_len(v@.take(b as int)),
{
    let mut r: usize = 0;
    let mut i = a;
    proof {
        assert(v@.subrange(a as int, a as int) =~= Seq::<char>::empty());
        crate::motions::lemma_utf8_len_concat(v@.take(a as int), v@.subrange(a as int, a as int));
        assert(v@.take(a as int) + v@.subrange(a as int, a as int) =~= v@.take(a as int));
    }
    while i < b
        invariant
            a <= i <= b <= v@.len(),
            utf8_len(v@) <= usize::MAX,
            r == utf8_len(v@.subrange(a as int, i as int)),
            utf8_len(v@.take(a as int)) + r == utf8_len(v@.take(i as int)),
        decreases b - i,
    {
        proof {
            assert(v@.subrange(a as int, i + 1).drop_last() =~= v@.subrange(a as int, i as int));
            assert(v@.take(i + 1).drop_last() =~= v@.take(i as int));
            crate::text::lemma_utf8_len_mono(v@, i + 1, v@.len() as int);
            assert(v@.take(v@.len() as int) =~= v@);
        }
        r = r + crate::text::char_utf8_width(v[i]);
        i += 1;
    }
    r
}

/// The row length of the row starting at char `c` of `l`.
fn row_len_exec(l: &Vec<char>, c: usize, cols: usize) -> (t: usize)
    requires
        c < l@.len(),
        cols > 0,
    ensures
        t == row_len(l@, c as int, cols as int),
{
    let remaining = l.len() - c;
    if remaining <= cols {
        return remaining;
    }
    let window = c + cols;
    let mut p = window;
    while p > c
        invariant
            c <= p <= window < l@.len(),
            window == c + cols,
            cols > 0,
            l@.len() - c > cols,
            last_space(l@, c as int, window as int) == last_space(l@, c as int, p as int),
        decreases p,
    {
        if l[p - 1] == ' ' {
            let sp = p - 1;
            if sp > c {
                return sp + 1 - c;
            }
            return cols;
        }
        p -= 1;
    }
    cols
}

/// Push the rows of the logical line `l` (starting at byte offset `base` of
/// the buffer) onto `out`.
fn push_rows(out: &mut Vec<Line>, l: &Vec<char>, base: usize, cols: usize)
    requires
        cols > 0,
        base + utf8_len(l@) <= usize::MAX,
    ensures
        line_views(final(out)@) == line_views(old(out)@) + wrap_line(l@, base as int, cols as int),
{
    if l.len() == 0 {
        let ghost o = line_views(out@);
        out.push(Line { start: base, text: String::new() });
        proof {
            assert(line_views(out@) =~= o + wrap_line(l@, base as int, cols as int));
        }
        return;
    }
    let ghost o = line_views(out@);
    proof {
        crate::text::lemma_utf8_len_mono(l@, 0, l@.len() as int);
        assert(l@.take(l@.len() as int) =~= l@);
        assert(l@.take(0) =~= Seq::<char>::empty());
    }
    let mut c: usize = 0;
    let mut byte: usize = 0;
    while c < l.len()
        invariant
            cols > 0,
            c <= l@.len(),
            l@.len() > 0,
            base + utf8_len(l@) <= usize::MAX,
            byte == utf8_len(l@.take(c as int)),
            line_views(out@) + rows_of(l@, c as int, base as int, cols as int) == o + wrap_line(
                l@,
                base as int,
                cols as int,
            ),
        decreases l@.len() - c,
    {
        let t = row_len_exec(l, c, cols);
        proof {
            lemma_row_len(l@, c as int, cols as int);
            crate::text::lemma_utf8_len_mono(l@, c as int, l@.len() as int);
            crate::text::lemma_utf8_len_mono(l@, (c + t) as int, l@.len() as int);
            assert(l@.take(l@.len() as int) =~= l@);
        }
        let piece = crate::text::slice_of(l.as_slice(), c, c + t);
        let w = bytes_of_chars(l, c, c + t);
        let ghost before = line_views(out@);
        out.push(Line { start: base + byte, text: crate::text::string_of(piece.as_slice()) });
        proof {
            assert(line_views(out@) =~= before.push(
                (base + utf8_len(l@.take(c as int)), l@.subrange(c as int, c + t)),
            ));
            assert(rows_of(l@, c as int, base as int, cols as int) == seq![
                (base + utf8_len(l@.take(c as int)), l@.subrange(c as int, c + t)),
            ] + rows_of(l@, c + t, base as int, cols as int));
            assert(line_views(out@) + rows_of(l@, c + t, base as int, cols as int) =~= before
                + rows_of(l@, c as int, base as int, cols as int));
        }
        byte = byte + w;
        c = c + t;
    }
    proof {
        assert(rows_of(l@, c as int, base as int, cols as int) =~= Seq::<(int, Seq<char>)>::empty());
        assert(line_views(out@) + Seq::<(int, Seq<char>)>::empty() =~= line_views(out@));
    }
}

/// Wrap the buffer into display rows, each with the byte offset of its first
/// char. A logical line too long for `cols` breaks after the last space that
/// fits, so words are never split — except a single word wider than the
/// column, hard-broken at `cols`. Wrapping counts chars (one per cell); the
/// offsets are bytes, so caret math stays right for multi-byte chars.
pub fn layout(text: &str, cols: usize) -> (r: Vec<Line>)
    requires
        cols > 0,
    ensures
        line_views(r@) == layout_spec(text@, cols as int),
{
    let v = crate::text::chars_of(text);
    let n = v.len();
    proof {
        crate::text::lemma_utf8_len_encode(text@);
    }
    let total = crate::text::str_byte_len(text);
    let mut out: Vec<Line> = Vec::new();
    let mut k: usize = 0;
    let mut kb: usize = 0;
    proof {
        assert(v@.take(0) =~= Seq::<char>::empty());
    }
    loop
        invariant
            v@ == text@,
            n == v@.len(),
            cols > 0,
            total == utf8_len(v@),
            k <= n,
            kb == utf8_len(v@.take(k as int)),
            line_views(out@) + layout_from(v@, k as int, cols as int) == layout_spec(
                text@,
                cols as int,
            ),
        decreases n - k,
    {
        let mut le = k;
        while le < n && v[le] != '\n'
            invariant
                k <= le <= n,
                n == v@.len(),
                char_line_end(v@, le as int) == char_line_end(v@, k as int),
            decreases n - le,
        {
            le += 1;
        }
        proof {
            lemma_char_line_end(v@, k as int);
            crate::text::lemma_utf8_len_mono(v@, k as int, n as int);
            crate::text::lemma_utf8_len_mono(v@, le as int, n as int);
            assert(v@.take(n as int) =~= v@);
        }
        let line = crate::text::slice_of(v.as_slice(), k, le);
        let w = bytes_of_chars(&v, k, le);
        proof {
            assert(line@ == v@.subrange(k as int, le as int));
            assert(utf8_len(line@) == w);
        }
        let ghost before = line_views(out@);
        push_rows(&mut out, &line, kb, cols);
        if le >= n {
            proof {
                assert(layout_from(v@, k as int, cols as int) == wrap_line(
                    v@.subrange(k as int, le as int),
                    kb as int,
                    cols as int,
                ));
            }
            return out;
        }
        proof {
            assert(layout_from(v@, k as int, cols as int) == wrap_line(
                v@.subrange(k as int, le as int),
                kb as int,
                cols as int,
            ) + layout_from(v@, le + 1, cols as int));
            assert(line_views(out@) + layout_from(v@, le + 1, cols as int) =~= before
                + layout_from(v@, k as int, cols as int));
            crate::text::lemma_utf8_len_mono(v@, le + 1, n as int);
            assert(v@.take(le + 1).drop_last() =~= v@.take(le as int));
        }
        kb = kb + w + 1;
        k = le + 1;
    }
}

// ---------------------------------------------------------------------------
// Gutter
// ---------------------------------------------------------------------------

/// The number of newline bytes in `b`.
pub open spec fn newline_count(b: Seq<u8>) -> nat
    decreases b.len(),
{
    if b.len() == 0 {
        0
    } else {
        newline_count(b.drop_last()) + if b.last() == 0x0Au8 {
            1nat
        } else {
            0nat
        }
    }
}

/// Number of logical lines in the buffer: one more than its newlines.
pub fn logical_lines(text: &str) -> (r: usize)
    requires
        bytes(text).len() < usize::MAX,
    ensures
        r == newline_count(bytes(text)) + 1,
{
    let b = text.as_bytes();
    let mut n: usize = 0;
    let mut i: usize = 0;
    while i < b.len()
        invariant
            b@ == bytes(text),
            i <= b@.len() < usize::MAX,
            n == newline_count(b@.take(i as int)),
            n <= i,
        decreases b@.len() - i,
    {
        proof {
            assert(b@.take(i + 1).drop_last() =~= b@.take(i as int));
        }
        if b[i] == 0x0Au8 {
            n += 1;
        }
        i += 1;
    }
    proof {
        assert(b@.take(b@.len() as int) =~= b@);
    }
    n + 1
}

pub open spec fn pow10(k: nat) -> nat
    decreases k,
{
    if k == 0 {
        1
    } else {
        10 * pow10((k - 1) as nat)
    }
}

proof fn lemma_dec_len(n: nat, k: nat)
    requires
        k >= 1,
        n < pow10(k),
    ensures
        crate::text::dec(n).len() <= k,
    decreases k,
{
    if n >= 10 {
        assert(k >= 2) by {
            if k == 1 {
                assert(pow10(1) == 10) by {
                    reveal_with_fuel(pow10, 2);
                }
            }
        }
        assert(n / 10 < pow10((k - 1) as nat)) by (nonlinear_arith)
            requires
                n < 10 * pow10((k - 1) as nat),
        ;
        lemma_dec_len(n / 10, (k - 1) as nat);
    }
}

/// Width of the line-number gutter in columns: enough digits for the
/// buffer's largest line number (at least [`GUTTER_MIN_DIGITS`]) plus a
/// one-column separator; 0 when line numbers are off.
pub fn gutter_cols(text: &str, line_numbers: bool) -> (r: usize)
    requires
        bytes(text).len() < usize::MAX,
    ensures
        r == if line_numbers {
            let d = crate::text::dec((newline_count(bytes(text)) + 1) as nat).len();
            (if d < GUTTER_MIN_DIGITS {
                GUTTER_MIN_DIGITS as int
            } else {
                d as int
            }) + 1
        } else {
            0
        },
        r <= 21,
{
    if !line_numbers {
        return 0;
    }
    let lines = logical_lines(text);
    let mut digits_v: Vec<char> = Vec::new();
    crate::text::push_dec(&mut digits_v, lines);
    proof {
        assert(digits_v@ =~= crate::text::dec(lines as nat));
        assert(pow10(20) == 100000000000000000000) by {
            reveal_with_fuel(pow10, 21);
        }
        lemma_dec_len(lines as nat, 20);
    }
    let d = digits_v.len();
    let digits = if d < GUTTER_MIN_DIGITS {
        GUTTER_MIN_DIGITS
    } else {
        d
    };
    digits + 1
}

/// Columns left for text once the gutter is reserved.
pub fn text_cols(text: &str, line_numbers: bool) -> (r: usize)
    requires
        bytes(text).len() < usize::MAX,
    ensures
        r == WRITE_COLS - (if line_numbers {
            let d = crate::text::dec((newline_count(bytes(text)) + 1) as nat).len();
            (if d < GUTTER_MIN_DIGITS {
                GUTTER_MIN_DIGITS as int
            } else {
                d as int
            }) + 1
        } else {
            0
        }),
        r > 0,
{
    WRITE_COLS - gutter_cols(text, line_numbers)
}

// ---------------------------------------------------------------------------
// Caret and scrolling
// ---------------------------------------------------------------------------

/// The last of the first `n` rows of `ls` starting at or before byte `pos`,
/// or 0 when none does.
pub open spec fn row_at(ls: Seq<(int, Seq<char>)>, pos: int, n: int) -> int
    decreases n,
{
    if n <= 0 {
        0
    } else if ls[n - 1].0 <= pos {
        n - 1
    } else {
        row_at(ls, pos, n - 1)
    }
}

fn row_at_exec(lay: &Vec<Line>, pos: usize) -> (r: usize)
    ensures
        r == row_at(line_views(lay@), pos as int, lay@.len() as int),
        lay@.len() > 0 ==> r < lay@.len(),
{
    let mut n = lay.len();
    while n > 0
        invariant
            n <= lay@.len(),
            row_at(line_views(lay@), pos as int, lay@.len() as int) == row_at(
                line_views(lay@),
                pos as int,
                n as int,
            ),
        decreases n,
    {
        if lay[n - 1].start <= pos {
            return n - 1;
        }
        n -= 1;
    }
    0
}

/// Display (row, col) of the caret within the rows `lay`: the last row
/// starting at or before it, and the number of chars from that row's start
/// to the caret.
pub fn caret_rc(text: &str, lay: &Vec<Line>, caret: usize) -> (r: (usize, usize))
    requires
        lay@.len() > 0,
        lay@[0].start <= caret <= bytes(text).len(),
    ensures
        r.0 == row_at(line_views(lay@), caret as int, lay@.len() as int),
        r.1 == lead_count(bytes(text), lay@[r.0 as int].start as int, caret as int),
{
    let row = row_at_exec(lay, caret);
    proof {
        lemma_row_at(line_views(lay@), caret as int, lay@.len() as int);
    }
    let col = crate::motions::count_chars(text, lay[row].start, caret);
    (row, col)
}

proof fn lemma_row_at(ls: Seq<(int, Seq<char>)>, pos: int, n: int)
    requires
        0 < n <= ls.len(),
        ls[0].0 <= pos,
    ensures
        0 <= row_at(ls, pos, n) < n,
        ls[row_at(ls, pos, n)].0 <= pos,
    decreases n,
{
    if n > 1 && !(ls[n - 1].0 <= pos) {
        lemma_row_at(ls, pos, n - 1);
    }
}

/// Where the viewport's top row goes so that the row holding byte `pos`
/// shows: scrolled down to bottom-align it when it sits below the viewport,
/// never up.
pub fn scroll_to_reveal(text: &str, cols: usize, scroll_top: usize, pos: usize) -> (r: usize)
    requires
        cols > 0,
        scroll_top + ROWS <= usize::MAX,
    ensures
        ({
            let lay = layout_spec(text@, cols as int);
            let p = if pos <= bytes(text).len() {
                pos as int
            } else {
                bytes(text).len() as int
            };
            let row = row_at(lay, p, lay.len() as int);
            r == if lay.len() > 0 && row >= scroll_top + ROWS {
                row + 1 - ROWS
            } else {
                scroll_top as int
            }
        }),
{
    let lay = layout(text, cols);
    if lay.len() == 0 {
        return scroll_top;
    }
    let n = text.as_bytes().len();
    let p = if pos <= n {
        pos
    } else {
        n
    };
    let row = row_at_exec(&lay, p);
    if row >= scroll_top + ROWS {
        row + 1 - ROWS
    } else {
        scroll_top
    }
}

/// Where the viewport's top row goes after a draw: in View mode it is only
/// clamped to the content; otherwise it moves just enough for the caret's row
/// to show.
pub fn adjust_scroll(view_mode: bool, scroll_top: usize, caret_row: usize, total: usize) -> (r:
    usize)
    requires
        scroll_top + ROWS <= usize::MAX,
        caret_row < usize::MAX,
    ensures
        r == if view_mode {
            let max = if total >= ROWS {
                total - ROWS
            } else {
                0
            };
            if scroll_top > max {
                max
            } else {
                scroll_top as int
            }
        } else if caret_row < scroll_top {
            caret_row as int
        } else if caret_row >= scroll_top + ROWS {
            caret_row + 1 - ROWS
        } else {
            scroll_top as int
        },
{
    if view_mode {
        let max = total.saturating_sub(ROWS);
        if scroll_top > max {
            max
        } else {
            scroll_top
        }
    } else if caret_row < scroll_top {
        caret_row
    } else if caret_row >= scroll_top + ROWS {
        caret_row + 1 - ROWS
    } else {
        scroll_top
    }
}

/// The end of the run of `#` bytes from `i` on.
pub open spec fn hash_run_end(b: Seq<u8>, i: int) -> int
    decreases b.len() - i,
{
    if i >= b.len() || b[i] != 0x23u8 {
        i
    } else {
        hash_run_end(b, i + 1)
    }
}

/// Whether the logical line starting at `ls` is a Markdown ATX heading:
/// one to six `#` followed by a space.
pub fn is_heading_at(text: &str, ls: usize) -> (r: bool)
    ensures
        r == ({
            let b = bytes(text);
            let e = hash_run_end(b, ls as int);
            1 <= e - ls <= 6 && e < b.len() && b[e] == 0x20u8
        }),
{
    let b = text.as_bytes();
    let mut i = ls;
    while i < b.len() && b[i] == 0x23u8
        invariant
            b@ == bytes(text),
            ls <= i,
            i <= b@.len() || i == ls,
            hash_run_end(b@, i as int) == hash_run_end(b@, ls as int),
        decreases b@.len() - i,
    {
        i += 1;
    }
    let hashes = i - ls;
    1 <= hashes && hashes <= 6 && i < b.len() && b[i] == 0x20u8
}

// ---------------------------------------------------------------------------
// Laws of the wrap
// ---------------------------------------------------------------------------

/// The texts of `rows`, run together.
pub open spec fn row_texts(rows: Seq<(int, Seq<char>)>) -> Seq<char>
    decreases rows.len(),
{
    if rows.len() == 0 {
        Seq::empty()
    } else {
        rows[0].1 + row_texts(rows.drop_first())
    }
}

proof fn lemma_rows_of_parts(l: Seq<char>, c: int, base: int, cols: int)
    requires
        cols > 0,
        0 <= c < l.len(),
    ensures
        rows_of(l, c, base, cols).len() > 0,
        rows_of(l, c, base, cols)[0].1 == l.subrange(c, c + row_len(l, c, cols)),
        rows_of(l, c, base, cols).drop_first() == rows_of(l, c + row_len(l, c, cols), base, cols),
{
    lemma_row_len(l, c, cols);
    let t = row_len(l, c, cols);
    let rest = rows_of(l, c + t, base, cols);
    assert(rows_of(l, c, base, cols) == seq![(base + utf8_len(l.take(c)), l.subrange(c, c + t))]
        + rest);
    assert((seq![(base + utf8_len(l.take(c)), l.subrange(c, c + t))] + rest).drop_first()
        =~= rest);
}

proof fn lemma_rows_keep_text(l: Seq<char>, c: int, base: int, cols: int)
    requires
        cols > 0,
        0 <= c <= l.len(),
    ensures
        row_texts(rows_of(l, c, base, cols)) == l.skip(c),
    decreases l.len() - c,
{
    if c >= l.len() {
        assert(l.skip(c) =~= Seq::<char>::empty());
    } else {
        lemma_rows_of_parts(l, c, base, cols);
        let t = row_len(l, c, cols);
        lemma_rows_keep_text(l, c + t, base, cols);
        assert(l.subrange(c, c + t) + l.skip(c + t) =~= l.skip(c));
    }
}

/// Wrapping a logical line loses and adds nothing: its rows' texts run
/// together are the line.
pub proof fn lemma_wrap_keeps_text(l: Seq<char>, base: int, cols: int)
    requires
        cols > 0,
    ensures
        row_texts(wrap_line(l, base, cols)) == l,
{
    if l.len() == 0 {
        let rows = wrap_line(l, base, cols);
        assert(rows.drop_first() =~= Seq::<(int, Seq<char>)>::empty());
        assert(row_texts(rows.drop_first()) == Seq::<char>::empty());
        assert(rows[0].1 == Seq::<char>::empty());
        assert(row_texts(rows) =~= l);
    } else {
        lemma_rows_keep_text(l, 0, base, cols);
        assert(l.skip(0) =~= l);
    }
}

proof fn lemma_rows_fit(l: Seq<char>, c: int, base: int, cols: int)
    requires
        cols > 0,
        0 <= c <= l.len(),
    ensures
        forall|i: int|
            0 <= i < rows_of(l, c, base, cols).len() ==> (#[trigger] rows_of(
                l,
                c,
                base,
                cols,
            )[i]).1.len() <= cols,
    decreases l.len() - c,
{
    if c < l.len() {
        lemma_rows_of_parts(l, c, base, cols);
        let t = row_len(l, c, cols);
        lemma_rows_fit(l, c + t, base, cols);
        lemma_row_len(l, c, cols);
        let rows = rows_of(l, c, base, cols);
        assert forall|i: int| 0 <= i < rows.len() implies (#[trigger] rows[i]).1.len() <= cols by {
            if i > 0 {
                assert(rows[i] == rows.drop_first()[i - 1]);
                assert(rows[i] == rows_of(l, c + t, base, cols)[i - 1]);
            }
        }
    }
}

proof fn lemma_wrap_fits(l: Seq<char>, base: int, cols: int)
    requires
        cols > 0,
    ensures
        forall|i: int|
            0 <= i < wrap_line(l, base, cols).len() ==> (#[trigger] wrap_line(l, base, cols)[i]).1.len()
                <= cols,
{
    if l.len() > 0 {
        lemma_rows_fit(l, 0, base, cols);
    } else {
        assert(wrap_line(l, base, cols) == seq![(base, Seq::<char>::empty())]);
    }
}

proof fn lemma_layout_fits(s: Seq<char>, k: int, cols: int)
    requires
        cols > 0,
    ensures
        forall|i: int|
            0 <= i < layout_from(s, k, cols).len() ==> (#[trigger] layout_from(s, k, cols)[i]).1.len()
                <= cols,
    decreases s.len() - k,
{
    if 0 <= k <= s.len() {
        let le = char_line_end(s, k);
        lemma_char_line_end(s, k);
        let l = s.subrange(k, le);
        let rows = wrap_line(l, utf8_len(s.take(k)) as int, cols);
        lemma_wrap_fits(l, utf8_len(s.take(k)) as int, cols);
        if le < s.len() {
            lemma_layout_fits(s, le + 1, cols);
            let all = layout_from(s, k, cols);
            let rest = layout_from(s, le + 1, cols);
            assert(all == rows + rest);
            assert forall|i: int| 0 <= i < all.len() implies (#[trigger] all[i]).1.len() <= cols by {
                if i >= rows.len() {
                    assert(all[i] == rest[i - rows.len()]);
                }
            }
        }
    }
}

/// No display row is wider than the column it is wrapped to.
pub proof fn lemma_layout_rows_fit(s: Seq<char>, cols: int)
    requires
        cols > 0,
    ensures
        forall|i: int|
            0 <= i < layout_spec(s, cols).len() ==> (#[trigger] layout_spec(s, cols)[i]).1.len()
                <= cols,
{
    lemma_layout_fits(s, 0, cols);
}

/// A row that does not end its logical line ends just after a space, unless
/// its window holds no space past its first char; then it is hard-broken at
/// exactly `cols` chars.
pub open spec fn breaks_at_a_space(t: Seq<char>, cols: int) -> bool {
    (t.len() > 0 && t.last() == ' ') || (t.len() == cols && forall|j: int|
        1 <= j < t.len() ==> t[j] != ' ')
}

proof fn lemma_rows_break(l: Seq<char>, c: int, base: int, cols: int)
    requires
        cols > 0,
        0 <= c <= l.len(),
    ensures
        forall|i: int|
            0 <= i < rows_of(l, c, base, cols).len() - 1 ==> breaks_at_a_space(
                (#[trigger] rows_of(l, c, base, cols)[i]).1,
                cols,
            ),
    decreases l.len() - c,
{
    if c < l.len() {
        lemma_rows_of_parts(l, c, base, cols);
        let t = row_len(l, c, cols);
        lemma_rows_break(l, c + t, base, cols);
        let rows = rows_of(l, c, base, cols);
        if l.len() - c > cols {
            lemma_last_space(l, c, c + cols);
            let r0 = l.subrange(c, c + t);
            assert(breaks_at_a_space(r0, cols)) by {
                match last_space(l, c, c + cols) {
                    Some(sp) => {
                        if sp > c {
                            assert(r0.last() == l[sp]);
                        } else {
                            assert forall|j: int| 1 <= j < r0.len() implies r0[j] != ' ' by {
                                assert(r0[j] == l[c + j]);
                            }
                        }
                    },
                    None => {
                        assert forall|j: int| 1 <= j < r0.len() implies r0[j] != ' ' by {
                            assert(r0[j] == l[c + j]);
                        }
                    },
                }
            }
        } else {
            assert(rows_of(l, c + t, base, cols) =~= Seq::<(int, Seq<char>)>::empty());
        }
        assert forall|i: int| 0 <= i < rows.len() - 1 implies breaks_at_a_space(
            (#[trigger] rows[i]).1,
            cols,
        ) by {
            if i > 0 {
                assert(rows[i] == rows.drop_first()[i - 1]);
            }
        }
    }
}

/// Words are never split across rows: every row of a logical line but its
/// last breaks at a space, or is a hard break of a word wider than the
/// column.
pub proof fn lemma_wrap_breaks_at_spaces(l: Seq<char>, base: int, cols: int)
    requires
        cols > 0,
    ensures
        forall|i: int|
            0 <= i < wrap_line(l, base, cols).len() - 1 ==> breaks_at_a_space(
                (#[trigger] wrap_line(l, base, cols)[i]).1,
                cols,
            ),
{
    if l.len() > 0 {
        lemma_rows_break(l, 0, base, cols);
    }
}

// ---------------------------------------------------------------------------
// Display-row motion
// ---------------------------------------------------------------------------

/// A display row is a run of the buffer's chars, `s[j..j+t]`, at the byte
/// offset of char `j`.
pub open spec fn row_shape(s: Seq<char>, row: (int, Seq<char>)) -> bool {
    exists|j: int, t: int|
        0 <= j && 0 <= t && j + t <= s.len() && row.0 == utf8_len(#[trigger] s.take(j)) && row.1
            == #[trigger] s.subrange(j, j + t)
}

proof fn lemma_prefix_split(s: Seq<char>, k: int, c: int)
    requires
        0 <= k,
        0 <= c,
        k + c <= s.len(),
    ensures
        utf8_len(s.take(k + c)) == utf8_len(s.take(k)) + utf8_len(s.subrange(k, s.len() as int).take(c)),
{
    assert(s.take(k + c) =~= s.take(k) + s.subrange(k, s.len() as int).take(c));
    crate::motions::lemma_utf8_len_concat(s.take(k), s.subrange(k, s.len() as int).take(c));
}

proof fn lemma_rows_shape(s: Seq<char>, k: int, le: int, c: int, cols: int)
    requires
        0 <= k <= le <= s.len(),
        0 <= c <= le - k,
        cols > 0,
    ensures
        forall|i: int|
            0 <= i < rows_of(s.subrange(k, le), c, utf8_len(s.take(k)) as int, cols).len()
                ==> row_shape(
                s,
                #[trigger] rows_of(s.subrange(k, le), c, utf8_len(s.take(k)) as int, cols)[i],
            ),
    decreases le - k - c,
{
    let l = s.subrange(k, le);
    let base = utf8_len(s.take(k)) as int;
    if c < l.len() {
        lemma_rows_of_parts(l, c, base, cols);
        lemma_row_len(l, c, cols);
        let t = row_len(l, c, cols);
        lemma_rows_shape(s, k, le, c + t, cols);
        let rows = rows_of(l, c, base, cols);
        assert(rows[0].0 == base + utf8_len(l.take(c)));
        lemma_prefix_split(s, k, c);
        assert(l.take(c) =~= s.subrange(k, s.len() as int).take(c));
        assert(l.subrange(c, c + t) =~= s.subrange(k + c, k + c + t));
        assert(row_shape(s, rows[0]));
        assert forall|i: int| 0 <= i < rows.len() implies row_shape(s, #[trigger] rows[i]) by {
            if i > 0 {
                assert(rows[i] == rows.drop_first()[i - 1]);
                assert(rows[i] == rows_of(l, c + t, base, cols)[i - 1]);
                assert(row_shape(s, rows_of(s.subrange(k, le), c + t, utf8_len(s.take(k)) as int, cols)[i - 1]));
            } else {
                assert(row_shape(s, rows[0]));
            }
        }
    }
}

proof fn lemma_layout_shape(s: Seq<char>, k: int, cols: int)
    requires
        cols > 0,
    ensures
        forall|i: int|
            0 <= i < layout_from(s, k, cols).len() ==> row_shape(
                s,
                #[trigger] layout_from(s, k, cols)[i],
            ),
    decreases s.len() - k,
{
    if 0 <= k <= s.len() {
        let le = char_line_end(s, k);
        lemma_char_line_end(s, k);
        let l = s.subrange(k, le);
        let base = utf8_len(s.take(k)) as int;
        let rows = wrap_line(l, base, cols);
        assert forall|i: int| 0 <= i < rows.len() implies row_shape(s, #[trigger] rows[i]) by {
            if l.len() > 0 {
                lemma_rows_shape(s, k, le, 0, cols);
                assert(rows[i] == rows_of(l, 0, base, cols)[i]);
            } else {
                assert(rows == seq![(base, Seq::<char>::empty())]);
                let j = k;
                let t = 0int;
                assert(rows[i].1 =~= s.subrange(j, j + t));
                assert(0 <= j && 0 <= t && j + t <= s.len() && rows[i].0 == utf8_len(s.take(j))
                    && rows[i].1 == s.subrange(j, j + t));
            }
        }
        if le < s.len() {
            lemma_layout_shape(s, le + 1, cols);
            let all = layout_from(s, k, cols);
            let rest = layout_from(s, le + 1, cols);
            assert(all == rows + rest);
            assert forall|i: int| 0 <= i < all.len() implies row_shape(s, #[trigger] all[i]) by {
                if i < rows.len() {
                    assert(all[i] == rows[i]);
                } else {
                    assert(all[i] == rest[i - rows.len()]);
                }
            }
        }
    }
}

/// The layout has a row, and the first starts at offset 0.
proof fn lemma_layout_first_row(s: Seq<char>, cols: int)
    requires
        cols > 0,
    ensures
        layout_spec(s, cols).len() > 0,
        layout_spec(s, cols)[0].0 == 0,
{
    let le = char_line_end(s, 0);
    lemma_char_line_end(s, 0);
    let l = s.subrange(0, le);
    assert(s.take(0) =~= Seq::<char>::empty());
    let rows = wrap_line(l, 0, cols);
    if l.len() > 0 {
        lemma_rows_of_parts(l, 0, 0, cols);
        assert(l.take(0) =~= Seq::<char>::empty());
    }
    assert(rows.len() > 0 && rows[0].0 == 0);
    if le < s.len() {
        assert(layout_spec(s, cols) == rows + layout_from(s, le + 1, cols));
    }
}

/// The display row `row + delta`, kept within `0..n`.
pub open spec fn clamp_row(row: int, delta: int, n: int) -> int {
    if row + delta < 0 {
        0
    } else if row + delta > n - 1 {
        n - 1
    } else {
        row + delta
    }
}

fn clamp_target(row: usize, n: usize, delta: isize) -> (t: usize)
    requires
        row < n,
    ensures
        t == clamp_row(row as int, delta as int, n as int),
{
    if delta >= 0 {
        let d = delta as usize;
        if d >= n - 1 - row {
            n - 1
        } else {
            row + d
        }
    } else {
        let d = ((-(delta + 1)) as usize) + 1;
        if d > row {
            0
        } else {
            row - d
        }
    }
}

/// A row of the buffer `s` starts on a char boundary and ends on one, its
/// end being its start plus its byte length.
proof fn lemma_row_bounds(s: Seq<char>, row: (int, Seq<char>))
    requires
        row_shape(s, row),
    ensures
        is_boundary(vstd::utf8::encode_utf8(s), row.0),
        is_boundary(vstd::utf8::encode_utf8(s), row.0 + vstd::utf8::encode_utf8(row.1).len()),
        row.0 + vstd::utf8::encode_utf8(row.1).len() <= vstd::utf8::encode_utf8(s).len(),
{
    let (j, t) = choose|j: int, t: int|
        0 <= j && 0 <= t && j + t <= s.len() && row.0 == utf8_len(#[trigger] s.take(j)) && row.1
            == #[trigger] s.subrange(j, j + t);
    crate::text::lemma_utf8_len_encode(s);
    crate::text::lemma_utf8_len_encode(row.1);
    assert(s.take(j + t) =~= s.take(j) + s.subrange(j, j + t));
    crate::motions::lemma_utf8_len_concat(s.take(j), s.subrange(j, j + t));
    crate::text::lemma_utf8_len_mono(s, j, s.len() as int);
    crate::text::lemma_utf8_len_mono(s, j + t, s.len() as int);
    assert(s.take(s.len() as int) =~= s);
    crate::motions::lemma_boundary_is_prefix(s, row.0);
    crate::motions::lemma_boundary_is_prefix(s, row.0 + vstd::utf8::encode_utf8(row.1).len());
}

/// `Ctrl-d`/`Ctrl-u`: move the caret `delta` display rows (the soft-wrapped
/// rows for `cols` columns, clamped to the first and last), keeping its
/// column where the target row is long enough.
pub fn move_display_rows(text: &str, caret: usize, cols: usize, delta: isize) -> (r: usize)
    requires
        cols > 0,
        is_boundary(bytes(text), caret as int),
    ensures
        ({
            let lay = layout_spec(text@, cols as int);
            let row = row_at(lay, caret as int, lay.len() as int);
            let col = lead_count(bytes(text), lay[row].0, caret as int);
            let target = lay[clamp_row(row, delta as int, lay.len() as int)];
            r == crate::motions::advanced(
                bytes(text),
                target.0,
                col,
                target.0 + vstd::utf8::encode_utf8(target.1).len(),
            )
        }),
        is_boundary(bytes(text), r as int),
{
    let lay = layout(text, cols);
    proof {
        lemma_layout_first_row(text@, cols as int);
        assert(line_views(lay@)[0].0 == lay@[0].start);
    }
    let (row, col) = caret_rc(text, &lay, caret);
    let n = lay.len();
    proof {
        lemma_row_at(line_views(lay@), caret as int, n as int);
    }
    let target = clamp_target(row, n, delta);
    let total = text.as_bytes().len();
    let start = lay[target].start;
    let tlen = lay[target].text.as_str().as_bytes().len();
    proof {
        lemma_layout_shape(text@, 0, cols as int);
        lemma_row_bounds(text@, line_views(lay@)[target as int]);
    }
    crate::motions::advance_chars(text, start, col, start + tlen)
}

} // verus!
