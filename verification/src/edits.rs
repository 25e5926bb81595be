//! Text mutation at the caret: deleting chars, words and lines. Each edit
//! takes the buffer and the caret (a byte offset on a char boundary) and gives
//! back the new buffer and caret; the contracts say which bytes remain.

use vstd::prelude::*;
use vstd::string::StringExecFns;
use vstd::utf8::encode_utf8;
use crate::motions::{
    bytes, is_ascii_ws, is_boundary, is_cont, line_end, line_end_of, line_start, line_start_of,
    next_boundary, prev_boundary, run_start,
};
use crate::objects::{blank, scan_back};
use crate::snippets::{body_parts, Snippets};
use crate::markdown::{continuation_marker, marker_of, marker_overflows};

verus! {

/// Encoding distributes over concatenation.
pub proof fn lemma_encode_append(x: Seq<char>, y: Seq<char>)
    ensures
        encode_utf8(x + y) == encode_utf8(x) + encode_utf8(y),
    decreases x.len(),
{
    if x.len() == 0 {
        assert(x + y =~= y);
        assert(encode_utf8(x) =~= Seq::<u8>::empty());
        assert(encode_utf8(x) + encode_utf8(y) =~= encode_utf8(y));
    } else {
        lemma_encode_append(x.drop_first(), y);
        assert((x + y).drop_first() =~= x.drop_first() + y);
        assert((x + y)[0] == x[0]);
        assert(encode_utf8(x + y) =~= encode_utf8(x) + encode_utf8(y));
    }
}

/// A boundary in this library's sense is one in vstd's.
proof fn lemma_vstd_boundary(s: Seq<char>, i: int)
    requires
        is_boundary(encode_utf8(s), i),
    ensures
        vstd::utf8::is_char_boundary(encode_utf8(s), i),
{
    vstd::utf8::encode_utf8_valid_utf8(s);
    vstd::utf8::is_char_boundary_start_end_of_seq(encode_utf8(s));
    if 0 < i < encode_utf8(s).len() {
        vstd::utf8::is_char_boundary_iff_not_is_continuation_byte(encode_utf8(s), i);
    }
}

/// `&text[a..z]`, for char boundaries `a <= z`.
pub fn byte_slice(text: &str, a: usize, z: usize) -> (r: &str)
    requires
        a <= z,
        is_boundary(bytes(text), a as int),
        is_boundary(bytes(text), z as int),
    ensures
        bytes(r) == bytes(text).subrange(a as int, z as int),
{
    proof {
        lemma_vstd_boundary(text@, z as int);
    }
    let (head, _) = text.split_at(z);
    proof {
        assert(bytes(head) =~= bytes(text).subrange(0, z as int));
        lemma_vstd_boundary(head@, a as int);
    }
    let (_, r) = head.split_at(a);
    proof {
        assert(bytes(r) =~= bytes(text).subrange(a as int, z as int));
    }
    r
}

/// `text` with `text[a..z]` replaced by `ins`.
pub fn splice(text: &str, a: usize, z: usize, ins: &str) -> (r: String)
    requires
        a <= z,
        is_boundary(bytes(text), a as int),
        is_boundary(bytes(text), z as int),
    ensures
        encode_utf8(r@) == bytes(text).subrange(0, a as int) + bytes(ins) + bytes(text).subrange(
            z as int,
            bytes(text).len() as int,
        ),
{
    let n = text.as_bytes().len();
    proof {
        vstd::utf8::encode_utf8_valid_utf8(text@);
    }
    let head = byte_slice(text, 0, a);
    let tail = byte_slice(text, z, n);
    let mut r = String::from_str(head);
    r.append(ins);
    r.append(tail);
    proof {
        lemma_encode_append(head@ + ins@, tail@);
        lemma_encode_append(head@, ins@);
        assert(r@ == head@ + ins@ + tail@);
    }
    r
}

/// The maximal run of non-whitespace ending exactly at the caret — the
/// candidate inline snippet trigger — with its start offset, or `None` when
/// the caret is at the start of the text or just after whitespace.
pub fn word_before_caret(text: &str, caret: usize) -> (r: Option<(usize, &str)>)
    requires
        is_boundary(bytes(text), caret as int),
    ensures
        r is None <==> caret == 0 || is_ascii_ws(bytes(text)[caret - 1]),
        r matches Some((s, w)) ==> s == run_start(bytes(text), caret as int, false) && bytes(w)
            == bytes(text).subrange(s as int, caret as int),
        r matches Some((s, w)) ==> s <= caret && is_boundary(bytes(text), s as int),
{
    let b = text.as_bytes();
    if caret == 0 || crate::motions::byte_is_ascii_ws(b[caret - 1]) {
        return None;
    }
    let mut start = caret;
    while start > 0 && !crate::motions::byte_is_ascii_ws(b[start - 1])
        invariant
            b@ == bytes(text),
            start <= caret <= b@.len(),
            run_start(b@, start as int, false) == run_start(b@, caret as int, false),
        decreases start,
    {
        start -= 1;
    }
    proof {
        if start > 0 {
            crate::motions::lemma_after_ascii(text@, start as int);
        }
    }
    Some((start, byte_slice(text, start, caret)))
}

/// Type `c` at the caret, which moves past it.
pub fn insert_char(text: &str, caret: usize, c: char) -> (r: (String, usize))
    requires
        is_boundary(bytes(text), caret as int),
        bytes(text).len() + 4 <= usize::MAX,
    ensures
        encode_utf8(r.0@) == bytes(text).subrange(0, caret as int) + encode_utf8(seq![c])
            + bytes(text).subrange(caret as int, bytes(text).len() as int),
        r.1 == caret + encode_utf8(seq![c]).len(),
        is_boundary(encode_utf8(r.0@), r.1 as int),
{
    let mut v: Vec<char> = Vec::new();
    v.push(c);
    let s = crate::text::string_of(v.as_slice());
    proof {
        crate::motions::lemma_encode_char(c);
        assert(s@ =~= seq![c]);
        assert(seq![c].drop_first() =~= Seq::<char>::empty());
        assert(encode_utf8(seq![c]) =~= vstd::utf8::encode_scalar(c as u32) + encode_utf8(
            Seq::<char>::empty(),
        ));
        assert(encode_utf8(Seq::<char>::empty()) =~= Seq::<u8>::empty());
    }
    insert_str(text, caret, s.as_str())
}

/// Type `s` at the caret, which moves past it.
pub fn insert_str(text: &str, caret: usize, s: &str) -> (r: (String, usize))
    requires
        is_boundary(bytes(text), caret as int),
        bytes(text).len() + bytes(s).len() <= usize::MAX,
    ensures
        encode_utf8(r.0@) == bytes(text).subrange(0, caret as int) + bytes(s) + bytes(
            text,
        ).subrange(caret as int, bytes(text).len() as int),
        r.1 == caret + bytes(s).len(),
        is_boundary(encode_utf8(r.0@), r.1 as int),
{
    let t = splice(text, caret, caret, s);
    let n = s.as_bytes().len();
    proof {
        let b = bytes(text);
        let nb = encode_utf8(t@);
        assert(b.subrange(caret as int, caret as int) =~= Seq::<u8>::empty());
        if caret + n < nb.len() {
            assert(nb[caret + n] == b[caret as int]);
        }
        if caret == 0 && b.len() > 0 {
            crate::motions::lemma_byte_of_char(text@, 0, 0);
            crate::motions::lemma_encode_char(text@[0]);
            assert(text@.take(0) =~= Seq::<char>::empty());
        }
    }
    (t, caret + n)
}

/// Backspace: delete the char before the caret, landing the caret where it
/// began; at the start of the text nothing changes.
pub fn backspace(text: &str, caret: usize) -> (r: (String, usize))
    requires
        is_boundary(bytes(text), caret as int),
    ensures
        caret == 0 ==> r.0@ == text@ && r.1 == 0,
        caret > 0 ==> r.1 == prev_boundary(bytes(text), caret as int) && encode_utf8(r.0@)
            == bytes(text).subrange(0, r.1 as int) + bytes(text).subrange(
            caret as int,
            bytes(text).len() as int,
        ),
        is_boundary(encode_utf8(r.0@), r.1 as int),
{
    if caret == 0 {
        return (String::from_str(text), 0);
    }
    let p = crate::motions::prev_char(text, caret);
    let r = splice(text, p, caret, "");
    proof {
        reveal_strlit("");
        assert(bytes("") =~= Seq::<u8>::empty());
        assert(bytes(text).subrange(0, p as int) + Seq::<u8>::empty() =~= bytes(text).subrange(
            0,
            p as int,
        ));
        lemma_cut_boundary(bytes(text), p as int, caret as int);
    }
    (r, p)
}

/// Cutting `b[i..j]` at a boundary `j` leaves a boundary at `i`.
proof fn lemma_cut_boundary(b: Seq<u8>, i: int, j: int)
    requires
        0 <= i <= j,
        is_boundary(b, j),
    ensures
        is_boundary(b.subrange(0, i) + b.subrange(j, b.len() as int), i),
{
    let nb = b.subrange(0, i) + b.subrange(j, b.len() as int);
    if j < b.len() {
        assert(nb[i] == b[j]);
    }
}

proof fn lemma_newline_bytes()
    ensures
        bytes("\n") == seq![0x0Au8],
{
    reveal_strlit("\n");
    let s = "\n"@;
    assert(s.len() == 1 && s[0] == '\n');
    assert(s.drop_first() =~= Seq::<char>::empty());
    assert(((10u32 & 0x7F) as u8) == 10u8) by (bit_vector);
    assert(('\n' as u32) == 10u32);
    assert(vstd::utf8::encode_scalar(10u32) =~= seq![0x0Au8]);
    assert(encode_utf8(Seq::<char>::empty()) =~= Seq::<u8>::empty());
    assert(encode_utf8(s) == vstd::utf8::encode_scalar(s[0] as u32) + encode_utf8(s.drop_first()));
    assert(encode_utf8(s) =~= seq![0x0Au8]);
}

proof fn lemma_empty_bytes()
    ensures
        bytes("") == Seq::<u8>::empty(),
{
    reveal_strlit("");
    assert(bytes("") =~= Seq::<u8>::empty());
}

/// `text` without `text[a..z]`.
fn cut(text: &str, a: usize, z: usize) -> (r: String)
    requires
        a <= z,
        is_boundary(bytes(text), a as int),
        is_boundary(bytes(text), z as int),
    ensures
        encode_utf8(r@) == bytes(text).subrange(0, a as int) + bytes(text).subrange(
            z as int,
            bytes(text).len() as int,
        ),
{
    let r = splice(text, a, z, "");
    proof {
        lemma_empty_bytes();
        assert(bytes(text).subrange(0, a as int) + Seq::<u8>::empty() =~= bytes(text).subrange(
            0,
            a as int,
        ));
    }
    r
}

/// `x`: delete the char under the caret (never a newline); if the caret then
/// sits past the last char of a non-empty line, it steps back onto it.
pub fn delete_at_caret(text: &str, caret: usize) -> (r: (String, usize))
    requires
        is_boundary(bytes(text), caret as int),
    ensures
        ({
            let b = bytes(text);
            if caret < b.len() && b[caret as int] != 0x0Au8 {
                let nb = b.subrange(0, caret as int) + b.subrange(
                    next_boundary(b, caret as int),
                    b.len() as int,
                );
                &&& encode_utf8(r.0@) == nb
                &&& r.1 == if caret >= line_end_of(nb, caret as int) && caret > line_start_of(
                    nb,
                    caret as int,
                ) {
                    prev_boundary(nb, caret as int)
                } else {
                    caret as int
                }
            } else {
                r.0@ == text@ && r.1 == caret
            }
        }),
        is_boundary(encode_utf8(r.0@), r.1 as int),
{
    let b = text.as_bytes();
    if caret < b.len() && b[caret] != 0x0Au8 {
        let nx = crate::motions::next_char(text, caret);
        let t2 = cut(text, caret, nx);
        let s2 = t2.as_str();
        let ghost nb = bytes(s2);
        proof {
            if caret < nb.len() {
                assert(nb[caret as int] == b@[nx as int]);
            }
        }
        let mut c = caret;
        if c >= line_end(s2, c) && c > line_start(s2, c) {
            c = crate::motions::prev_char(s2, c);
        }
        return (t2, c);
    }
    (String::from_str(text), caret)
}

/// The bytes `dd` removes for a caret in the line `ls..le`: the line and its
/// newline, or for the last line the newline before it, or (a one-line
/// buffer) just the line.
pub open spec fn line_cut(b: Seq<u8>, caret: int) -> (int, int) {
    let ls = line_start_of(b, caret);
    let le = line_end_of(b, caret);
    if le < b.len() {
        (ls, le + 1)
    } else if ls > 0 {
        (ls - 1, le)
    } else {
        (ls, le)
    }
}

/// `dd`: delete the current logical line with its newline (or the one before
/// it, for the last line, so no blank line is left behind); the caret goes to
/// the start of the line that takes its place.
pub fn delete_current_line(text: &str, caret: usize) -> (r: (String, usize))
    requires
        caret <= bytes(text).len(),
    ensures
        ({
            let b = bytes(text);
            let (s, e) = line_cut(b, caret as int);
            let nb = b.subrange(0, s) + b.subrange(e, b.len() as int);
            encode_utf8(r.0@) == nb && r.1 == line_start_of(nb, s)
        }),
        is_boundary(encode_utf8(r.0@), r.1 as int),
{
    let b = text.as_bytes();
    let n = b.len();
    let ls = line_start(text, caret);
    let le = line_end(text, caret);
    proof {
        if ls > 0 {
            crate::motions::lemma_after_ascii(text@, ls as int);
        }
        if le < n {
            crate::motions::lemma_after_ascii(text@, le + 1);
        }
    }
    let (start, end) = if le < n {
        (ls, le + 1)
    } else if ls > 0 {
        (ls - 1, le)
    } else {
        (ls, le)
    };
    let t2 = cut(text, start, end);
    let s2 = t2.as_str();
    let c = line_start(s2, start);
    proof {
        if c > 0 {
            crate::motions::lemma_after_ascii(s2@, c as int);
        }
    }
    (t2, c)
}

/// The offset Ctrl+W deletes back to from `caret`: over the blanks before
/// it, then over the word before them.
pub open spec fn word_before_start(b: Seq<u8>, caret: int) -> int {
    run_start(b, scan_back(b, caret, blank()), false)
}

/// Insert-mode Ctrl+W: delete the word before the caret (and the blanks
/// between it and the caret).
pub fn delete_word_before(text: &str, caret: usize) -> (r: (String, usize))
    requires
        is_boundary(bytes(text), caret as int),
    ensures
        r.1 == word_before_start(bytes(text), caret as int),
        encode_utf8(r.0@) == bytes(text).subrange(0, r.1 as int) + bytes(text).subrange(
            caret as int,
            bytes(text).len() as int,
        ),
        is_boundary(encode_utf8(r.0@), r.1 as int),
{
    let b = text.as_bytes();
    let mut i = caret;
    while i > 0 && (b[i - 1] == 0x20u8 || b[i - 1] == 0x09u8)
        invariant
            b@ == bytes(text),
            i <= caret <= b@.len(),
            scan_back(b@, i as int, blank()) == scan_back(b@, caret as int, blank()),
        decreases i,
    {
        i -= 1;
    }
    let ghost mid = i;
    while i > 0 && !crate::motions::byte_is_ascii_ws(b[i - 1])
        invariant
            b@ == bytes(text),
            i <= mid <= caret <= b@.len(),
            mid == scan_back(b@, caret as int, blank()),
            run_start(b@, i as int, false) == run_start(b@, mid as int, false),
        decreases i,
    {
        i -= 1;
    }
    proof {
        if i > 0 {
            crate::motions::lemma_after_ascii(text@, i as int);
        }
        lemma_cut_boundary(bytes(text), i as int, caret as int);
    }
    (cut(text, i, caret), i)
}

/// Insert-mode Cmd+Backspace: delete back to the start of the line, or the
/// newline before the caret when it is already there.
pub fn delete_to_line_start(text: &str, caret: usize) -> (r: (String, usize))
    requires
        is_boundary(bytes(text), caret as int),
    ensures
        ({
            let b = bytes(text);
            let ls = line_start_of(b, caret as int);
            if ls == caret && caret == 0 {
                r.0@ == text@ && r.1 == 0
            } else {
                let from = if ls == caret {
                    caret - 1
                } else {
                    ls
                };
                r.1 == from && encode_utf8(r.0@) == b.subrange(0, from) + b.subrange(
                    caret as int,
                    b.len() as int,
                )
            }
        }),
        is_boundary(encode_utf8(r.0@), r.1 as int),
{
    let ls = line_start(text, caret);
    if ls == caret {
        if caret > 0 {
            proof {
                lemma_cut_boundary(bytes(text), caret - 1, caret as int);
            }
            return (cut(text, caret - 1, caret), caret - 1);
        }
        return (String::from_str(text), caret);
    }
    proof {
        if ls > 0 {
            crate::motions::lemma_after_ascii(text@, ls as int);
        }
        lemma_cut_boundary(bytes(text), ls as int, caret as int);
    }
    (cut(text, ls, caret), ls)
}

// ---------------------------------------------------------------------------
// Operators and the register
// ---------------------------------------------------------------------------

/// A pending operator awaiting a motion or text object.
#[derive(Clone, Copy, Debug, PartialEq, Eq, Structural)]
pub enum Op {
    Delete,
    Change,
    Yank,
}

/// What an edit leaves behind: the buffer, the caret, the unnamed register
/// and whether it is linewise, and whether Insert mode follows.
pub struct Edit {
    pub text: String,
    pub caret: usize,
    pub register: String,
    pub linewise: bool,
    pub insert: bool,
}

/// The range an operator covers for the endpoints `start`/`end` (in either
/// order), clamped to the text.
pub open spec fn op_range(b: Seq<u8>, start: int, end: int) -> (int, int) {
    let s = if start <= end {
        start
    } else {
        end
    };
    let m = if start <= end {
        end
    } else {
        start
    };
    (s, if m <= b.len() {
        m
    } else {
        b.len() as int
    })
}

/// Apply an operator over the range between `start` and `end` (either
/// order). All three fill the register (charwise) with the range. Yank leaves
/// the text; Delete removes the range; Change removes it and enters Insert.
/// The caret lands at the range start.
pub fn apply_op(text: &str, op: Op, start: usize, end: usize) -> (r: Edit)
    requires
        is_boundary(bytes(text), op_range(bytes(text), start as int, end as int).0),
        is_boundary(bytes(text), op_range(bytes(text), start as int, end as int).1),
    ensures
        ({
            let b = bytes(text);
            let (s, e) = op_range(b, start as int, end as int);
            &&& encode_utf8(r.register@) == b.subrange(s, e)
            &&& !r.linewise
            &&& r.caret == s
            &&& r.insert == (op == Op::Change)
            &&& op == Op::Yank ==> r.text@ == text@
            &&& op != Op::Yank ==> encode_utf8(r.text@) == b.subrange(0, s) + b.subrange(
                e,
                b.len() as int,
            )
        }),
        is_boundary(encode_utf8(r.text@), r.caret as int),
{
    let n = text.as_bytes().len();
    let s = if start <= end {
        start
    } else {
        end
    };
    let m = if start <= end {
        end
    } else {
        start
    };
    let e = if m <= n {
        m
    } else {
        n
    };
    let reg = String::from_str(byte_slice(text, s, e));
    if op == Op::Yank {
        return Edit { text: String::from_str(text), caret: s, register: reg, linewise: false, insert: false };
    }
    let t2 = cut(text, s, e);
    proof {
        lemma_cut_boundary(bytes(text), s as int, e as int);
    }
    Edit { text: t2, caret: s, register: reg, linewise: false, insert: op == Op::Change }
}

/// `cc`: clear the current line's text into the register (linewise, with a
/// newline) and enter Insert at the line start.
pub fn change_current_line(text: &str, caret: usize) -> (r: Edit)
    requires
        caret <= bytes(text).len(),
    ensures
        ({
            let b = bytes(text);
            let ls = line_start_of(b, caret as int);
            let le = line_end_of(b, caret as int);
            &&& encode_utf8(r.register@) == b.subrange(ls, le).push(0x0Au8)
            &&& r.linewise
            &&& r.insert
            &&& r.caret == ls
            &&& encode_utf8(r.text@) == b.subrange(0, ls) + b.subrange(le, b.len() as int)
        }),
        is_boundary(encode_utf8(r.text@), r.caret as int),
{
    let ls = line_start(text, caret);
    let le = line_end(text, caret);
    proof {
        if ls > 0 {
            crate::motions::lemma_after_ascii(text@, ls as int);
        }
    }
    let line = byte_slice(text, ls, le);
    let mut reg = String::from_str(line);
    reg.append("\n");
    proof {
        lemma_newline_bytes();
        lemma_encode_append(line@, "\n"@);
        assert(encode_utf8(reg@) =~= bytes(text).subrange(ls as int, le as int).push(0x0Au8));
    }
    let t2 = cut(text, ls, le);
    proof {
        crate::motions::lemma_line_end_of(bytes(text), caret as int);
        lemma_cut_boundary(bytes(text), ls as int, le as int);
    }
    Edit { text: t2, caret: ls, register: reg, linewise: true, insert: true }
}

/// Where `n` whole lines starting at the line start `e` end: past each
/// line's newline, or at the end of the text.
pub open spec fn lines_end(b: Seq<u8>, e: int, n: nat) -> int
    decreases n,
{
    if n == 0 {
        e
    } else {
        let le = line_end_of(b, e);
        lines_end(
            b,
            if le < b.len() {
                le + 1
            } else {
                le
            },
            (n - 1) as nat,
        )
    }
}

proof fn lemma_lines_end(b: Seq<u8>, e: int, n: nat)
    requires
        0 <= e <= b.len(),
    ensures
        e <= lines_end(b, e, n) <= b.len(),
        lines_end(b, e, n) == e || lines_end(b, e, n) == b.len() || b[lines_end(b, e, n) - 1]
            == 0x0Au8,
    decreases n,
{
    if n > 0 {
        crate::motions::lemma_line_end_of(b, e);
        let le = line_end_of(b, e);
        let e2 = if le < b.len() {
            le + 1
        } else {
            le
        };
        lemma_lines_end(b, e2, (n - 1) as nat);
    }
}

/// The linewise register text for `n` lines from the caret's line: those
/// lines, each with its newline (one is added to a last line that lacks it).
pub open spec fn yanked_lines(b: Seq<u8>, caret: int, n: nat) -> Seq<u8> {
    let ls = line_start_of(b, caret);
    let raw = b.subrange(ls, lines_end(b, ls, n));
    if raw.len() > 0 && raw.last() == 0x0Au8 {
        raw
    } else {
        raw.push(0x0Au8)
    }
}

/// `yy`/`nyy` (and the register capture of `dd`/`ndd`): yank `n` lines from
/// the caret's line, linewise.
pub fn register_lines(text: &str, caret: usize, n: usize) -> (r: String)
    requires
        caret <= bytes(text).len(),
    ensures
        encode_utf8(r@) == yanked_lines(bytes(text), caret as int, n as nat),
{
    let b = text.as_bytes();
    let len = b.len();
    let ls = line_start(text, caret);
    let mut e = ls;
    let mut t: usize = 0;
    proof {
        if ls > 0 {
            crate::motions::lemma_after_ascii(text@, ls as int);
        }
    }
    while t < n
        invariant
            b@ == bytes(text),
            len == b@.len(),
            ls <= e <= len,
            t <= n,
            is_boundary(b@, ls as int),
            is_boundary(b@, e as int),
            lines_end(b@, ls as int, n as nat) == lines_end(b@, e as int, (n - t) as nat),
        decreases n - t,
    {
        let le = line_end(text, e);
        if le < len {
            proof {
                crate::motions::lemma_after_ascii(text@, le + 1);
            }
            e = le + 1;
        } else {
            e = le;
        }
        t += 1;
    }
    let block = byte_slice(text, ls, e);
    let mut r = String::from_str(block);
    if !(e > ls && b[e - 1] == 0x0Au8) {
        r.append("\n");
        proof {
            lemma_newline_bytes();
            lemma_encode_append(block@, "\n"@);
        }
    }
    proof {
        let raw = bytes(text).subrange(ls as int, e as int);
        assert(raw.len() > 0 ==> raw.last() == b@[e - 1]);
    }
    r
}

/// `s` repeated `n` times.
pub open spec fn repeated(s: Seq<char>, n: nat) -> Seq<char>
    decreases n,
{
    if n == 0 {
        Seq::empty()
    } else {
        repeated(s, (n - 1) as nat) + s
    }
}

#[verifier::spinoff_prover]
proof fn lemma_repeated_bytes(s: Seq<char>, n: nat)
    ensures
        encode_utf8(repeated(s, n)).len() == encode_utf8(s).len() * n,
        s.len() > 0 && n > 0 ==> encode_utf8(repeated(s, n)).len() > 0,
    decreases n,
{
    if n == 0 {
        assert(encode_utf8(Seq::<char>::empty()) =~= Seq::<u8>::empty());
    } else {
        lemma_repeated_bytes(s, (n - 1) as nat);
        lemma_encode_append(repeated(s, (n - 1) as nat), s);
        let l = encode_utf8(s).len();
        assert(l * (n - 1) + l == l * n) by (nonlinear_arith);
        if s.len() > 0 {
            assert(encode_utf8(s) == vstd::utf8::encode_scalar(s[0] as u32) + encode_utf8(
                s.drop_first(),
            ));
            crate::motions::lemma_encode_char(s[0]);
        }
    }
}

/// `str::repeat`: `s` `n` times over.
fn repeat_str(s: &str, n: usize) -> (r: String)
    ensures
        r@ == repeated(s@, n as nat),
{
    let mut r = String::new();
    let mut t: usize = 0;
    while t < n
        invariant
            t <= n,
            r@ == repeated(s@, t as nat),
        decreases n - t,
    {
        r.append(s);
        t += 1;
    }
    r
}

/// What `p` makes of the bytes `b` with the caret at `caret`, pasting the
/// bytes `c`: the new bytes, the new caret, and the offset of the last pasted
/// byte (to scroll into view). Linewise content opens line(s) below the
/// caret's line (after a newline added at the end of the text, whose
/// trailing newline is then dropped); charwise content goes in just after the
/// caret char, the caret landing on the last pasted char.
pub open spec fn pasted_after(b: Seq<u8>, caret: int, c: Seq<u8>, linewise: bool) -> (
    Seq<u8>,
    int,
    int,
) {
    if linewise {
        let le = line_end_of(b, caret);
        if le < b.len() {
            let at = le + 1;
            (b.subrange(0, at) + c + b.subrange(at, b.len() as int), at, at + c.len() - 1)
        } else {
            let blk = if c.len() > 0 && c.last() == 0x0Au8 {
                c.drop_last()
            } else {
                c
            };
            let ins = seq![0x0Au8] + blk;
            (b.subrange(0, le) + ins + b.subrange(le, b.len() as int), le + 1, le + ins.len() - 1)
        }
    } else {
        let at = if b.len() == 0 {
            0
        } else {
            next_boundary(b, caret)
        };
        let nb = b.subrange(0, at) + c + b.subrange(at, b.len() as int);
        let k = prev_boundary(nb, at + c.len());
        (nb, k, k)
    }
}

/// What `P` makes of the bytes `b` with the caret at `caret`, pasting the
/// bytes `c`: linewise content opens line(s) above the caret's line, the
/// caret at their start; charwise content goes in at the caret, the caret
/// landing on the last pasted char.
pub open spec fn pasted_before(b: Seq<u8>, caret: int, c: Seq<u8>, linewise: bool) -> (
    Seq<u8>,
    int,
    int,
) {
    if linewise {
        let ls = line_start_of(b, caret);
        (b.subrange(0, ls) + c + b.subrange(ls, b.len() as int), ls, ls + c.len() - 1)
    } else {
        let nb = b.subrange(0, caret) + c + b.subrange(caret, b.len() as int);
        let k = prev_boundary(nb, caret + c.len());
        (nb, k, k)
    }
}

/// `p`: paste the register `n` times after the caret. Gives the new text,
/// caret and the offset of the last pasted byte; `None` (nothing changes)
/// when the register is empty.
pub fn paste_after(text: &str, caret: usize, register: &str, linewise: bool, n: usize) -> (r:
    Option<(String, usize, usize)>)
    requires
        is_boundary(bytes(text), caret as int),
        bytes(text).len() + bytes(register).len() * n < usize::MAX,
    ensures
        r is None <==> register@.len() == 0,
        r matches Some((t, c, end)) ==> pasted_after(
            bytes(text),
            caret as int,
            encode_utf8(repeated(register@, n as nat)),
            linewise,
        ) == (encode_utf8(t@), c as int, end as int),
        r matches Some((t, c, end)) ==> is_boundary(encode_utf8(t@), c as int),
{
    if register.is_empty() {
        return None;
    }
    let ghost b = bytes(text);
    let len = text.as_bytes().len();
    let content = repeat_str(register, n);
    let cs = content.as_str();
    let clen = cs.as_bytes().len();
    proof {
        lemma_repeated_bytes(register@, n as nat);
        vstd::utf8::encode_utf8_valid_utf8(text@);
    }
    if linewise {
        let le = line_end(text, caret);
        if le < len {
            let at = le + 1;
            proof {
                crate::motions::lemma_after_ascii(text@, at as int);
            }
            let t = splice(text, at, at, cs);
            proof {
                assert(b.subrange(at as int, at as int) =~= Seq::<u8>::empty());
                crate::motions::lemma_line_end_of(b, caret as int);
                assert(encode_utf8(t@)[at - 1] == b[le as int]);
                crate::motions::lemma_after_ascii(t@, at as int);
            }
            return Some((t, at, at + clen - 1));
        }
        let cb = cs.as_bytes();
        let blk = if clen > 0 && cb[clen - 1] == 0x0Au8 {
            byte_slice(cs, 0, clen - 1)
        } else {
            cs
        };
        proof {
            if clen > 0 && cb@[clen - 1] == 0x0Au8 {
                assert(bytes(blk) =~= bytes(cs).drop_last());
            }
        }
        let mut ins = String::from_str("\n");
        ins.append(blk);
        proof {
            lemma_newline_bytes();
            lemma_encode_append("\n"@, blk@);
        }
        let ilen = ins.as_str().as_bytes().len();
        let t = splice(text, le, le, ins.as_str());
        proof {
            assert(b.subrange(le as int, le as int) =~= Seq::<u8>::empty());
            assert(encode_utf8(t@)[le as int] == 0x0Au8);
            crate::motions::lemma_after_ascii(t@, le + 1);
        }
        return Some((t, le + 1, le + ilen - 1));
    }
    let at = if len == 0 {
        0
    } else {
        crate::motions::next_char(text, caret)
    };
    let t = splice(text, at, at, cs);
    let ts = t.as_str();
    proof {
        let nb = bytes(ts);
        assert(b.subrange(at as int, at as int) =~= Seq::<u8>::empty());
        if at + clen < nb.len() {
            assert(nb[at + clen] == b[at as int]);
        }
    }
    let k = crate::motions::prev_char(ts, at + clen);
    Some((t, k, k))
}

/// `P`: paste the register `n` times before the caret. Gives the new text,
/// caret and the offset of the last pasted byte; `None` (nothing changes)
/// when the register is empty.
pub fn paste_before(text: &str, caret: usize, register: &str, linewise: bool, n: usize) -> (r:
    Option<(String, usize, usize)>)
    requires
        is_boundary(bytes(text), caret as int),
        bytes(text).len() + bytes(register).len() * n < usize::MAX,
        linewise && register@.len() > 0 && line_start_of(bytes(text), caret as int) == 0 ==> n
            > 0,
    ensures
        r is None <==> register@.len() == 0,
        r matches Some((t, c, end)) ==> pasted_before(
            bytes(text),
            caret as int,
            encode_utf8(repeated(register@, n as nat)),
            linewise,
        ) == (encode_utf8(t@), c as int, end as int),
        r matches Some((t, c, end)) ==> is_boundary(encode_utf8(t@), c as int),
{
    if register.is_empty() {
        return None;
    }
    let ghost b = bytes(text);
    let content = repeat_str(register, n);
    let cs = content.as_str();
    let clen = cs.as_bytes().len();
    proof {
        lemma_repeated_bytes(register@, n as nat);
    }
    if linewise {
        let ls = line_start(text, caret);
        proof {
            if ls > 0 {
                crate::motions::lemma_after_ascii(text@, ls as int);
            }
        }
        let t = splice(text, ls, ls, cs);
        proof {
            assert(b.subrange(ls as int, ls as int) =~= Seq::<u8>::empty());
            if ls > 0 {
                assert(encode_utf8(t@)[ls - 1] == b[ls - 1]);
                crate::motions::lemma_after_ascii(t@, ls as int);
            }
        }
        return Some((t, ls, ls + clen - 1));
    }
    let t = splice(text, caret, caret, cs);
    let ts = t.as_str();
    proof {
        let nb = bytes(ts);
        assert(b.subrange(caret as int, caret as int) =~= Seq::<u8>::empty());
        if caret == 0 && b.len() > 0 {
            crate::motions::lemma_byte_of_char(text@, 0, 0);
            crate::motions::lemma_encode_char(text@[0]);
            assert(text@.take(0) =~= Seq::<char>::empty());
        }
        if caret + clen < nb.len() {
            assert(nb[caret + clen] == b[caret as int]);
        }
    }
    let k = crate::motions::prev_char(ts, caret + clen);
    Some((t, k, k))
}

// ---------------------------------------------------------------------------
// Snippet expansion
// ---------------------------------------------------------------------------

/// A snippet expanded into the buffer: the new text, the caret (on the first
/// stop) and the stops still to visit with Tab, as buffer offsets.
pub struct Expansion {
    pub text: String,
    pub caret: usize,
    pub stops: Vec<usize>,
}

/// What expanding the snippet `body` at offset `at` of the bytes `b` gives:
/// the bytes with its literal text inserted, the caret on its first stop (or
/// after the literal when it has none), and the other stops in visit order.
pub open spec fn expansion(b: Seq<u8>, at: int, body: Seq<char>) -> (Seq<u8>, int, Seq<int>) {
    let lit = body_parts(body).0;
    let offs = body_parts(body).1;
    (
        b.subrange(0, at) + encode_utf8(lit) + b.subrange(at, b.len() as int),
        if offs.len() > 0 {
            at + offs[0]
        } else {
            at + encode_utf8(lit).len()
        },
        if offs.len() > 0 {
            Seq::new((offs.len() - 1) as nat, |k: int| at + offs[k + 1])
        } else {
            Seq::empty()
        },
    )
}

/// The offsets of `stops`, as integers.
pub open spec fn offsets(stops: Seq<usize>) -> Seq<int> {
    Seq::new(stops.len(), |k: int| stops[k] as int)
}

/// Expand a snippet `body` at the caret: insert its literal text (stops
/// removed), land the caret on `$1` (or the literal's end when it has no
/// stops), and queue the remaining stops for Tab.
pub fn insert_snippet(text: &str, caret: usize, body: &str) -> (r: Expansion)
    requires
        is_boundary(bytes(text), caret as int),
        bytes(text).len() + bytes(body).len() <= usize::MAX,
    ensures
        expansion(bytes(text), caret as int, body@) == (
            encode_utf8(r.text@),
            r.caret as int,
            offsets(r.stops@),
        ),
{
    let (literal, stops) = crate::snippets::parse_snippet_body(body);
    proof {
        crate::snippets::lemma_stops_within_literal(body@);
        crate::text::lemma_utf8_len_encode(body@);
        crate::text::lemma_utf8_len_encode(literal@);
    }
    let t = splice(text, caret, caret, literal.as_str());
    let llen = literal.as_str().as_bytes().len();
    let ghost offs = body_parts(body@).1;
    assert(llen == crate::text::utf8_len(body_parts(body@).0));
    assert(caret + llen <= usize::MAX);
    if stops.len() > 0 {
        assert(stops@[0] as nat == offs[0]);
        assert(offs[0] <= llen);
        let first = caret + stops[0];
        let mut rest: Vec<usize> = Vec::new();
        let mut k: usize = 1;
        while k < stops.len()
            invariant
                1 <= k <= stops@.len(),
                stops@.len() == offs.len(),
                forall|j: int| 0 <= j < stops@.len() ==> stops@[j] as nat == #[trigger] offs[j],
                forall|j: int| 0 <= j < offs.len() ==> #[trigger] offs[j] <= llen,
                caret + llen <= usize::MAX,
                rest@.len() == k - 1,
                forall|j: int| 0 <= j < rest@.len() ==> rest@[j] == caret + offs[j + 1],
            decreases stops@.len() - k,
        {
            assert(stops@[k as int] as nat == offs[k as int]);
            rest.push(caret + stops[k]);
            k += 1;
        }
        proof {
            assert(offsets(rest@) =~= expansion(bytes(text), caret as int, body@).2);
        }
        Expansion { text: t, caret: first, stops: rest }
    } else {
        let e = Expansion { text: t, caret: caret + llen, stops: Vec::new() };
        proof {
            assert(offsets(e.stops@) =~= Seq::<int>::empty());
        }
        e
    }
}

/// Tab inside a live snippet session: the caret jumps to the next pending
/// stop (kept within the text) and that stop leaves the queue; `None` when
/// no stop is pending.
pub fn snippet_advance(text: &str, stops: &Vec<usize>) -> (r: Option<(usize, Vec<usize>)>)
    ensures
        r is None <==> stops@.len() == 0,
        r matches Some((c, rest)) ==> c == (if stops@[0] <= bytes(text).len() {
            stops@[0] as int
        } else {
            bytes(text).len() as int
        }) && rest@ == stops@.drop_first(),
{
    if stops.len() == 0 {
        return None;
    }
    let n = text.as_bytes().len();
    let next = stops[0];
    let mut rest: Vec<usize> = Vec::new();
    let mut k: usize = 1;
    while k < stops.len()
        invariant
            1 <= k <= stops@.len(),
            rest@ == stops@.subrange(1, k as int),
        decreases stops@.len() - k,
    {
        rest.push(stops[k]);
        k += 1;
    }
    let c = if next <= n {
        next
    } else {
        n
    };
    Some((c, rest))
}

/// The first of `snips` from the `i`th on whose prefix, in bytes, is `w`.
pub open spec fn first_with_prefix(snips: Seq<crate::snippets::Snippet>, w: Seq<u8>, i: int) -> Option<int>
    decreases snips.len() - i,
{
    if i < 0 || i >= snips.len() {
        None
    } else if encode_utf8(snips[i].prefix@) == w {
        Some(i)
    } else {
        first_with_prefix(snips, w, i + 1)
    }
}

/// Inline Tab-expansion: when the word right before the caret is exactly a
/// snippet's prefix (the first such snippet wins), replace it with that
/// snippet's expansion. `None` (nothing changes, and Tab inserts spaces
/// instead) when there is no such word or snippet.
pub fn try_expand_snippet(text: &str, caret: usize, snippets: &Snippets) -> (r: Option<Expansion>)
    requires
        is_boundary(bytes(text), caret as int),
        forall|i: int|
            0 <= i < snippets.0@.len() ==> bytes(text).len() + encode_utf8(
                (#[trigger] snippets.0@[i]).body@,
            ).len() <= usize::MAX,
    ensures
        ({
            let b = bytes(text);
            let start = run_start(b, caret as int, false);
            let found = if caret == 0 || is_ascii_ws(b[caret - 1]) {
                None
            } else {
                first_with_prefix(snippets.0@, b.subrange(start, caret as int), 0)
            };
            &&& r is None <==> found is None
            &&& r matches Some(e) ==> expansion(
                b.subrange(0, start) + b.subrange(caret as int, b.len() as int),
                start,
                snippets.0@[found.unwrap()].body@,
            ) == (encode_utf8(e.text@), e.caret as int, offsets(e.stops@))
        }),
{
    let (start, word) = match word_before_caret(text, caret) {
        Some(p) => p,
        None => return None,
    };
    let w = crate::text::chars_of(word);
    let mut i: usize = 0;
    while i < snippets.0.len()
        invariant
            w@ == word@,
            bytes(word) == bytes(text).subrange(start as int, caret as int),
            start <= caret,
            start == run_start(bytes(text), caret as int, false),
            !(caret == 0 || is_ascii_ws(bytes(text)[caret - 1])),
            is_boundary(bytes(text), start as int),
            is_boundary(bytes(text), caret as int),
            forall|j: int|
                0 <= j < snippets.0@.len() ==> bytes(text).len() + encode_utf8(
                    (#[trigger] snippets.0@[j]).body@,
                ).len() <= usize::MAX,
            i <= snippets.0@.len(),
            first_with_prefix(snippets.0@, bytes(word), 0) == first_with_prefix(
                snippets.0@,
                bytes(word),
                i as int,
            ),
        decreases snippets.0@.len() - i,
    {
        let same = crate::text::chars_eq_str(w.as_slice(), snippets.0[i].prefix.as_str());
        proof {
            vstd::utf8::encode_utf8_decode_utf8(word@);
            vstd::utf8::encode_utf8_decode_utf8(snippets.0@[i as int].prefix@);
        }
        if same {
            let cut_text = cut(text, start, caret);
            let ct = cut_text.as_str();
            proof {
                lemma_cut_boundary(bytes(text), start as int, caret as int);
                crate::text::lemma_utf8_len_encode(text@);
                crate::text::lemma_utf8_len_encode(ct@);
            }
            let e = insert_snippet(ct, start, snippets.0[i].body.as_str());
            return Some(e);
        }
        i += 1;
    }
    None
}


// ---------------------------------------------------------------------------
// Enter in Insert mode
// ---------------------------------------------------------------------------

/// The chars of the line holding `caret`.
pub open spec fn caret_line(b: Seq<u8>, caret: int) -> Seq<char> {
    vstd::utf8::decode_utf8(b.subrange(line_start_of(b, caret), line_end_of(b, caret)))
}

/// The list or quote marker Enter continues: only at the end of a line
/// that opens with one.
pub open spec fn continued(b: Seq<u8>, caret: int) -> Option<(Seq<char>, nat, bool)> {
    if caret == line_end_of(b, caret) {
        marker_of(caret_line(b, caret))
    } else {
        None
    }
}

/// Enter in Insert mode, with Markdown list and blockquote continuation. At
/// the end of a list line (`- `/`* `/`+ ` or `N. `) or a blockquote (`> `,
/// nested depth kept) the next line starts with the same bullet, the next
/// number, or the same quote depth, indentation kept; Enter on an otherwise
/// empty item or quote drops the marker instead, leaving a blank line.
/// Anywhere else it is a plain newline.
pub fn insert_newline(text: &str, caret: usize) -> (r: (String, usize))
    requires
        is_boundary(bytes(text), caret as int),
        bytes(text).len() + 4 <= usize::MAX,
        caret == line_end_of(bytes(text), caret as int) ==> !marker_overflows(
            caret_line(bytes(text), caret as int),
        ),
        continued(bytes(text), caret as int) matches Some((next, _, _)) ==> bytes(text).len() + 1
            + encode_utf8(next).len() <= usize::MAX,
    ensures
        ({
            let b = bytes(text);
            let ls = line_start_of(b, caret as int);
            match continued(b, caret as int) {
                Some((next, cur, true)) => encode_utf8(r.0@) == b.subrange(0, ls) + b.subrange(
                    ls + cur,
                    b.len() as int,
                ) && r.1 == ls,
                Some((next, cur, false)) => encode_utf8(r.0@) == b.subrange(0, caret as int)
                    + seq![0x0Au8] + encode_utf8(next) + b.subrange(caret as int, b.len() as int)
                    && r.1 == caret + 1 + encode_utf8(next).len(),
                None => encode_utf8(r.0@) == b.subrange(0, caret as int) + seq![0x0Au8]
                    + b.subrange(caret as int, b.len() as int) && r.1 == caret + 1,
            }
        }),
        is_boundary(encode_utf8(r.0@), r.1 as int),
{
    let ghost b = bytes(text);
    let le = line_end(text, caret);
    proof {
        lemma_newline_bytes();
        crate::motions::lemma_encode_char('\n');
    }
    if caret == le {
        let ls = line_start(text, caret);
        proof {
            if ls > 0 {
                crate::motions::lemma_after_ascii(text@, ls as int);
            }
        }
        let line = byte_slice(text, ls, le);
        proof {
            vstd::utf8::encode_utf8_decode_utf8(line@);
            assert(line@ == caret_line(b, caret as int));
        }
        match continuation_marker(line) {
            Some((next, cur, empty)) => {
                if empty {
                    proof {
                        let lb = encode_utf8(line@);
                        crate::text::lemma_utf8_len_encode(line@);
                        assert(line@ =~= line@.take(cur as int) + line@.skip(cur as int));
                        crate::motions::lemma_utf8_len_concat(
                            line@.take(cur as int),
                            line@.skip(cur as int),
                        );
                        crate::motions::lemma_boundary_is_prefix(line@, cur as int);
                        assert(crate::text::utf8_len(line@.take(cur as int)) == cur);
                        assert(is_boundary(lb, cur as int));
                        if ls + cur < b.len() && cur < lb.len() {
                            assert(b[ls + cur] == lb[cur as int]);
                        }
                    }
                    let t = splice(text, ls, ls + cur, "");
                    proof {
                        assert(bytes("") =~= Seq::<u8>::empty()) by {
                            reveal_strlit("");
                            assert(encode_utf8(""@) =~= Seq::<u8>::empty());
                        }
                        assert(encode_utf8(t@) =~= b.subrange(0, ls as int) + b.subrange(
                            ls + cur,
                            b.len() as int,
                        ));
                        lemma_cut_boundary(b, ls as int, ls + cur);
                    }
                    return (t, ls);
                } else {
                    let mut v: Vec<char> = Vec::new();
                    v.push('\n');
                    crate::text::extend_str(&mut v, next.as_str());
                    let s = crate::text::string_of(v.as_slice());
                    proof {
                        assert(s@ =~= seq!['\n'] + next@);
                        lemma_encode_append(seq!['\n'], next@);
                        assert(encode_utf8(seq!['\n']) =~= seq![0x0Au8]) by {
                            assert(seq!['\n'].drop_first() =~= Seq::<char>::empty());
                            assert(encode_utf8(Seq::<char>::empty()) =~= Seq::<u8>::empty());
                            assert(((10u32 & 0x7F) as u8) == 10u8) by (bit_vector);
                            assert(vstd::utf8::encode_scalar(10u32) =~= seq![0x0Au8]);
                        }
                    }
                    let (t, k) = insert_str(text, caret, s.as_str());
                    proof {
                        assert(encode_utf8(t@) =~= b.subrange(0, caret as int) + seq![0x0Au8]
                            + encode_utf8(next@) + b.subrange(caret as int, b.len() as int));
                    }
                    return (t, k);
                }
            },
            None => {},
        }
    }
    let (t, k) = insert_char(text, caret, '\n');
    proof {
        assert(encode_utf8(seq!['\n']) =~= seq![0x0Au8]) by {
            assert(seq!['\n'].drop_first() =~= Seq::<char>::empty());
            assert(encode_utf8(Seq::<char>::empty()) =~= Seq::<u8>::empty());
            assert(((10u32 & 0x7F) as u8) == 10u8) by (bit_vector);
            assert(vstd::utf8::encode_scalar(10u32) =~= seq![0x0Au8]);
        }
    }
    (t, k)
}


proof fn lemma_lead_run(b: Seq<u8>, j: int, i: int)
    requires
        0 <= j <= i < b.len(),
        !is_cont(b[j]),
        forall|k: int| j < k <= i ==> is_cont(#[trigger] b[k]),
    ensures
        crate::motions::lead_at_or_before(b, i) == j,
    decreases i - j,
{
    if i > j {
        lemma_lead_run(b, j, i - 1);
    }
}

/// Typing a char and then Backspace gives the buffer back, caret and all:
/// Backspace removes exactly the char just typed, however many bytes it
/// takes (what [`insert_char`] and [`backspace`] each state, composed).
pub proof fn lemma_backspace_undoes_typing(b: Seq<u8>, caret: int, c: char)
    requires
        0 <= caret <= b.len(),
    ensures
        ({
            let e = encode_utf8(seq![c]);
            let nb = b.subrange(0, caret) + e + b.subrange(caret, b.len() as int);
            let k = caret + e.len();
            &&& prev_boundary(nb, k) == caret
            &&& nb.subrange(0, caret) + nb.subrange(k, nb.len() as int) == b
        }),
{
    let e = encode_utf8(seq![c]);
    crate::motions::lemma_encode_char(c);
    assert(seq![c].drop_first() =~= Seq::<char>::empty());
    assert(encode_utf8(Seq::<char>::empty()) =~= Seq::<u8>::empty());
    assert(e =~= vstd::utf8::encode_scalar(c as u32));
    let nb = b.subrange(0, caret) + e + b.subrange(caret, b.len() as int);
    let k = caret + e.len();
    assert(nb[caret] == e[0]);
    assert forall|j: int| caret < j <= k - 1 implies is_cont(#[trigger] nb[j]) by {
        assert(nb[j] == e[j - caret]);
    }
    lemma_lead_run(nb, caret, k - 1);
    assert(nb.subrange(0, caret) + nb.subrange(k, nb.len() as int) =~= b);
}

} // verus!
