//! Markdown affordances: the first heading of a note, list and quote
//! continuation on Enter, and `[title](target)` links.

use vstd::prelude::*;
use crate::text;
use crate::buffers;
use crate::buffers::Scope;

verus! {

broadcast use vstd::string::group_string_axioms;

// ---------------------------------------------------------------------------
// first_heading
// ---------------------------------------------------------------------------

/// The title of an ATX heading line (`## Title` → `Title`): one or more `#`,
/// a space, then a non-blank title (trimmed).
pub open spec fn heading_title(line: Seq<char>) -> Option<Seq<char>> {
    let h = text::lead(line, text::eq_pred('#'));
    let rest = line.skip(h as int);
    if h > 0 && rest.len() > 0 && rest[0] == ' ' && text::trim(rest.skip(1)).len() > 0 {
        Some(text::trim(rest.skip(1)))
    } else {
        None
    }
}

/// The title of the first heading among `ls`.
pub open spec fn first_heading_in(ls: Seq<Seq<char>>) -> Option<Seq<char>>
    decreases ls.len(),
{
    if ls.len() == 0 {
        None
    } else {
        match heading_title(ls[0]) {
            Some(t) => Some(t),
            None => first_heading_in(ls.drop_first()),
        }
    }
}

/// Where the title of a heading line sits in it, as a char range.
fn heading_range(line: &[char]) -> (r: Option<(usize, usize)>)
    ensures
        r is None <==> heading_title(line@) is None,
        r matches Some((a, b)) ==> a <= b <= line.len() && heading_title(line@) == Some(
            line@.subrange(a as int, b as int),
        ),
{
    let h = text::char_lead(line, '#');
    proof {
        text::lemma_lead_bounds(line@, text::eq_pred('#'));
    }
    if h == 0 || h >= line.len() || line[h] != ' ' {
        return None;
    }
    let body = text::slice_of(line, h + 1, line.len());
    let a = text::ws_lead(&body);
    proof {
        text::lemma_lead_bounds(body@, text::ws_pred());
    }
    let tail = text::slice_of(&body, a, body.len());
    let t = text::ws_trail(&tail);
    proof {
        text::lemma_trail_bounds(tail@, text::ws_pred());
        assert(line@.skip(h as int).skip(1) =~= body@);
        assert(line@.skip(h as int)[0] == line@[h as int]);
        assert(tail@ == text::trim_start(body@));
    }
    if tail.len() - t == 0 {
        return None;
    }
    let s = h + 1 + a;
    let e = s + (tail.len() - t);
    assert(line@.subrange(s as int, e as int) =~= text::trim(body@));
    Some((s, e))
}

/// The text of the first ATX heading in `text` (`# Title` → `Title`), any
/// level, or `None`. The `add local link` command uses it as the link title.
pub fn first_heading(text: &str) -> (r: Option<&str>)
    ensures
        r is None <==> first_heading_in(text::lines_of(text@)) is None,
        r matches Some(t) ==> first_heading_in(text::lines_of(text@)) == Some(t@),
{
    let v = text::chars_of(text);
    let mut start: usize = 0;
    assert(v@.skip(0) == v@);
    while start < v.len()
        invariant
            v@ == text@,
            start <= v.len(),
            first_heading_in(text::lines_of(v@)) == first_heading_in(
                text::lines_of(v@.skip(start as int)),
            ),
        decreases v.len() - start,
    {
        let rest = text::slice_of(&v, start, v.len());
        assert(rest@ == v@.skip(start as int));
        proof {
            text::lemma_find(rest@, '\n');
        }
        let (len, next, ended) = match text::find_char(&rest, '\n') {
            Some(i) => (i, start + i + 1, true),
            None => (rest.len(), v.len(), false),
        };
        let mut le = start + len;
        if ended && le > start && v[le - 1] == '\r' {
            le = le - 1;
        }
        let line = text::slice_of(&v, start, le);
        proof {
            let raw = rest@.take(len as int);
            match text::find(rest@, '\n') {
                Some(i) => {
                    assert(line@ =~= text::strip_cr(raw));
                    assert(text::lines_of(rest@) == seq![text::strip_cr(raw)] + text::lines_of(
                        rest@.skip(i as int + 1),
                    ));
                    assert(rest@.skip(i as int + 1) =~= v@.skip(next as int));
                },
                None => {
                    assert(raw =~= rest@);
                    assert(line@ =~= rest@);
                    assert(text::lines_of(rest@) == seq![rest@]);
                    assert(v@.skip(next as int) =~= Seq::<char>::empty());
                    assert(text::lines_of(v@.skip(next as int)) == Seq::<Seq<char>>::empty());
                    assert(seq![rest@].drop_first() =~= Seq::<Seq<char>>::empty());
                },
            }
            let ls = seq![line@] + text::lines_of(v@.skip(next as int));
            assert(text::lines_of(v@.skip(start as int)) == ls);
            assert(ls[0] == line@);
            assert(ls.drop_first() =~= text::lines_of(v@.skip(next as int)));
        }
        match heading_range(&line) {
            Some((a, b)) => {
                assert(line@.subrange(a as int, b as int) =~= text@.subrange(
                    start + a,
                    start + b,
                ));
                return Some(text.substring_char(start + a, start + b));
            },
            None => {},
        }
        start = next;
    }
    assert(v@.skip(start as int) =~= Seq::<char>::empty());
    None
}

// ---------------------------------------------------------------------------
// continuation_marker
// ---------------------------------------------------------------------------

/// Whether `s` is empty once trimmed.
pub open spec fn blank(s: Seq<char>) -> bool {
    text::trim(s).len() == 0
}

/// `> ` written `n` times.
pub open spec fn quotes(n: nat) -> Seq<char>
    decreases n,
{
    if n == 0 {
        Seq::empty()
    } else {
        quotes((n - 1) as nat) + seq!['>', ' ']
    }
}

/// A run of `>` markers in `r` from `j`, each with an optional trailing
/// space: the quote depth reached and where the run ends.
pub open spec fn quote_scan(r: Seq<char>, j: nat, depth: nat) -> (nat, nat)
    decreases r.len() - j,
{
    if j < r.len() && r[j as int] == '>' {
        let j1 = j + 1;
        let j2 = if j1 < r.len() && r[j1 as int] == ' ' {
            j1 + 1
        } else {
            j1
        };
        quote_scan(r, j2, depth + 1)
    } else {
        (depth, j)
    }
}

/// The list bullet `rest` opens with (`- `, `* ` or `+ `), if any.
pub open spec fn opens_bullet(rest: Seq<char>) -> bool {
    rest.len() >= 2 && rest[1] == ' ' && (rest[0] == '-' || rest[0] == '*' || rest[0] == '+')
}

/// Number of leading ASCII digits of `rest`.
pub open spec fn digit_run(rest: Seq<char>) -> nat {
    text::lead(rest, crate::snippets::digit_pred())
}

/// `rest` opens with `<digits>. `.
pub open spec fn opens_ordered(rest: Seq<char>) -> bool {
    let d = digit_run(rest);
    d > 0 && rest.len() >= d + 2 && rest[d as int] == '.' && rest[d + 1 as int] == ' '
}

/// The item number of an ordered marker: its digits' value, or 0 when it
/// does not fit a `usize`.
pub open spec fn item_number(rest: Seq<char>) -> nat {
    match text::parse_usize(rest.take(digit_run(rest) as int)) {
        Some(n) => n,
        None => 0,
    }
}

/// The auto-continued prefix of `line`: `(next_marker, current_marker_len,
/// content_empty)`, or `None` when the line has no list or quote marker.
pub open spec fn marker_of(line: Seq<char>) -> Option<(Seq<char>, nat, bool)> {
    let indent = text::lead(line, text::eq_pred(' '));
    let pre = line.take(indent as int);
    let rest = line.skip(indent as int);
    if opens_bullet(rest) {
        let cur = indent + 2;
        Some((pre + rest.take(2), cur, blank(line.skip(cur as int))))
    } else if opens_ordered(rest) {
        let cur = indent + digit_run(rest) + 2;
        Some(
            (
                pre + text::dec(item_number(rest) + 1) + seq!['.', ' '],
                cur,
                blank(line.skip(cur as int)),
            ),
        )
    } else if rest.len() > 0 && rest[0] == '>' {
        let q = quote_scan(rest, 0, 0);
        let cur = indent + q.1;
        Some((pre + quotes(q.0), cur, blank(line.skip(cur as int))))
    } else {
        None
    }
}

/// The one input `continuation_marker` cannot answer: an ordered item
/// numbered `usize::MAX`, whose successor does not exist.
pub open spec fn marker_overflows(line: Seq<char>) -> bool {
    let rest = line.skip(text::lead(line, text::eq_pred(' ')) as int);
    !opens_bullet(rest) && opens_ordered(rest) && item_number(rest) == usize::MAX
}

proof fn lemma_quote_scan(r: Seq<char>, j: nat, depth: nat)
    requires
        j <= r.len(),
        forall|k: int| 0 <= k < j ==> r[k] == '>' || r[k] == ' ',
    ensures
        j <= quote_scan(r, j, depth).1 <= r.len(),
        depth <= quote_scan(r, j, depth).0 <= depth + r.len() - j,
        forall|k: int| 0 <= k < quote_scan(r, j, depth).1 ==> r[k] == '>' || r[k] == ' ',
    decreases r.len() - j,
{
    if j < r.len() && r[j as int] == '>' {
        let j1 = j + 1;
        let j2 = if j1 < r.len() && r[j1 as int] == ' ' {
            j1 + 1
        } else {
            j1
        };
        lemma_quote_scan(r, j2, depth + 1);
    }
}

proof fn lemma_quotes_push(n: nat)
    ensures
        quotes(n + 1) == quotes(n) + seq!['>', ' '],
{
}

fn blank_exec(v: &[char], from: usize) -> (r: bool)
    requires
        from <= v.len(),
    ensures
        r == blank(v@.skip(from as int)),
{
    let rest = text::slice_of(v, from, v.len());
    let t = text::trim_exec(&rest);
    assert(rest@ =~= v@.skip(from as int));
    t.len() == 0
}

/// Parse an auto-continued Markdown line prefix at the start of `line` — a list
/// item (`- `/`* `/`+ ` or `N. `) or a blockquote (`> `, possibly nested).
/// Returns `(next_marker, current_marker_len, content_empty)`: what the
/// following line should start with (same bullet, the incremented number, or
/// the same quote depth, preserving indentation), the length of this line's
/// marker prefix (all ASCII, so the same in chars and bytes), and whether
/// nothing follows it. `None` when the line has no such prefix.
pub fn continuation_marker(line: &str) -> (r: Option<(String, usize, bool)>)
    requires
        !marker_overflows(line@),
    ensures
        r is None <==> marker_of(line@) is None,
        r matches Some((next, cur, empty)) ==> marker_of(line@) == Some((next@, cur as nat, empty))
            && text::utf8_len(line@.take(cur as int)) == cur && cur <= line@.len(),
{
    let v = text::chars_of(line);
    let indent = text::char_lead(&v, ' ');
    proof {
        text::lemma_lead_bounds(v@, text::eq_pred(' '));
    }
    let rest = text::slice_of(&v, indent, v.len());
    let pre = text::slice_of(&v, 0, indent);
    assert(rest@ =~= line@.skip(indent as int));
    assert(forall|k: int| 0 <= k < indent ==> #[trigger] v@[k] == ' ') by {
        assert forall|k: int| 0 <= k < indent implies #[trigger] v@[k] == ' ' by {
            text::lemma_lead(v@, text::eq_pred(' '), indent as int);
            assert(text::eq_pred(' ')(v@[k]));
        }
    }
    if rest.len() >= 2 && rest[1] == ' ' && (rest[0] == '-' || rest[0] == '*' || rest[0] == '+') {
        let cur = indent + 2;
        let empty = blank_exec(&v, cur);
        let mut next = pre;
        next.push(rest[0]);
        next.push(' ');
        assert(next@ =~= line@.take(indent as int) + rest@.take(2));
        proof {
            text::lemma_utf8_len_ascii(line@.take(cur as int));
        }
        return Some((text::string_of(&next), cur, empty));
    }
    let d = text::char_lead_pred_digits(&rest);
    proof {
        text::lemma_lead_bounds(rest@, crate::snippets::digit_pred());
    }
    if d > 0 && rest.len() - d >= 2 && rest[d] == '.' && rest[d + 1] == ' ' {
        let cur = indent + d + 2;
        let empty = blank_exec(&v, cur);
        let digits = text::slice_of(&rest, 0, d);
        let n: usize = match text::parse_usize_exec(&digits) {
            Some(n) => n,
            None => 0,
        };
        assert(n as nat == item_number(rest@));
        let mut next = pre;
        text::push_dec(&mut next, n + 1);
        next.push('.');
        next.push(' ');
        proof {
            assert forall|k: int| 0 <= k < d implies #[trigger] rest@[k] != '.' && (rest@[k]
                as u32) < 0x80 by {
                text::lemma_lead(rest@, crate::snippets::digit_pred(), d as int);
                assert(crate::snippets::digit_pred()(rest@[k]));
            }
            assert forall|k: int| 0 <= k < cur implies (#[trigger] line@.take(cur as int)[k]
                as u32) < 0x80 by {
                if k >= indent {
                    assert(line@[k] == rest@[k - indent]);
                }
            }
            text::lemma_utf8_len_ascii(line@.take(cur as int));
        }
        return Some((text::string_of(&next), cur, empty));
    }
    if rest.len() > 0 && rest[0] == '>' {
        let mut j: usize = 0;
        let mut depth: usize = 0;
        let mut next = pre;
        proof {
            lemma_quote_scan(rest@, 0, 0);
        }
        while j < rest.len() && rest[j] == '>'
            invariant
                j <= rest.len(),
                depth <= j,
                quote_scan(rest@, 0, 0) == quote_scan(rest@, j as nat, depth as nat),
                next@ == line@.take(indent as int) + quotes(depth as nat),
                forall|k: int| 0 <= k < j ==> rest@[k] == '>' || rest@[k] == ' ',
            decreases rest.len() - j,
        {
            depth += 1;
            j += 1;
            if j < rest.len() && rest[j] == ' ' {
                j += 1;
            }
            next.push('>');
            next.push(' ');
            proof {
                lemma_quotes_push((depth - 1) as nat);
            }
        }
        let cur = indent + j;
        let empty = blank_exec(&v, cur);
        proof {
            assert forall|k: int| 0 <= k < cur implies (#[trigger] line@.take(cur as int)[k]
                as u32) < 0x80 by {
                if k >= indent {
                    assert(line@[k] == rest@[k - indent]);
                }
            }
            text::lemma_utf8_len_ascii(line@.take(cur as int));
        }
        return Some((text::string_of(&next), cur, empty));
    }
    None
}

// ---------------------------------------------------------------------------
// Links
// ---------------------------------------------------------------------------

/// The first index at or after `i` where `s` holds `c`.
pub open spec fn find_from(s: Seq<char>, i: int, c: char) -> Option<int> {
    match text::find(s.skip(i), c) {
        Some(k) => Some(i + k),
        None => None,
    }
}

pub proof fn lemma_find_from(s: Seq<char>, i: int, c: char)
    requires
        0 <= i <= s.len(),
    ensures
        match find_from(s, i, c) {
            Some(k) => i <= k < s.len() && s[k] == c && forall|j: int| i <= j < k ==> s[j] != c,
            None => forall|j: int| i <= j < s.len() ==> s[j] != c,
        },
{
    text::lemma_find(s.skip(i), c);
    match text::find(s.skip(i), c) {
        Some(k) => {
            assert(s.skip(i)[k as int] == s[i + k]);
            assert forall|j: int| i <= j < i + k implies s[j] != c by {
                assert(s.skip(i)[j - i] == s[j]);
            }
        },
        None => {
            assert forall|j: int| i <= j < s.len() implies s[j] != c by {
                assert(s.skip(i)[j - i] == s[j]);
            }
        },
    }
}

/// Every `[title](target)` link of `s` from char `i` on, left to right, as
/// `(open, target_start, close)` char indices: the opening `[`, the first
/// target char, and the closing `)`. The first `]` closes the title and must
/// be followed by `(`; a `[` with no `]` after it ends the scan, and so does a
/// `(` with no `)` after it.
pub open spec fn spans_from(s: Seq<char>, i: int) -> Seq<(int, int, int)>
    decreases s.len() - i,
{
    if i < 0 || i >= s.len() {
        Seq::empty()
    } else if s[i] != '[' {
        spans_from(s, i + 1)
    } else {
        match find_from(s, i + 1, ']') {
            None => Seq::empty(),
            Some(te) => {
                proof {
                    lemma_find_from(s, i + 1, ']');
                }
                if te + 1 < s.len() && s[te + 1] == '(' {
                    match find_from(s, te + 2, ')') {
                        None => Seq::empty(),
                        Some(cl) => {
                            proof {
                                lemma_find_from(s, te + 2, ')');
                            }
                            seq![(i, te + 2, cl)] + spans_from(s, cl + 1)
                        },
                    }
                } else {
                    spans_from(s, i + 1)
                }
            },
        }
    }
}

/// The links of a line.
pub open spec fn spans(s: Seq<char>) -> Seq<(int, int, int)> {
    spans_from(s, 0)
}

fn find_from_exec(v: &[char], i: usize, c: char) -> (r: Option<usize>)
    requires
        i <= v.len(),
    ensures
        r matches Some(k) ==> find_from(v@, i as int, c) == Some(k as int),
        r is None ==> find_from(v@, i as int, c) is None,
{
    let mut k = i;
    while k < v.len()
        invariant
            i <= k <= v.len(),
            forall|j: int| i <= j < k ==> v@[j] != c,
        decreases v.len() - k,
    {
        if v[k] == c {
            proof {
                lemma_find_from(v@, i as int, c);
                match find_from(v@, i as int, c) {
                    Some(x) => {
                        if x < k {
                            assert(v@[x] == c);
                        }
                        if x > k {
                            assert(v@[k as int] != c);
                        }
                    },
                    None => {
                        assert(v@[k as int] != c);
                    },
                }
            }
            return Some(k);
        }
        k += 1;
    }
    proof {
        lemma_find_from(v@, i as int, c);
        if let Some(x) = find_from(v@, i as int, c) {
            assert(v@[x] == c);
        }
    }
    None
}

/// The links of `v` as char indices.
fn spans_exec(v: &[char]) -> (r: Vec<(usize, usize, usize)>)
    ensures
        r@.len() == spans(v@).len(),
        forall|k: int|
            0 <= k < r@.len() ==> (r@[k].0 as int, r@[k].1 as int, r@[k].2 as int) == #[trigger] spans(
                v@,
            )[k],
{
    let mut r: Vec<(usize, usize, usize)> = Vec::new();
    let ghost all = spans(v@);
    let mut i: usize = 0;
    while i < v.len()
        invariant
            i <= v.len(),
            all == spans(v@),
            all.len() == r@.len() + spans_from(v@, i as int).len(),
            forall|k: int|
                0 <= k < r@.len() ==> (r@[k].0 as int, r@[k].1 as int, r@[k].2 as int) == all[k],
            forall|k: int|
                0 <= k < spans_from(v@, i as int).len() ==> #[trigger] spans_from(v@, i as int)[k]
                    == all[r@.len() + k],
        decreases v.len() - i,
    {
        if v[i] != '[' {
            i += 1;
            continue ;
        }
        proof {
            lemma_find_from(v@, i + 1, ']');
        }
        let te = match find_from_exec(v, i + 1, ']') {
            Some(te) => te,
            None => {
                assert(spans_from(v@, i as int) =~= Seq::<(int, int, int)>::empty());
                return r;
            },
        };
        if te + 1 < v.len() && v[te + 1] == '(' {
            proof {
                lemma_find_from(v@, te + 2, ')');
            }
            match find_from_exec(v, te + 2, ')') {
                Some(cl) => {
                    let ghost rest = spans_from(v@, cl + 1);
                    assert(spans_from(v@, i as int) == seq![(i as int, te + 2, cl as int)] + rest);
                    let ghost n0 = r@.len();
                    r.push((i, te + 2, cl));
                    assert forall|k: int| 0 <= k < rest.len() implies #[trigger] rest[k] == all[r@.len()
                        + k] by {
                        assert(spans_from(v@, i as int)[k + 1] == rest[k]);
                    }
                    assert(spans_from(v@, i as int)[0] == all[n0 as int]);
                    i = cl + 1;
                },
                None => {
                    assert(spans_from(v@, i as int) =~= Seq::<(int, int, int)>::empty());
                    return r;
                },
            }
        } else {
            i += 1;
        }
    }
    assert(spans_from(v@, i as int) =~= Seq::<(int, int, int)>::empty());
    r
}

/// The byte offset of char index `i` of `s`.
pub open spec fn byte_at(s: Seq<char>, i: int) -> int {
    text::utf8_len(s.take(i)) as int
}

/// Every `[title](target)` markdown link on `line`, left to right, as
/// `(open, target_start, close)` — byte offsets of the opening `[`, the first
/// target byte, and the closing `)`. The first `]` closes the title (nested
/// brackets aren't supported) and must be immediately followed by `(`.
pub fn link_spans(line: &str) -> (r: Vec<(usize, usize, usize)>)
    ensures
        r@.len() == spans(line@).len(),
        forall|k: int|
            0 <= k < r@.len() ==> (r@[k].0 as int, r@[k].1 as int, r@[k].2 as int) == ({
                let sp = #[trigger] spans(line@)[k];
                (byte_at(line@, sp.0), byte_at(line@, sp.1), byte_at(line@, sp.2))
            }),
{
    let v = text::chars_of(line);
    let total = text::str_byte_len(line);
    let cs = spans_exec(&v);
    let mut r: Vec<(usize, usize, usize)> = Vec::new();
    let mut k: usize = 0;
    while k < cs.len()
        invariant
            v@ == line@,
            total == text::utf8_len(v@),
            k <= cs.len(),
            cs@.len() == spans(v@).len(),
            forall|x: int|
                0 <= x < cs@.len() ==> (cs@[x].0 as int, cs@[x].1 as int, cs@[x].2 as int)
                    == #[trigger] spans(v@)[x],
            r@.len() == k,
            forall|x: int|
                0 <= x < k ==> (r@[x].0 as int, r@[x].1 as int, r@[x].2 as int) == ({
                    let sp = #[trigger] spans(line@)[x];
                    (byte_at(line@, sp.0), byte_at(line@, sp.1), byte_at(line@, sp.2))
                }),
        decreases cs.len() - k,
    {
        let (o, t, c) = cs[k];
        assert(spans(v@)[k as int] == (o as int, t as int, c as int));
        proof {
            lemma_spans_bounds(v@, 0);
        }
        let bo = text::byte_offset(&v, o);
        let bt = text::byte_offset(&v, t);
        let bc = text::byte_offset(&v, c);
        r.push((bo, bt, bc));
        k += 1;
    }
    r
}

proof fn lemma_spans_bounds(s: Seq<char>, i: int)
    ensures
        forall|k: int|
            0 <= k < spans_from(s, i).len() ==> {
                let sp = #[trigger] spans_from(s, i)[k];
                i <= sp.0 < sp.1 <= sp.2 < s.len() && s[sp.0] == '[' && s[sp.1 - 1] == '(' && s[sp.2]
                    == ')'
            },
    decreases s.len() - i,
{
    if i < 0 || i >= s.len() {
    } else if s[i] != '[' {
        lemma_spans_bounds(s, i + 1);
        assert(spans_from(s, i) == spans_from(s, i + 1));
    } else {
        lemma_find_from(s, i + 1, ']');
        match find_from(s, i + 1, ']') {
            None => {},
            Some(te) => {
                if te + 1 < s.len() && s[te + 1] == '(' {
                    lemma_find_from(s, te + 2, ')');
                    match find_from(s, te + 2, ')') {
                        None => {},
                        Some(cl) => {
                            lemma_spans_bounds(s, cl + 1);
                            let rest = spans_from(s, cl + 1);
                            assert forall|k: int| 0 <= k < spans_from(s, i).len() implies {
                                let sp = #[trigger] spans_from(s, i)[k];
                                i <= sp.0 < sp.1 <= sp.2 < s.len() && s[sp.0] == '[' && s[sp.1
                                    - 1] == '(' && s[sp.2] == ')'
                            } by {
                                assert(spans_from(s, i) == seq![(i, te + 2, cl)] + rest);
                                if k > 0 {
                                    assert(spans_from(s, i)[k] == rest[k - 1]);
                                }
                            }
                        },
                    }
                } else {
                    lemma_spans_bounds(s, i + 1);
                    assert(spans_from(s, i) == spans_from(s, i + 1));
                }
            },
        }
    }
}

/// The first of the links `sp` whose span (from `[` through `)`, in bytes)
/// holds byte `col` of `line`.
pub open spec fn first_span_at(sp: Seq<(int, int, int)>, line: Seq<char>, col: int) -> Option<
    (int, int, int),
>
    decreases sp.len(),
{
    if sp.len() == 0 {
        None
    } else if byte_at(line, sp[0].0) <= col <= byte_at(line, sp[0].2) {
        Some(sp[0])
    } else {
        first_span_at(sp.drop_first(), line, col)
    }
}

/// The target of the `[title](target)` markdown link whose span contains byte
/// `col` of `line` — the caret can sit anywhere from the opening `[` through
/// the closing `)`, inclusive. Returns the raw text between the parens; `None`
/// when no link spans `col`.
pub fn link_target_at(line: &str, col: usize) -> (r: Option<&str>)
    ensures
        r is None <==> first_span_at(spans(line@), line@, col as int) is None,
        r matches Some(t) ==> ({
            let sp = first_span_at(spans(line@), line@, col as int)->0;
            t@ == line@.subrange(sp.1, sp.2)
        }),
{
    let v = text::chars_of(line);
    let total = text::str_byte_len(line);
    let cs = spans_exec(&v);
    proof {
        lemma_spans_bounds(v@, 0);
    }
    let ghost all = spans(v@);
    let mut k: usize = 0;
    assert(all.skip(0) =~= all);
    while k < cs.len()
        invariant
            v@ == line@,
            total == text::utf8_len(v@),
            all == spans(v@),
            k <= cs.len(),
            cs@.len() == all.len(),
            forall|x: int|
                0 <= x < cs@.len() ==> (cs@[x].0 as int, cs@[x].1 as int, cs@[x].2 as int)
                    == #[trigger] all[x],
            forall|x: int|
                0 <= x < all.len() ==> {
                    let sp = #[trigger] all[x];
                    0 <= sp.0 < sp.1 <= sp.2 < v@.len()
                },
            first_span_at(all, line@, col as int) == first_span_at(
                all.skip(k as int),
                line@,
                col as int,
            ),
        decreases cs.len() - k,
    {
        let (o, t, c) = cs[k];
        assert(all[k as int] == (o as int, t as int, c as int));
        assert(all.skip(k as int)[0] == all[k as int]);
        assert(all.skip(k as int).drop_first() =~= all.skip(k + 1));
        let bo = text::byte_offset(&v, o);
        let bc = text::byte_offset(&v, c);
        if bo <= col && col <= bc {
            return Some(line.substring_char(t, c));
        }
        k += 1;
    }
    assert(all.skip(k as int) =~= Seq::<(int, int, int)>::empty());
    None
}

// ---------------------------------------------------------------------------
// publish_retarget_links
// ---------------------------------------------------------------------------

pub open spec fn scheme_sep() -> Seq<char> {
    seq![':', '/', '/']
}

pub open spec fn mailto() -> Seq<char> {
    seq!['m', 'a', 'i', 'l', 't', 'o', ':']
}

pub open spec fn md_ext() -> Seq<char> {
    seq!['.', 'm', 'd']
}

pub open spec fn pub_infix() -> Seq<char> {
    seq!['.', 'p', 'u', 'b']
}

/// The scope a file's own path puts it in: local under `/sd/local/`, else
/// the repo.
pub open spec fn own_scope(own: Seq<char>) -> Scope {
    if text::starts_with(own, buffers::local_dir() + buffers::slash()) {
        Scope::Local
    } else {
        Scope::Repo
    }
}

/// The char range of a link's target inside `line`, its parens spanning
/// `ts..cl`: trimmed, then, when wrapped in `<>`, unwrapped and trimmed again.
pub open spec fn target_range(line: Seq<char>, ts: int, cl: int) -> (int, int) {
    let raw = line.subrange(ts, cl);
    let start = ts + text::lead(raw, text::ws_pred());
    let end = start + text::trim(raw).len();
    let t = line.subrange(start, end);
    if t.len() >= 2 && t[0] == '<' && t.last() == '>' {
        let inner = line.subrange(start + 1, end - 1);
        let s2 = start + 1 + text::lead(inner, text::ws_pred());
        (s2, s2 + text::trim(inner).len())
    } else {
        (start, end)
    }
}

/// Where `.pub` goes in `line` for the link whose target spans `ts..cl`: just
/// before the final `.md` of its path, when it names a local file ending in
/// `.md` that resolves, from `own` in scope `sc`, to `from`.
pub open spec fn site_of(
    own: Seq<char>,
    sc: Scope,
    line: Seq<char>,
    ts: int,
    cl: int,
    from: Seq<char>,
) -> Option<int> {
    let r = target_range(line, ts, cl);
    let target = line.subrange(r.0, r.1);
    if text::contains_seq(target, scheme_sep()) || text::starts_with(target, mailto()) {
        None
    } else {
        let path = text::before(target, '#');
        if path.len() == 0 || !text::ends_with(path, md_ext()) {
            None
        } else {
            match buffers::link_target(own, sc, path) {
                Some(hit) => if hit.0 == from {
                    Some(r.0 + path.len() - 3)
                } else {
                    None
                },
                None => None,
            }
        }
    }
}

/// The `.pub` sites of one line, link by link.
pub open spec fn line_sites(
    own: Seq<char>,
    sc: Scope,
    line: Seq<char>,
    from: Seq<char>,
    sp: Seq<(int, int, int)>,
) -> Seq<int>
    decreases sp.len(),
{
    if sp.len() == 0 {
        Seq::empty()
    } else {
        let rest = line_sites(own, sc, line, from, sp.drop_first());
        match site_of(own, sc, line, sp[0].1, sp[0].2, from) {
            Some(x) => seq![x] + rest,
            None => rest,
        }
    }
}

/// Every site shifted by `off`.
pub open spec fn shifted(xs: Seq<int>, off: int) -> Seq<int> {
    Seq::new(xs.len(), |i: int| xs[i] + off)
}

/// The `.pub` sites of the lines `ls`, the first of which starts at char `off`.
pub open spec fn text_sites(
    own: Seq<char>,
    sc: Scope,
    ls: Seq<Seq<char>>,
    from: Seq<char>,
    off: int,
) -> Seq<int>
    decreases ls.len(),
{
    if ls.len() == 0 {
        Seq::empty()
    } else {
        shifted(line_sites(own, sc, ls[0], from, spans(ls[0])), off) + text_sites(
            own,
            sc,
            ls.drop_first(),
            from,
            off + ls[0].len() + 1,
        )
    }
}

/// The char offsets in `t` (the contents of `own`) where links to `from`
/// take their `.pub`.
pub open spec fn retarget_sites(own: Seq<char>, t: Seq<char>, from: Seq<char>) -> Seq<int> {
    text_sites(own, own_scope(own), text::split(t, '\n'), from, 0)
}

/// `t[a..b]`, or nothing when that is no range of `t`.
pub open spec fn piece(t: Seq<char>, a: int, b: int) -> Seq<char> {
    if 0 <= a <= b <= t.len() {
        t.subrange(a, b)
    } else {
        Seq::empty()
    }
}

/// `t` from `prev` on, with `.pub` inserted at each of `sites`.
pub open spec fn spliced(t: Seq<char>, sites: Seq<int>, prev: int) -> Seq<char>
    decreases sites.len(),
{
    if sites.len() == 0 {
        piece(t, prev, t.len() as int)
    } else {
        piece(t, prev, sites[0]) + pub_infix() + spliced(t, sites.drop_first(), sites[0])
    }
}

proof fn lemma_md_literals()
    ensures
        "://"@ == scheme_sep(),
        "mailto:"@ == mailto(),
        ".md"@ == md_ext(),
        ".pub"@ == pub_infix(),
        "/sd/local/"@ == buffers::local_dir() + buffers::slash(),
{
    reveal_strlit("://");
    reveal_strlit("mailto:");
    reveal_strlit(".md");
    reveal_strlit(".pub");
    reveal_strlit("/sd/local/");
    assert("://"@ =~= scheme_sep());
    assert("mailto:"@ =~= mailto());
    assert(".md"@ =~= md_ext());
    assert(".pub"@ =~= pub_infix());
    assert("/sd/local/"@ =~= buffers::local_dir() + buffers::slash());
}

/// Trimmed range of `line[a..b]`: where its first and past its last
/// non-whitespace chars sit.
fn trimmed_range(line: &[char], a: usize, b: usize) -> (r: (usize, usize))
    requires
        a <= b <= line.len(),
    ensures
        r.0 == a + text::lead(line@.subrange(a as int, b as int), text::ws_pred()),
        r.1 == r.0 + text::trim(line@.subrange(a as int, b as int)).len(),
        a <= r.0 <= r.1 <= b,
        line@.subrange(r.0 as int, r.1 as int) == text::trim(line@.subrange(a as int, b as int)),
{
    let raw = text::slice_of(line, a, b);
    let l = text::ws_lead(&raw);
    let t = text::trim_exec(&raw);
    proof {
        text::lemma_lead_bounds(raw@, text::ws_pred());
        text::lemma_trail_bounds(text::trim_start(raw@), text::ws_pred());
        assert(line@.subrange(a + l, a + l + t@.len()) =~= t@);
    }
    (a + l, a + l + t.len())
}

fn retarget_site(own: &str, sc: Scope, line: &[char], ts: usize, cl: usize, from: &[char]) -> (r: Option<
    usize,
>)
    requires
        ts <= cl <= line.len(),
    ensures
        r is None <==> site_of(own@, sc, line@, ts as int, cl as int, from@) is None,
        r matches Some(x) ==> site_of(own@, sc, line@, ts as int, cl as int, from@) == Some(
            x as int,
        ) && ts <= x < cl,
{
    proof {
        lemma_md_literals();
    }
    let (mut start, mut end) = trimmed_range(line, ts, cl);
    if end - start >= 2 && line[start] == '<' && line[end - 1] == '>' {
        let (s2, e2) = trimmed_range(line, start + 1, end - 1);
        start = s2;
        end = e2;
    }
    let ghost rg = target_range(line@, ts as int, cl as int);
    assert(rg == (start as int, end as int));
    let target = text::slice_of(line, start, end);
    if text::contains_str(&target, "://") || text::starts_with_str(&target, "mailto:") {
        return None;
    }
    let path = text::before_exec(&target, '#');
    proof {
        text::lemma_find(target@, '#');
    }
    if path.len() == 0 || !text::ends_with_str(&path, ".md") {
        return None;
    }
    let path_str = text::string_of(&path);
    match buffers::resolve_link_target(own, sc, path_str.as_str()) {
        Some((abs, _)) => {
            let abs_chars = text::chars_of(abs.as_str());
            if text::chars_eq(&abs_chars, from) {
                Some(start + path.len() - 3)
            } else {
                None
            }
        },
        None => None,
    }
}

/// The `.pub` sites of the line `line`, shifted by `off`, appended to `out`.
fn push_line_sites(
    own: &str,
    sc: Scope,
    line: &[char],
    from: &[char],
    off: usize,
    bound: usize,
    out: &mut Vec<usize>,
)
    requires
        off + line.len() <= bound,
        forall|k: int| 0 <= k < old(out)@.len() ==> old(out)@[k] < bound,
    ensures
        forall|k: int| 0 <= k < final(out)@.len() ==> final(out)@[k] < bound,
        final(out)@.len() == old(out)@.len() + line_sites(own@, sc, line@, from@, spans(line@)).len(),
        forall|k: int| 0 <= k < old(out)@.len() ==> final(out)@[k] == old(out)@[k],
        forall|k: int|
            0 <= k < line_sites(own@, sc, line@, from@, spans(line@)).len() ==> final(out)@[old(
                out,
            )@.len() + k] == #[trigger] line_sites(own@, sc, line@, from@, spans(line@))[k]
                + off,
{
    let cs = spans_exec(line);
    proof {
        lemma_spans_bounds(line@, 0);
    }
    let ghost all = spans(line@);
    let ghost target = line_sites(own@, sc, line@, from@, all);
    let ghost n0 = out@.len();
    let mut k: usize = 0;
    assert(all.skip(0) =~= all);
    while k < cs.len()
        invariant
            off + line.len() <= bound,
            all == spans(line@),
            target == line_sites(own@, sc, line@, from@, all),
            k <= cs.len(),
            cs@.len() == all.len(),
            forall|x: int|
                0 <= x < cs@.len() ==> (cs@[x].0 as int, cs@[x].1 as int, cs@[x].2 as int)
                    == #[trigger] all[x],
            forall|x: int|
                0 <= x < all.len() ==> {
                    let sp = #[trigger] all[x];
                    0 <= sp.0 < sp.1 <= sp.2 < line@.len()
                },
            n0 <= out@.len(),
            forall|x: int| 0 <= x < out@.len() ==> out@[x] < bound,
            forall|x: int| 0 <= x < n0 ==> out@[x] == old(out)@[x],
            n0 == old(out)@.len(),
            target.len() == (out@.len() - n0) + line_sites(
                own@,
                sc,
                line@,
                from@,
                all.skip(k as int),
            ).len(),
            forall|x: int| 0 <= x < out@.len() - n0 ==> out@[n0 + x] == target[x] + off,
            forall|x: int|
                0 <= x < line_sites(own@, sc, line@, from@, all.skip(k as int)).len()
                    ==> #[trigger] line_sites(own@, sc, line@, from@, all.skip(k as int))[x]
                    == target[(out@.len() - n0) + x],
        decreases cs.len() - k,
    {
        let (_, t, c) = cs[k];
        assert(all[k as int] == (cs@[k as int].0 as int, t as int, c as int));
        let ghost rest_sp = all.skip(k as int);
        assert(rest_sp[0] == all[k as int]);
        assert(rest_sp.drop_first() =~= all.skip(k + 1));
        let ghost tail = line_sites(own@, sc, line@, from@, all.skip(k + 1));
        match retarget_site(own, sc, line, t, c, from) {
            Some(x) => {
                assert(line_sites(own@, sc, line@, from@, rest_sp) == seq![x as int] + tail);
                let ghost before_len = out@.len();
                assert(line_sites(own@, sc, line@, from@, rest_sp)[0] == x as int);
                out.push(off + x);
                assert forall|y: int| 0 <= y < tail.len() implies #[trigger] tail[y] == target[(
                out@.len() - n0) + y] by {
                    assert(line_sites(own@, sc, line@, from@, rest_sp)[y + 1] == tail[y]);
                }
            },
            None => {
                assert(line_sites(own@, sc, line@, from@, rest_sp) == tail);
            },
        }
        k += 1;
    }
    assert(all.skip(k as int) =~= Seq::<(int, int, int)>::empty());
}

/// `:pub` — retarget every markdown link in `text` (the contents of
/// `own_path`) that points at `from` (the absolute pre-publish card path) so
/// it follows the file to its `.pub.md` name. A link is rewritten iff following
/// it would have opened `from`; each hit keeps the writer's own spelling and
/// just grows a `.pub` before the target's final `.md`. Returns the new text
/// plus each insertion offset (in bytes) **in the old text**, or `None` when
/// nothing links to `from`.
pub fn publish_retarget_links(own_path: &str, text: &str, from: &str) -> (r: Option<
    (String, Vec<usize>),
>)
    ensures
        r is None <==> retarget_sites(own_path@, text@, from@).len() == 0,
        r matches Some((out, offs)) ==> {
            let sites = retarget_sites(own_path@, text@, from@);
            &&& out@ == spliced(text@, sites, 0)
            &&& offs@.len() == sites.len()
            &&& forall|k: int|
                0 <= k < offs@.len() ==> offs@[k] as int == byte_at(text@, #[trigger] sites[k])
        },
{
    proof {
        lemma_md_literals();
    }
    let own_v = text::chars_of(own_path);
    let sc = if text::starts_with_str(&own_v, "/sd/local/") {
        Scope::Local
    } else {
        Scope::Repo
    };
    assert(sc == own_scope(own_path@));
    let v = text::chars_of(text);
    let fv = text::chars_of(from);
    let total = text::str_byte_len(text);
    let ghost all = retarget_sites(own_path@, text@, from@);
    let mut sites: Vec<usize> = Vec::new();
    let mut start: usize = 0;
    assert(v@.skip(0) =~= v@);
    loop
        invariant_except_break
            all.len() == sites@.len() + text_sites(
                own_path@,
                sc,
                text::split(v@.skip(start as int), '\n'),
                from@,
                start as int,
            ).len(),
            forall|k: int|
                0 <= k < text_sites(
                    own_path@,
                    sc,
                    text::split(v@.skip(start as int), '\n'),
                    from@,
                    start as int,
                ).len() ==> #[trigger] text_sites(
                    own_path@,
                    sc,
                    text::split(v@.skip(start as int), '\n'),
                    from@,
                    start as int,
                )[k] == all[sites@.len() + k],
        invariant
            v@ == text@,
            fv@ == from@,
            sc == own_scope(own_path@),
            all == retarget_sites(own_path@, text@, from@),
            start <= v.len(),
            forall|k: int| 0 <= k < sites@.len() ==> sites@[k] < v.len(),
            forall|k: int| 0 <= k < sites@.len() ==> sites@[k] as int == all[k],
        ensures
            forall|k: int| 0 <= k < sites@.len() ==> sites@[k] < v.len(),
            forall|k: int| 0 <= k < sites@.len() ==> sites@[k] as int == all[k],
            sites@.len() == all.len(),
        decreases v.len() - start,
    {
        let rest = text::slice_of(&v, start, v.len());
        assert(rest@ == v@.skip(start as int));
        proof {
            text::lemma_find(rest@, '\n');
        }
        let found = text::find_char(&rest, '\n');
        let len = match found {
            Some(i) => i,
            None => rest.len(),
        };
        let line = text::slice_of(&v, start, start + len);
        let ghost ls = text::split(rest@, '\n');
        let ghost tail_lines = if found is Some {
            text::split(v@.skip(start + len + 1), '\n')
        } else {
            Seq::<Seq<char>>::empty()
        };
        proof {
            match found {
                Some(i) => {
                    assert(rest@.take(i as int) =~= line@);
                    assert(rest@.skip(i as int + 1) =~= v@.skip(start + len + 1));
                    assert(ls == seq![line@] + tail_lines);
                },
                None => {
                    assert(line@ =~= rest@);
                    assert(ls == seq![line@]);
                    assert(seq![line@] + tail_lines =~= seq![line@]);
                },
            }
            assert((seq![line@] + tail_lines)[0] == line@);
            assert((seq![line@] + tail_lines).drop_first() =~= tail_lines);
        }
        let ghost here = shifted(line_sites(own_path@, sc, line@, from@, spans(line@)), start as int);
        let ghost later = text_sites(own_path@, sc, tail_lines, from@, start + len + 1);
        assert(text_sites(own_path@, sc, ls, from@, start as int) == here + later);
        let ghost k0 = sites@.len();
        push_line_sites(own_path, sc, &line, &fv, start, v.len(), &mut sites);
        proof {
            assert forall|k: int| 0 <= k < sites@.len() implies sites@[k] as int == all[k] by {
                if k >= k0 {
                    assert(here[k - k0] == sites@[k] as int);
                    assert((here + later)[k - k0] == here[k - k0]);
                }
            }
            assert forall|k: int| 0 <= k < later.len() implies #[trigger] later[k] == all[
            sites@.len() + k] by {
                assert((here + later)[here.len() + k] == later[k]);
            }
        }
        match found {
            Some(_) => {
                start = start + len + 1;
            },
            None => {
                assert(later.len() == 0);
                assert(sites@.len() == all.len());
                break ;
            },
        }
    }
    assert(sites@.len() == all.len());
    if sites.len() == 0 {
        return None;
    }
    // Splice `.pub` in at each site, and report the sites in bytes.
    let mut out: Vec<char> = Vec::new();
    let mut offs: Vec<usize> = Vec::new();
    let mut prev: usize = 0;
    let mut k: usize = 0;
    let ghost sp = Seq::new(sites@.len(), |i: int| sites@[i] as int);
    assert(sp =~= all);
    assert(sp.skip(0) =~= sp);
    while k < sites.len()
        invariant
            v@ == text@,
            total == text::utf8_len(v@),
            ".pub"@ == pub_infix(),
            sp == all,
            sp.len() == sites@.len(),
            forall|i: int| 0 <= i < sites@.len() ==> sites@[i] < v.len(),
            forall|i: int| 0 <= i < sites@.len() ==> sites@[i] as int == sp[i],
            k <= sites.len(),
            spliced(v@, sp, 0) == out@ + spliced(v@, sp.skip(k as int), prev as int),
            offs@.len() == k,
            forall|i: int| 0 <= i < k ==> offs@[i] as int == byte_at(text@, #[trigger] sp[i]),
        decreases sites.len() - k,
    {
        let s_at = sites[k];
        assert(sp.skip(k as int)[0] == s_at as int);
        assert(sp.skip(k as int).drop_first() =~= sp.skip(k + 1));
        let ghost before_out = out@;
        if prev <= s_at && s_at <= v.len() {
            let part = text::slice_of(&v, prev, s_at);
            text::extend(&mut out, &part);
        }
        text::extend_str(&mut out, ".pub");
        assert(out@ =~= before_out + piece(v@, prev as int, s_at as int) + pub_infix());
        let b = text::byte_offset(&v, s_at);
        offs.push(b);
        prev = s_at;
        k += 1;
    }
    assert(sp.skip(k as int) =~= Seq::<int>::empty());
    if prev <= v.len() {
        let part = text::slice_of(&v, prev, v.len());
        text::extend(&mut out, &part);
    }
    assert(spliced(v@, sp, 0) =~= out@);
    Some((text::string_of(&out), offs))
}

} // verus!
