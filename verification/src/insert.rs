//! Insert mode's keys: typing, Enter with list continuation, the deletes,
//! Tab (snippet expansion or a tab-stop step), and the ways out.

use vstd::prelude::*;
use vstd::utf8::encode_utf8;
use crate::edits::{
    backspace, continued, delete_to_line_start, delete_word_before, expansion, first_with_prefix,
    insert_char, insert_newline, insert_str, offsets, snippet_advance, try_expand_snippet,
    word_before_start, caret_line,
};
use crate::markdown::marker_overflows;
use crate::motions::{
    bytes, is_ascii_ws, is_boundary, line_start, line_start_of, prev_boundary, prev_char, run_start,
};
use crate::palette::Key;
use crate::snippets::Snippets;

verus! {

/// Where Insert mode goes after a key.
#[derive(Debug, Clone, Copy, PartialEq, Eq, Structural)]
pub enum InsertLeave {
    /// Still inserting.
    Stay,
    /// Esc: back to Normal.
    Normal,
    /// `Cmd-P`: back to Normal with the file palette open.
    Palette,
    /// `Cmd-Shift-P`: back to Normal with the `>` command list open.
    CommandPalette,
}

/// The buffer, caret and pending snippet stops after an Insert-mode key, and
/// where the mode goes.
pub struct InsertOutcome {
    pub text: String,
    pub caret: usize,
    pub stops: Vec<usize>,
    pub leave: InsertLeave,
}

/// A pending stop after an edit that took the buffer from `old_len` to
/// `new_len` bytes: moved by the difference, saturating at the ends.
pub open spec fn shifted(s: usize, old_len: int, new_len: int) -> usize {
    if new_len >= old_len {
        if s + (new_len - old_len) > usize::MAX {
            usize::MAX
        } else {
            (s + (new_len - old_len)) as usize
        }
    } else if s >= old_len - new_len {
        (s - (old_len - new_len)) as usize
    } else {
        0
    }
}

/// Every pending stop moved along with an edit at the caret.
pub open spec fn shift_all(stops: Seq<usize>, old_len: int, new_len: int) -> Seq<usize> {
    Seq::new(stops.len(), |k: int| shifted(stops[k], old_len, new_len))
}

/// Leaving Insert drops the caret onto the last inserted char (not past the
/// start of its line).
pub open spec fn stepped_back(b: Seq<u8>, caret: int) -> int {
    if caret > line_start_of(b, caret) {
        prev_boundary(b, caret)
    } else {
        caret
    }
}

/// The snippet whose prefix is the word before the caret, if any.
pub open spec fn expandable(b: Seq<u8>, caret: int, snippets: Snippets) -> Option<int> {
    if caret == 0 || is_ascii_ws(b[caret - 1]) {
        None
    } else {
        first_with_prefix(snippets.0@, b.subrange(run_start(b, caret, false), caret), 0)
    }
}

/// What Insert mode asks of the buffer before a key: room for what the key
/// can add, and an item number Enter can continue.
pub open spec fn insert_fits(text: &str, caret: usize, snippets: Snippets) -> bool {
    let b = bytes(text);
    &&& b.len() + 4 <= usize::MAX
    &&& caret == crate::motions::line_end_of(b, caret as int) ==> !marker_overflows(
        caret_line(b, caret as int),
    )
    &&& continued(b, caret as int) matches Some((next, _, _)) ==> b.len() + 1 + encode_utf8(
        next,
    ).len() <= usize::MAX
    &&& forall|i: int|
        0 <= i < snippets.0@.len() ==> b.len() + encode_utf8(
            (#[trigger] snippets.0@[i]).body@,
        ).len() <= usize::MAX
}

proof fn lemma_tab_bytes()
    ensures
        bytes("    ") == seq![0x20u8, 0x20u8, 0x20u8, 0x20u8],
{
    reveal_strlit("    ");
    let s = "    "@;
    assert(((32u32 & 0x7F) as u8) == 32u8) by (bit_vector);
    assert(vstd::utf8::encode_scalar(32u32) =~= seq![0x20u8]);
    assert(encode_utf8(Seq::<char>::empty()) =~= Seq::<u8>::empty());
    assert(s.drop_first().drop_first().drop_first().drop_first() =~= Seq::<char>::empty());
    assert(encode_utf8(s.drop_first().drop_first().drop_first()) =~= seq![0x20u8]);
    assert(encode_utf8(s.drop_first().drop_first()) =~= seq![0x20u8, 0x20u8]);
    assert(encode_utf8(s.drop_first()) =~= seq![0x20u8, 0x20u8, 0x20u8]);
    assert(encode_utf8(s) =~= seq![0x20u8, 0x20u8, 0x20u8, 0x20u8]);
}

fn copy_stops(stops: &Vec<usize>) -> (r: Vec<usize>)
    ensures
        r@ == stops@,
{
    let mut r: Vec<usize> = Vec::new();
    let mut k: usize = 0;
    while k < stops.len()
        invariant
            k <= stops@.len(),
            r@ == stops@.take(k as int),
        decreases stops@.len() - k,
    {
        r.push(stops[k]);
        k += 1;
        assert(r@ =~= stops@.take(k as int));
    }
    assert(stops@.take(stops@.len() as int) =~= stops@);
    r
}

fn shift_stops(stops: &Vec<usize>, old_len: usize, new_len: usize) -> (r: Vec<usize>)
    ensures
        r@ == shift_all(stops@, old_len as int, new_len as int),
{
    let mut r: Vec<usize> = Vec::new();
    let mut k: usize = 0;
    while k < stops.len()
        invariant
            k <= stops@.len(),
            r@ == shift_all(stops@, old_len as int, new_len as int).take(k as int),
        decreases stops@.len() - k,
    {
        let s = stops[k];
        let t = if new_len >= old_len {
            s.saturating_add(new_len - old_len)
        } else {
            s.saturating_sub(old_len - new_len)
        };
        r.push(t);
        k += 1;
        assert(r@ =~= shift_all(stops@, old_len as int, new_len as int).take(k as int));
    }
    assert(shift_all(stops@, old_len as int, new_len as int).take(stops@.len() as int) =~= shift_all(
        stops@,
        old_len as int,
        new_len as int,
    ));
    r
}

/// A key in Insert mode. Typing inserts at the caret; Enter starts a new
/// line, continuing a Markdown list or quote; Backspace, `Ctrl-W` and
/// `Cmd-Backspace` delete the char, the word and the line before the caret.
/// Tab steps to the next stop of a live snippet session, else expands the
/// snippet whose prefix is the word before the caret, else inserts four
/// spaces. While a session is live, its pending stops (all at or after the
/// caret) move with every edit. Esc and the palette keys leave Insert, the
/// caret stepping back onto the last inserted char; the navigation keys do
/// nothing here.
pub fn insert_key(text: &str, caret: usize, stops: &Vec<usize>, snippets: &Snippets, key: Key) -> (r:
    InsertOutcome)
    requires
        is_boundary(bytes(text), caret as int),
        insert_fits(text, caret, *snippets),
    ensures
        ({
            let b = bytes(text);
            let nb = encode_utf8(r.text@);
            let session = stops@.len() > 0;
            let kept = if session {
                shift_all(stops@, b.len() as int, nb.len() as int)
            } else {
                stops@
            };
            match key {
                Key::Char(c) => if c == '\t' && session {
                    &&& nb == b
                    &&& r.caret == (if stops@[0] <= b.len() {
                        stops@[0] as int
                    } else {
                        b.len() as int
                    })
                    &&& r.stops@ == stops@.drop_first()
                    &&& r.leave == InsertLeave::Stay
                } else if c == '\t' {
                    &&& r.leave == InsertLeave::Stay
                    &&& match expandable(b, caret as int, *snippets) {
                        Some(i) => expansion(
                            b.subrange(0, run_start(b, caret as int, false)) + b.subrange(
                                caret as int,
                                b.len() as int,
                            ),
                            run_start(b, caret as int, false),
                            snippets.0@[i].body@,
                        ) == (nb, r.caret as int, offsets(r.stops@)),
                        None => nb == b.subrange(0, caret as int) + bytes("    ") + b.subrange(
                            caret as int,
                            b.len() as int,
                        ) && r.caret == caret + 4 && r.stops@ == stops@,
                    }
                } else {
                    &&& nb == b.subrange(0, caret as int) + encode_utf8(seq![c]) + b.subrange(
                        caret as int,
                        b.len() as int,
                    )
                    &&& r.caret == caret + encode_utf8(seq![c]).len()
                    &&& r.stops@ == kept
                    &&& r.leave == InsertLeave::Stay
                },
                Key::Enter => {
                    &&& r.stops@ == kept
                    &&& r.leave == InsertLeave::Stay
                    &&& {
                        let ls = line_start_of(b, caret as int);
                        match continued(b, caret as int) {
                            Some((next, cur, true)) => nb == b.subrange(0, ls) + b.subrange(
                                ls + cur,
                                b.len() as int,
                            ) && r.caret == ls,
                            Some((next, cur, false)) => nb == b.subrange(0, caret as int)
                                + seq![0x0Au8] + encode_utf8(next) + b.subrange(
                                caret as int,
                                b.len() as int,
                            ) && r.caret == caret + 1 + encode_utf8(next).len(),
                            None => nb == b.subrange(0, caret as int) + seq![0x0Au8]
                                + b.subrange(caret as int, b.len() as int) && r.caret == caret
                                + 1,
                        }
                    }
                },
                Key::Backspace => {
                    &&& r.stops@ == kept
                    &&& r.leave == InsertLeave::Stay
                    &&& caret == 0 ==> nb == b && r.caret == 0
                    &&& caret > 0 ==> r.caret == prev_boundary(b, caret as int) && nb
                        == b.subrange(0, r.caret as int) + b.subrange(caret as int, b.len() as int)
                },
                Key::DeleteWord => {
                    &&& r.stops@ == kept
                    &&& r.leave == InsertLeave::Stay
                    &&& r.caret == word_before_start(b, caret as int)
                    &&& nb == b.subrange(0, r.caret as int) + b.subrange(
                        caret as int,
                        b.len() as int,
                    )
                },
                Key::DeleteLine => {
                    &&& r.stops@ == kept
                    &&& r.leave == InsertLeave::Stay
                    &&& {
                        let ls = line_start_of(b, caret as int);
                        if ls == caret && caret == 0 {
                            nb == b && r.caret == 0
                        } else {
                            let from = if ls == caret {
                                caret - 1
                            } else {
                                ls
                            };
                            r.caret == from && nb == b.subrange(0, from) + b.subrange(
                                caret as int,
                                b.len() as int,
                            )
                        }
                    }
                },
                Key::Escape | Key::Palette | Key::CommandPalette => {
                    &&& nb == b
                    &&& r.caret == stepped_back(b, caret as int)
                    &&& r.stops@ == stops@
                    &&& r.leave == match key {
                        Key::Escape => InsertLeave::Normal,
                        Key::Palette => InsertLeave::Palette,
                        _ => InsertLeave::CommandPalette,
                    }
                },
                _ => nb == b && r.caret == caret && r.stops@ == stops@ && r.leave
                    == InsertLeave::Stay,
            }
        }),
        !(key == Key::Char('\t') && (stops@.len() > 0 || expandable(
            bytes(text),
            caret as int,
            *snippets,
        ) is Some)) ==> is_boundary(encode_utf8(r.text@), r.caret as int),
{
    let session = stops.len() > 0;
    let len_before = text.as_bytes().len();
    let copy = crate::text::string_of(crate::text::chars_of(text).as_slice());
    let (t, c, leave) = match key {
        Key::Char(ch) => {
            if ch == '\t' && session {
                let (c, rest) = match snippet_advance(text, stops) {
                    Some(p) => p,
                    None => (caret, Vec::new()),
                };
                proof {
                    vstd::utf8::encode_utf8_valid_utf8(text@);
                }
                return InsertOutcome { text: copy, caret: c, stops: rest, leave: InsertLeave::Stay };
            } else if ch == '\t' {
                match try_expand_snippet(text, caret, snippets) {
                    Some(e) => {
                        return InsertOutcome {
                            text: e.text,
                            caret: e.caret,
                            stops: e.stops,
                            leave: InsertLeave::Stay,
                        };
                    },
                    None => {
                        proof {
                            lemma_tab_bytes();
                        }
                        let (t, c) = insert_str(text, caret, "    ");
                        (t, c, InsertLeave::Stay)
                    },
                }
            } else {
                let (t, c) = insert_char(text, caret, ch);
                (t, c, InsertLeave::Stay)
            }
        },
        Key::Enter => {
            let (t, c) = insert_newline(text, caret);
            (t, c, InsertLeave::Stay)
        },
        Key::Backspace => {
            let (t, c) = backspace(text, caret);
            (t, c, InsertLeave::Stay)
        },
        Key::DeleteWord => {
            let (t, c) = delete_word_before(text, caret);
            (t, c, InsertLeave::Stay)
        },
        Key::DeleteLine => {
            let (t, c) = delete_to_line_start(text, caret);
            (t, c, InsertLeave::Stay)
        },
        Key::Escape | Key::Palette | Key::CommandPalette => {
            let c = if caret > line_start(text, caret) {
                prev_char(text, caret)
            } else {
                caret
            };
            let leave = match key {
                Key::Escape => InsertLeave::Normal,
                Key::Palette => InsertLeave::Palette,
                _ => InsertLeave::CommandPalette,
            };
            return InsertOutcome { text: copy, caret: c, stops: copy_stops(stops), leave };
        },
        _ => {
            return InsertOutcome {
                text: copy,
                caret,
                stops: copy_stops(stops),
                leave: InsertLeave::Stay,
            };
        },
    };
    let len_after = t.as_str().as_bytes().len();
    let kept = if session {
        shift_stops(stops, len_before, len_after)
    } else {
        copy_stops(stops)
    };
    InsertOutcome { text: t, caret: c, stops: kept, leave }
}

} // verus!
