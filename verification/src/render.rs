//! Text layout for the side panel: greedy word wrapping of snackbar notices.

use vstd::prelude::*;
use crate::text;

verus! {

/// The predicate "not whitespace".
pub open spec fn non_ws_pred() -> spec_fn(char) -> bool {
    |c: char| !text::is_ws(c)
}

/// `str::split_whitespace`: the maximal runs of non-whitespace chars.
pub open spec fn words_of(s: Seq<char>) -> Seq<Seq<char>>
    decreases s.len(),
{
    let t = text::trim_start(s);
    if t.len() == 0 {
        Seq::empty()
    } else {
        let n = text::lead(t, non_ws_pred());
        proof {
            text::lemma_lead_bounds(s, text::ws_pred());
            text::lemma_lead_bounds(t, non_ws_pred());
            lemma_first_not_ws(s);
        }
        seq![t.take(n as int)] + words_of(t.skip(n as int))
    }
}

/// The first char left after trimming is no whitespace, so a word starts there.
pub proof fn lemma_first_not_ws(s: Seq<char>)
    ensures
        text::trim_start(s).len() > 0 ==> text::lead(text::trim_start(s), non_ws_pred()) > 0,
{
    let l = text::lead(s, text::ws_pred());
    text::lemma_lead_bounds(s, text::ws_pred());
    text::lemma_lead(s, text::ws_pred(), l as int);
    let t = text::trim_start(s);
    if t.len() > 0 {
        assert(t[0] == s[l as int]);
        assert(!text::ws_pred()(s[l as int]));
        assert(non_ws_pred()(t[0]));
        text::lemma_lead_bounds(t, non_ws_pred());
        if text::lead(t, non_ws_pred()) == 0 {
            text::lemma_lead(t, non_ws_pred(), 0);
        }
    }
}

/// Number of leading non-whitespace chars of `v`.
fn non_ws_lead(v: &[char]) -> (r: usize)
    ensures
        r == text::lead(v@, non_ws_pred()),
{
    let mut i: usize = 0;
    while i < v.len() && !text::char_is_ws(v[i])
        invariant
            i <= v.len(),
            forall|j: int| 0 <= j < i ==> !text::is_ws(#[trigger] v@[j]),
        decreases v.len() - i,
    {
        i += 1;
    }
    proof {
        assert forall|j: int| 0 <= j < i implies #[trigger] non_ws_pred()(v@[j]) by {
            assert(!text::is_ws(v@[j]));
        }
        text::lemma_lead(v@, non_ws_pred(), i as int);
    }
    i
}

/// A word hard-split into pieces of `width` chars (the last may be shorter).
pub open spec fn chunks(w: Seq<char>, width: nat) -> Seq<Seq<char>>
    decreases w.len(),
{
    if w.len() == 0 || width == 0 {
        Seq::empty()
    } else if w.len() <= width {
        seq![w]
    } else {
        seq![w.take(width as int)] + chunks(w.skip(width as int), width)
    }
}

/// One word through the packer: `(finished lines, current line)` before and
/// after. An over-long word flushes the current line and is hard-split; any
/// other word joins the current line, flushing it first when it would not fit.
pub open spec fn wrap_step(
    state: (Seq<Seq<char>>, Seq<char>),
    word: Seq<char>,
    width: nat,
) -> (Seq<Seq<char>>, Seq<char>) {
    let lines = state.0;
    let cur = state.1;
    if word.len() > width {
        (
            (if cur.len() > 0 {
                lines.push(cur)
            } else {
                lines
            }) + chunks(word, width),
            Seq::empty(),
        )
    } else {
        let sep: nat = if cur.len() > 0 {
            1
        } else {
            0
        };
        let flush = cur.len() + sep + word.len() > width;
        let lines2 = if flush {
            lines.push(cur)
        } else {
            lines
        };
        let cur2 = if flush {
            Seq::<char>::empty()
        } else {
            cur
        };
        (lines2, if cur2.len() > 0 {
            cur2 + seq![' '] + word
        } else {
            word
        })
    }
}

/// The packer's state after the words `ws`.
pub open spec fn wrap_words(ws: Seq<Seq<char>>, width: nat) -> (Seq<Seq<char>>, Seq<char>)
    decreases ws.len(),
{
    if ws.len() == 0 {
        (Seq::empty(), Seq::empty())
    } else {
        wrap_step(wrap_words(ws.drop_last(), width), ws.last(), width)
    }
}

/// The wrapped lines of `t` at `width` columns (at least 1).
pub open spec fn wrapped(t: Seq<char>, width: nat) -> Seq<Seq<char>> {
    let w: nat = if width == 0 {
        1
    } else {
        width
    };
    let st = wrap_words(words_of(t), w);
    if st.1.len() > 0 {
        st.0.push(st.1)
    } else {
        st.0
    }
}

proof fn lemma_chunks(w: Seq<char>, width: nat)
    requires
        width > 0,
    ensures
        forall|i: int|
            0 <= i < chunks(w, width).len() ==> 0 < (#[trigger] chunks(w, width)[i]).len() <= width,
    decreases w.len(),
{
    if w.len() > width {
        lemma_chunks(w.skip(width as int), width);
        let rest = chunks(w.skip(width as int), width);
        assert forall|i: int|
            0 <= i < chunks(w, width).len() implies 0 < (#[trigger] chunks(w, width)[i]).len()
            <= width by {
            if i > 0 {
                assert(chunks(w, width)[i] == rest[i - 1]);
            }
        }
    }
}

/// Every line the packer has finished, and the line it is filling, fit in
/// `width` columns; finished lines are never empty.
pub open spec fn fits(st: (Seq<Seq<char>>, Seq<char>), width: nat) -> bool {
    &&& st.1.len() <= width
    &&& forall|i: int| 0 <= i < st.0.len() ==> 0 < (#[trigger] st.0[i]).len() <= width
}

proof fn lemma_wrap_fits(ws: Seq<Seq<char>>, width: nat)
    requires
        width > 0,
    ensures
        fits(wrap_words(ws, width), width),
    decreases ws.len(),
{
    if ws.len() > 0 {
        lemma_wrap_fits(ws.drop_last(), width);
        let st = wrap_words(ws.drop_last(), width);
        let word = ws.last();
        let nst = wrap_step(st, word, width);
        if word.len() > width {
            lemma_chunks(word, width);
            let pre = if st.1.len() > 0 {
                st.0.push(st.1)
            } else {
                st.0
            };
            assert forall|i: int| 0 <= i < nst.0.len() implies 0 < (#[trigger] nst.0[i]).len()
                <= width by {
                if i < pre.len() {
                    assert(nst.0[i] == pre[i]);
                } else {
                    assert(nst.0[i] == chunks(word, width)[i - pre.len()]);
                }
            }
        }
    }
}

fn chunk_exec(out: &mut Vec<String>, w: &[char], width: usize)
    requires
        width > 0,
    ensures
        text::strings(final(out)@) == text::strings(old(out)@) + chunks(w@, width as nat),
{
    let mut i: usize = 0;
    let ghost base = text::strings(out@);
    assert(w@.skip(0) =~= w@);
    assert(base + chunks(w@, width as nat) =~= base + chunks(w@.skip(0), width as nat));
    while i < w.len()
        invariant
            width > 0,
            i <= w.len(),
            text::strings(out@) + chunks(w@.skip(i as int), width as nat) == base + chunks(
                w@,
                width as nat,
            ),
        decreases w.len() - i,
    {
        let ghost rest = w@.skip(i as int);
        let end = if w.len() - i <= width {
            w.len()
        } else {
            i + width
        };
        let piece = text::slice_of(w, i, end);
        let ghost o = text::strings(out@);
        out.push(text::string_of(&piece));
        assert(text::strings(out@) =~= o.push(piece@));
        if w.len() - i <= width {
            assert(piece@ =~= rest);
            assert(chunks(rest, width as nat) == seq![rest]);
            assert(w@.skip(end as int) =~= Seq::<char>::empty());
            assert(o.push(piece@) + Seq::<Seq<char>>::empty() =~= o + seq![rest]);
        } else {
            assert(piece@ =~= rest.take(width as int));
            assert(rest.skip(width as int) =~= w@.skip(end as int));
            assert(o + chunks(rest, width as nat) =~= o.push(piece@) + chunks(
                w@.skip(end as int),
                width as nat,
            ));
        }
        i = end;
    }
    assert(w@.skip(i as int) =~= Seq::<char>::empty());
    assert(text::strings(out@) + Seq::<Seq<char>>::empty() =~= text::strings(out@));
}

/// Word-wrap `text` to lines of at most `width` characters, for the side-panel
/// snackbar. Packs whole words greedily; a word longer than `width` is
/// hard-split across lines (so a long path or oid still shows in full rather
/// than being truncated). Empty input yields no lines.
pub fn wrap_text(text: &str, width: usize) -> (r: Vec<String>)
    ensures
        text::strings(r@) == wrapped(text@, width as nat),
        forall|i: int|
            0 <= i < r@.len() ==> 0 < (#[trigger] r@[i])@.len() <= (if width == 0 {
                1
            } else {
                width as int
            }),
{
    let width = if width == 0 {
        1
    } else {
        width
    };
    let v = text::chars_of(text);
    let mut lines: Vec<String> = Vec::new();
    let mut cur: Vec<char> = Vec::new();
    let ghost mut done: Seq<Seq<char>> = Seq::empty();
    let mut i: usize = 0;
    assert(v@.skip(0) =~= v@);
    assert(done + words_of(v@) =~= words_of(v@));
    loop
        invariant
            width > 0,
            i <= v.len(),
            words_of(v@) == done + words_of(v@.skip(i as int)),
            wrap_words(done, width as nat) == (text::strings(lines@), cur@),
        ensures
            width > 0,
            words_of(v@) == done,
            wrap_words(done, width as nat) == (text::strings(lines@), cur@),
        decreases v.len() - i,
    {
        // Skip whitespace to the next word.
        let rest = text::slice_of(&v, i, v.len());
        let lead = text::ws_lead(&rest);
        proof {
            text::lemma_lead_bounds(rest@, text::ws_pred());
            lemma_first_not_ws(rest@);
        }
        assert(rest@ == v@.skip(i as int));
        proof {
            lemma_wrap_fits(done, width as nat);
        }
        if lead == rest.len() {
            assert(text::trim_start(rest@).len() == 0);
            assert(words_of(rest@) =~= Seq::<Seq<char>>::empty());
            assert(done + Seq::<Seq<char>>::empty() =~= done);
            break ;
        }
        let t = text::slice_of(&rest, lead, rest.len());
        let n = non_ws_lead(&t);
        proof {
            text::lemma_lead_bounds(t@, non_ws_pred());
        }
        let word = text::slice_of(&t, 0, n);
        assert(rest@ == v@.skip(i as int));
        assert(t@ == text::trim_start(rest@));
        assert(words_of(rest@) == seq![word@] + words_of(t@.skip(n as int)));
        assert(t@.skip(n as int) =~= v@.skip(i + lead + n));
        proof {
            assert(words_of(v@) =~= done.push(word@) + words_of(v@.skip(i + lead + n)));
            assert(done.push(word@).drop_last() =~= done);
            assert(done.push(word@).last() == word@);
            done = done.push(word@);
        }
        // Pack it.
        if word.len() > width {
            if cur.len() > 0 {
                let ghost o = text::strings(lines@);
                lines.push(text::string_of(&cur));
                assert(text::strings(lines@) =~= o.push(cur@));
                cur = Vec::new();
            }
            chunk_exec(&mut lines, &word, width);
            cur = Vec::new();
            assert(cur@ =~= Seq::<char>::empty());
        } else {
            let sep: usize = if cur.len() > 0 {
                1
            } else {
                0
            };
            let room = width - word.len();
            if sep > room || cur.len() > room - sep {
                let ghost o = text::strings(lines@);
                lines.push(text::string_of(&cur));
                assert(text::strings(lines@) =~= o.push(cur@));
                cur = Vec::new();
            }
            if cur.len() > 0 {
                cur.push(' ');
            }
            text::extend(&mut cur, &word);
        }
        i = i + lead + n;
    }
    if cur.len() > 0 {
        let ghost o = text::strings(lines@);
        lines.push(text::string_of(&cur));
        assert(text::strings(lines@) =~= o.push(cur@));
    }
    proof {
        assert(done + Seq::<Seq<char>>::empty() =~= done);
        lemma_wrap_fits(done, width as nat);
        assert(forall|i: int| 0 <= i < lines@.len() ==> (#[trigger] lines@[i])@ == text::strings(lines@)[i]);
    }
    lines
}

} // verus!
