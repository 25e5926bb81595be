//! `.typoena.snippets.json`: snippet bodies and tab-stop extraction.

use vstd::prelude::*;
use crate::text;

verus! {

broadcast use vstd::string::group_string_axioms;

/// The git-tracked snippet library, read at boot like the prefs file.
pub const SNIPPETS_PATH: &'static str = "/sd/repo/.typoena.snippets.json";

/// One snippet: an inline trigger `prefix`, a `body` carrying `$1..$n`/`$0`
/// tab stops, and a `name`/`description` the `$` palette shows.
#[derive(Debug, Clone, PartialEq, Eq)]
pub struct Snippet {
    /// Display name — the top-level JSON key.
    pub name: String,
    /// The word that triggers inline Tab-expansion.
    pub prefix: String,
    /// Literal body text with `$1..$n`/`$0` stops (labels already stripped).
    pub body: String,
    /// Human description; empty if the JSON entry omits it.
    pub description: String,
}

/// A parsed snippet library.
#[derive(Debug, Clone, PartialEq, Eq)]
pub struct Snippets(pub Vec<Snippet>);

/// A snippet body as the JSON file holds it: one string, or an array of lines.
pub enum RawBody {
    /// `"body": ["line", "line"]` (joined with `\n`).
    Lines(Vec<String>),
    /// `"body": "one line"`.
    Text(String),
}

/// One JSON entry before labels are stripped.
pub struct RawSnippet {
    pub name: String,
    pub prefix: String,
    pub body: RawBody,
    pub description: String,
}

pub open spec fn digit_pred() -> spec_fn(char) -> bool {
    |c: char| text::is_digit(c)
}

/// End of the run of digits starting at `i`.
pub open spec fn digits_end(b: Seq<char>, i: int) -> int {
    i + text::lead(b.skip(i), digit_pred())
}

/// `b[i..]` with every `${n:label}` / `${n}` rewritten to `$n`.
pub open spec fn stripped_from(b: Seq<char>, i: int) -> Seq<char>
    decreases b.len() - i,
{
    if i < 0 || i >= b.len() {
        Seq::empty()
    } else if b[i] == '$' && i + 1 < b.len() && b[i + 1] == '{' {
        let j = digits_end(b, i + 2);
        proof {
            text::lemma_lead_bounds(b.skip(i + 2), digit_pred());
        }
        if j > i + 2 && text::find(b.skip(j), '}') is Some {
            let close = text::find(b.skip(j), '}').unwrap();
            proof {
                text::lemma_find(b.skip(j), '}');
            }
            seq!['$'] + b.subrange(i + 2, j) + stripped_from(b, j + close + 1)
        } else {
            seq!['$'] + stripped_from(b, i + 1)
        }
    } else {
        seq![b[i]] + stripped_from(b, i + 1)
    }
}

fn digits_end_exec(b: &[char], i: usize) -> (j: usize)
    requires
        i <= b.len(),
    ensures
        j == digits_end(b@, i as int),
        i <= j <= b.len(),
{
    let mut j = i;
    while j < b.len() && text::char_is_digit(b[j])
        invariant
            i <= j <= b.len(),
            forall|k: int| i <= k < j ==> text::is_digit(#[trigger] b@[k]),
        decreases b.len() - j,
    {
        j += 1;
    }
    proof {
        let s = b@.skip(i as int);
        assert forall|k: int| 0 <= k < j - i implies #[trigger] digit_pred()(s[k]) by {
            assert(s[k] == b@[i + k]);
            assert(text::is_digit(b@[i + k]));
        }
        if j < b.len() {
            assert(s[j - i] == b@[j as int]);
        }
        text::lemma_lead(s, digit_pred(), j - i);
    }
    j
}

/// Rewrite `${n:label}` (and `${n}`) tab stops to a bare `$n`, leaving plain
/// `$n`/`$0` and every other `$` untouched; an unclosed or non-numbered `${`
/// keeps its `$` literally.
pub fn strip_stop_labels(body: &str) -> (r: String)
    ensures
        r@ == stripped_from(body@, 0),
{
    let b = text::chars_of(body);
    let mut out: Vec<char> = Vec::new();
    let mut i: usize = 0;
    while i < b.len()
        invariant
            b@ == body@,
            i <= b.len(),
            stripped_from(b@, 0) == out@ + stripped_from(b@, i as int),
        decreases b.len() - i,
    {
        let ghost out0 = out@;
        if b[i] == '$' && i + 1 < b.len() && b[i + 1] == '{' {
            let j = digits_end_exec(&b, i + 2);
            if j > i + 2 {
                let rest = text::slice_of(&b, j, b.len());
                assert(rest@ == b@.skip(j as int));
                proof {
                    text::lemma_find(rest@, '}');
                }
                match text::find_char(&rest, '}') {
                    Some(close) => {
                        out.push('$');
                        let digits = text::slice_of(&b, i + 2, j);
                        text::extend(&mut out, &digits);
                        assert(out@ == out0 + (seq!['$'] + b@.subrange(i + 2, j as int)));
                        i = j + close + 1;
                        continue ;
                    },
                    None => {},
                }
            }
            out.push('$');
            i += 1;
            assert(out@ == out0 + seq!['$']);
            continue ;
        }
        out.push(b[i]);
        i += 1;
        assert(out@ == out0 + seq![b@[i - 1]]);
    }
    assert(stripped_from(b@, i as int) == Seq::<char>::empty());
    assert(out@ + Seq::<char>::empty() == out@);
    text::string_of(&out)
}

/// A numbered stop's number: the digits' value, or 0 past `u32::MAX`.
pub open spec fn stop_number(digits: Seq<char>) -> nat {
    if text::digits_value(digits) <= u32::MAX {
        text::digits_value(digits)
    } else {
        0
    }
}

/// Scan `b[i..]` onto `lit` / `stops`: a `$` followed by digits records a stop
/// (its number, and the byte offset it falls at in the literal); any other
/// char, a lone `$` included, is literal text.
pub open spec fn scanned(b: Seq<char>, i: int, lit: Seq<char>, stops: Seq<(nat, nat)>) -> (
    Seq<char>,
    Seq<(nat, nat)>,
)
    decreases b.len() - i,
{
    if i < 0 || i >= b.len() {
        (lit, stops)
    } else if b[i] == '$' {
        let j = digits_end(b, i + 1);
        proof {
            text::lemma_lead_bounds(b.skip(i + 1), digit_pred());
        }
        if j > i + 1 {
            scanned(
                b,
                j,
                lit,
                stops.push((stop_number(b.subrange(i + 1, j)), text::utf8_len(lit))),
            )
        } else {
            scanned(b, i + 1, lit.push('$'), stops)
        }
    } else {
        scanned(b, i + 1, lit.push(b[i]), stops)
    }
}

/// The visit-order key of a stop: its number, with `$0` (the final rest)
/// last.
pub open spec fn visit_key(n: nat) -> nat {
    if n == 0 {
        u32::MAX as nat
    } else {
        n
    }
}

/// `s` with `x` inserted after every entry whose key is not above its own —
/// one step of a stable insertion sort.
pub open spec fn insert_stable(s: Seq<(nat, nat)>, x: (nat, nat)) -> Seq<(nat, nat)>
    decreases s.len(),
{
    if s.len() == 0 {
        seq![x]
    } else if visit_key(s.last().0) <= visit_key(x.0) {
        s.push(x)
    } else {
        insert_stable(s.drop_last(), x).push(s.last())
    }
}

/// `s` stably sorted by visit key.
pub open spec fn sorted_stable(s: Seq<(nat, nat)>) -> Seq<(nat, nat)>
    decreases s.len(),
{
    if s.len() == 0 {
        s
    } else {
        insert_stable(sorted_stable(s.drop_last()), s.last())
    }
}

/// The stops with an implicit final `$0` at the literal's end when numbered
/// stops exist but none is `$0`.
pub open spec fn with_final_stop(stops: Seq<(nat, nat)>, lit: Seq<char>) -> Seq<(nat, nat)> {
    if stops.len() > 0 && !(exists|k: int| 0 <= k < stops.len() && stops[k].0 == 0) {
        stops.push((0nat, text::utf8_len(lit)))
    } else {
        stops
    }
}

/// A snippet body's literal text (stop markers removed) and its stops' byte
/// offsets in caret visit order: `$1 … $n` ascending, then `$0` last.
pub open spec fn body_parts(body: Seq<char>) -> (Seq<char>, Seq<nat>) {
    let sc = scanned(body, 0, Seq::empty(), Seq::empty());
    let ordered = sorted_stable(with_final_stop(sc.1, sc.0));
    (sc.0, Seq::new(ordered.len(), |k: int| ordered[k].1))
}

fn digits_number(d: &[char]) -> (n: u32)
    requires
        forall|k: int| 0 <= k < d@.len() ==> text::is_digit(#[trigger] d@[k]),
    ensures
        n as nat == stop_number(d@),
{
    let mut acc: u32 = 0;
    let mut i: usize = 0;
    let mut over = false;
    while i < d.len()
        invariant
            i <= d.len(),
            forall|k: int| 0 <= k < d@.len() ==> text::is_digit(#[trigger] d@[k]),
            !over ==> acc as nat == text::digits_value(d@.take(i as int)),
            over ==> text::digits_value(d@.take(i as int)) > u32::MAX,
        decreases d.len() - i,
    {
        let c = d[i];
        let dv = (c as u32 - '0' as u32);
        proof {
            text::lemma_digits_value_push(d@.take(i as int), c);
            assert(d@.take(i as int).push(c) == d@.take(i + 1));
            let x = text::digits_value(d@.take(i as int));
            assert(x * 10 + dv >= x) by (nonlinear_arith);
        }
        if !over {
            if acc > (u32::MAX - dv) / 10 {
                assert(acc * 10 + dv > u32::MAX) by (nonlinear_arith)
                    requires
                        acc > (u32::MAX - dv) / 10,
                        dv < 10,
                ;
                over = true;
            } else {
                acc = acc * 10 + dv;
            }
        } else {
            proof {
                let x = text::digits_value(d@.take(i as int));
                assert(x * 10 + dv > u32::MAX) by (nonlinear_arith)
                    requires
                        x > u32::MAX,
                ;
            }
        }
        i += 1;
    }
    assert(d@.take(d.len() as int) == d@);
    if over {
        0
    } else {
        acc
    }
}

proof fn lemma_insert_stable_len(s: Seq<(nat, nat)>, x: (nat, nat))
    ensures
        insert_stable(s, x).len() == s.len() + 1,
    decreases s.len(),
{
    if s.len() > 0 && visit_key(s.last().0) > visit_key(x.0) {
        lemma_insert_stable_len(s.drop_last(), x);
    }
}

/// Insert `x` into `v` after every entry whose key is not above its own.
fn insert_stable_exec(v: &mut Vec<(u32, usize)>, x: (u32, usize))
    ensures
        pairs(final(v)@) == insert_stable(pairs(old(v)@), pair(x)),
{
    let ghost v0 = pairs(v@);
    let key_x: u32 = if x.0 == 0 {
        u32::MAX
    } else {
        x.0
    };
    let mut k: usize = v.len();
    // Find the insertion point: just after the last entry whose key is not
    // above `x`'s.
    while k > 0
        invariant
            k <= v.len(),
            pairs(v@) == v0,
            forall|m: int| k <= m < v.len() ==> visit_key(v0[m].0) > visit_key(x.0 as nat),
            key_x as nat == visit_key(x.0 as nat),
        ensures
            k <= v.len(),
            pairs(v@) == v0,
            forall|m: int| k <= m < v.len() ==> visit_key(v0[m].0) > visit_key(x.0 as nat),
            k == 0 || visit_key(v0[k - 1].0) <= visit_key(x.0 as nat),
        decreases k,
    {
        let kk: u32 = if v[k - 1].0 == 0 {
            u32::MAX
        } else {
            v[k - 1].0
        };
        assert(v0[k - 1] == pair(v@[k - 1]));
        if kk <= key_x {
            break ;
        }
        k -= 1;
    }
    proof {
        lemma_insert_stable_at(v0, pair(x), k as int);
    }
    v.insert(k, x);
    assert(pairs(v@) =~= v0.take(k as int).push(pair(x)) + v0.skip(k as int));
}

/// One stop, in spec form.
pub open spec fn pair(x: (u32, usize)) -> (nat, nat) {
    (x.0 as nat, x.1 as nat)
}

/// The stops of a vector, in spec form.
pub open spec fn pairs(v: Seq<(u32, usize)>) -> Seq<(nat, nat)> {
    Seq::new(v.len(), |k: int| pair(v[k]))
}

proof fn lemma_insert_stable_at(s: Seq<(nat, nat)>, x: (nat, nat), k: int)
    requires
        0 <= k <= s.len(),
        forall|m: int| k <= m < s.len() ==> visit_key(s[m].0) > visit_key(x.0),
        k == 0 || visit_key(s[k - 1].0) <= visit_key(x.0),
    ensures
        insert_stable(s, x) == s.take(k).push(x) + s.skip(k),
    decreases s.len(),
{
    if s.len() == 0 {
        assert(s.take(0).push(x) + s.skip(0) =~= seq![x]);
    } else if k == s.len() {
        assert(s.take(k).push(x) + s.skip(k) =~= s.push(x));
    } else {
        let t = s.drop_last();
        assert forall|m: int| k <= m < t.len() implies visit_key(t[m].0) > visit_key(x.0) by {
            assert(t[m] == s[m]);
        }
        if k > 0 {
            assert(t[k - 1] == s[k - 1]);
        }
        lemma_insert_stable_at(t, x, k);
        assert(s.take(k).push(x) + s.skip(k) =~= (t.take(k).push(x) + t.skip(k)).push(s.last()));
    }
}

/// Split a snippet body into its literal text (tab-stop markers removed) and
/// the caret visit order of those stops as byte offsets into that literal:
/// `$1 … $n` ascending, then `$0` last. If the body has numbered stops but no
/// explicit `$0`, a final stop at the body end is appended. A body with no
/// stops returns an empty stop list. `$` not followed by a digit is literal.
pub fn parse_snippet_body(body: &str) -> (r: (String, Vec<usize>))
    ensures
        r.0@ == body_parts(body@).0,
        r.1@.len() == body_parts(body@).1.len(),
        forall|k: int| 0 <= k < r.1@.len() ==> r.1@[k] as nat == #[trigger] body_parts(body@).1[k],
{
    let b = text::chars_of(body);
    let body_bytes = text::str_byte_len(body);
    assert(text::utf8_len(b@) == body_bytes);
    let mut lit: Vec<char> = Vec::new();
    let mut lit_bytes: usize = 0;
    let mut stops: Vec<(u32, usize)> = Vec::new();
    let mut i: usize = 0;
    assert(pairs(stops@) =~= Seq::<(nat, nat)>::empty());
    while i < b.len()
        invariant
            b@ == body@,
            text::utf8_len(b@) <= usize::MAX,
            i <= b.len(),
            lit.len() <= i,
            lit_bytes as nat == text::utf8_len(lit@),
            lit_bytes <= text::utf8_len(b@.take(i as int)),
            scanned(b@, 0, Seq::empty(), Seq::empty()) == scanned(b@, i as int, lit@, pairs(stops@)),
        decreases b.len() - i,
    {
        if b[i] == '$' {
            let j = digits_end_exec(&b, i + 1);
            if j > i + 1 {
                let d = text::slice_of(&b, i + 1, j);
                assert forall|k: int| 0 <= k < d@.len() implies text::is_digit(#[trigger] d@[k]) by {
                    text::lemma_lead_bounds(b@.skip(i + 1), digit_pred());
                    assert(d@[k] == b@.skip(i + 1)[k]);
                    assert(digit_pred()(b@.skip(i + 1)[k]));
                }
                let n = digits_number(&d);
                let ghost st0 = pairs(stops@);
                proof {
                    text::lemma_utf8_len_mono(b@, i as int, j as int);
                }
                stops.push((n, lit_bytes));
                assert(pairs(stops@) =~= st0.push(
                    (stop_number(b@.subrange(i + 1, j as int)), text::utf8_len(lit@)),
                ));
                i = j;
                continue ;
            }
            proof {
                text::lemma_utf8_len_push(lit@, '$');
                assert(b@.take(i + 1).drop_last() == b@.take(i as int));
                text::lemma_utf8_len_mono(b@, i + 1, b.len() as int);
                assert(b@.take(b.len() as int) =~= b@);
            }
            lit.push('$');
            lit_bytes = lit_bytes + 1;
            i += 1;
            continue ;
        }
        let c = b[i];
        proof {
            text::lemma_utf8_len_push(lit@, c);
            assert(b@.take(i + 1).drop_last() == b@.take(i as int));
            text::lemma_utf8_len_mono(b@, i + 1, b.len() as int);
            assert(b@.take(b.len() as int) =~= b@);
        }
        lit_bytes = lit_bytes + text::char_utf8_width(c);
        lit.push(c);
        i += 1;
    }
    // The final resting stop: `$0` if present, else one at the end.
    let ghost sc = scanned(b@, 0, Seq::empty(), Seq::empty());
    assert(sc == (lit@, pairs(stops@)));
    if stops.len() > 0 {
        let mut has_zero = false;
        let mut k: usize = 0;
        while k < stops.len()
            invariant
                k <= stops.len(),
                has_zero <==> exists|m: int| 0 <= m < k && pairs(stops@)[m].0 == 0,
            decreases stops.len() - k,
        {
            assert(pairs(stops@)[k as int] == pair(stops@[k as int]));
            if stops[k].0 == 0 {
                has_zero = true;
            }
            k += 1;
        }
        if !has_zero {
            let ghost st0 = pairs(stops@);
            stops.push((0, lit_bytes));
            assert(pairs(stops@) =~= st0.push((0nat, text::utf8_len(lit@))));
        }
    }
    let ghost fin = pairs(stops@);
    assert(fin == with_final_stop(sc.1, sc.0));
    // Visit order: stable insertion sort by visit key.
    let mut sorted: Vec<(u32, usize)> = Vec::new();
    let mut k: usize = 0;
    while k < stops.len()
        invariant
            k <= stops.len(),
            pairs(stops@) == fin,
            pairs(sorted@) == sorted_stable(fin.take(k as int)),
        decreases stops.len() - k,
    {
        assert(fin.take(k + 1).drop_last() == fin.take(k as int));
        assert(fin.take(k + 1).last() == pair(stops@[k as int]));
        insert_stable_exec(&mut sorted, stops[k]);
        k += 1;
    }
    assert(fin.take(stops.len() as int) == fin);
    let mut offs: Vec<usize> = Vec::new();
    let mut m: usize = 0;
    while m < sorted.len()
        invariant
            m <= sorted.len(),
            offs@.len() == m,
            forall|q: int| 0 <= q < m ==> offs@[q] == sorted@[q].1,
        decreases sorted.len() - m,
    {
        offs.push(sorted[m].1);
        m += 1;
    }
    (text::string_of(&lit), offs)
}

/// The body text a raw entry carries: the string, or the lines joined by `\n`.
pub open spec fn raw_body_text(b: RawBody) -> Seq<char> {
    match b {
        RawBody::Text(t) => t@,
        RawBody::Lines(ls) => text::join_sep(text::strings(ls@), seq!['\n']),
    }
}

/// The snippet a raw entry becomes: its body joined and its stop labels
/// stripped, every other field as it came.
pub open spec fn entry_snippet(e: RawSnippet, s: Snippet) -> bool {
    &&& s.name@ == e.name@
    &&& s.prefix@ == e.prefix@
    &&& s.description@ == e.description@
    &&& s.body@ == stripped_from(raw_body_text(e.body), 0)
}

/// A snippet file is empty (or whitespace only): no snippets, not an error.
pub fn is_blank_source(src: &str) -> (r: bool)
    ensures
        r == (text::trim(src@).len() == 0),
{
    let v = text::chars_of(src);
    let t = text::trim_exec(&v);
    t.len() == 0
}

fn raw_body_join(b: &RawBody) -> (r: String)
    ensures
        r@ == raw_body_text(*b),
{
    match b {
        RawBody::Text(t) => {
            let v = text::chars_of(t.as_str());
            text::string_of(&v)
        },
        RawBody::Lines(ls) => {
            let mut vs: Vec<Vec<char>> = Vec::new();
            let mut i: usize = 0;
            while i < ls.len()
                invariant
                    i <= ls.len(),
                    text::views(vs@) =~= text::strings(ls@).take(i as int),
                decreases ls.len() - i,
            {
                let c = text::chars_of(ls[i].as_str());
                let ghost o = text::views(vs@);
                vs.push(c);
                assert(text::views(vs@) =~= o.push(c@));
                assert(text::strings(ls@).take(i + 1) =~= text::strings(ls@).take(i as int).push(
                    ls@[i as int]@,
                ));
                i += 1;
            }
            assert(text::strings(ls@).take(ls.len() as int) =~= text::strings(ls@));
            let nl = vec!['\n'];
            assert(nl@ =~= seq!['\n']);
            let j = text::join_exec(&vs, nl.as_slice());
            text::string_of(&j)
        },
    }
}

fn copy_string(s: &String) -> (r: String)
    ensures
        r@ == s@,
{
    let v = text::chars_of(s.as_str());
    text::string_of(&v)
}

impl Snippets {
    /// The library built from the JSON file's entries, in the order given (the
    /// file parse hands them over sorted by name): each body joined into one
    /// string and its `${n:label}` stops stripped to `$n`.
    pub fn from_entries(entries: &Vec<RawSnippet>) -> (r: Snippets)
        ensures
            r.0@.len() == entries@.len(),
            forall|i: int| 0 <= i < entries@.len() ==> entry_snippet(entries@[i], #[trigger] r.0@[i]),
    {
        let mut out: Vec<Snippet> = Vec::new();
        let mut i: usize = 0;
        while i < entries.len()
            invariant
                i <= entries.len(),
                out@.len() == i,
                forall|k: int| 0 <= k < i ==> entry_snippet(entries@[k], #[trigger] out@[k]),
            decreases entries.len() - i,
        {
            let e = &entries[i];
            let joined = raw_body_join(&e.body);
            let body = strip_stop_labels(joined.as_str());
            let s = Snippet {
                name: copy_string(&e.name),
                prefix: copy_string(&e.prefix),
                body,
                description: copy_string(&e.description),
            };
            out.push(s);
            i += 1;
        }
        Snippets(out)
    }
}

/// Stops in visit order: by number ascending, `$0` last.
pub open spec fn in_visit_order(s: Seq<(nat, nat)>) -> bool {
    forall|i: int, j: int| 0 <= i < j < s.len() ==> visit_key(s[i].0) <= visit_key(s[j].0)
}

proof fn lemma_insert_stable_sorted(s: Seq<(nat, nat)>, x: (nat, nat))
    requires
        in_visit_order(s),
    ensures
        in_visit_order(insert_stable(s, x)),
        insert_stable(s, x).to_multiset() == s.to_multiset().insert(x),
        insert_stable(s, x).len() == s.len() + 1,
        forall|i: int|
            0 <= i < insert_stable(s, x).len() ==> #[trigger] insert_stable(s, x)[i] == x || s.contains(
                insert_stable(s, x)[i],
            ),
    decreases s.len(),
{
    broadcast use vstd::seq_lib::group_to_multiset_ensures;

    if s.len() == 0 {
        assert(seq![x] =~= s.push(x));
    } else if visit_key(s.last().0) <= visit_key(x.0) {
        assert forall|i: int| 0 <= i < s.push(x).len() implies #[trigger] s.push(x)[i] == x
            || s.contains(s.push(x)[i]) by {
            if i < s.len() {
                assert(s.push(x)[i] == s[i]);
            }
        }
    } else {
        let d = s.drop_last();
        assert(in_visit_order(d)) by {
            assert forall|i: int, j: int| 0 <= i < j < d.len() implies visit_key(d[i].0)
                <= visit_key(d[j].0) by {
                assert(d[i] == s[i] && d[j] == s[j]);
            }
        }
        lemma_insert_stable_sorted(d, x);
        let t = insert_stable(d, x);
        let r = t.push(s.last());
        assert forall|i: int| 0 <= i < t.len() implies visit_key(#[trigger] t[i].0) <= visit_key(
            s.last().0,
        ) by {
            if t[i] != x {
                let k = choose|k: int| 0 <= k < d.len() && d[k] == t[i];
                assert(s[k] == d[k]);
            }
        }
        assert(in_visit_order(r)) by {
            assert forall|i: int, j: int| 0 <= i < j < r.len() implies visit_key(r[i].0)
                <= visit_key(r[j].0) by {
                if j == r.len() - 1 {
                    assert(r[j] == s.last());
                    assert(r[i] == t[i]);
                } else {
                    assert(r[i] == t[i] && r[j] == t[j]);
                }
            }
        }
        assert(d.push(s.last()) =~= s);
        assert forall|i: int| 0 <= i < r.len() implies #[trigger] r[i] == x || s.contains(r[i]) by {
            if i < t.len() {
                assert(r[i] == t[i]);
                if t[i] != x {
                    let k = choose|k: int| 0 <= k < d.len() && d[k] == t[i];
                    assert(s[k] == d[k]);
                }
            } else {
                assert(r[i] == s[s.len() - 1]);
            }
        }
    }
}

proof fn lemma_sorted_stable(s: Seq<(nat, nat)>)
    ensures
        in_visit_order(sorted_stable(s)),
        sorted_stable(s).to_multiset() == s.to_multiset(),
    decreases s.len(),
{
    broadcast use vstd::seq_lib::group_to_multiset_ensures;

    if s.len() > 0 {
        lemma_sorted_stable(s.drop_last());
        lemma_insert_stable_sorted(sorted_stable(s.drop_last()), s.last());
        assert(s.drop_last().push(s.last()) =~= s);
    }
}

/// The caret visits a snippet's stops in order: `$1 … $n` ascending, then
/// `$0` last (an implicit one at the body's end when only numbered stops were
/// written), each stop exactly once.
pub proof fn lemma_visit_order(body: Seq<char>)
    ensures
        ({
            let sc = scanned(body, 0, Seq::empty(), Seq::empty());
            let stops = with_final_stop(sc.1, sc.0);
            let ordered = sorted_stable(stops);
            &&& in_visit_order(ordered)
            &&& ordered.to_multiset() == stops.to_multiset()
            &&& body_parts(body).1 == Seq::new(ordered.len(), |k: int| ordered[k].1)
        }),
{
    let sc = scanned(body, 0, Seq::empty(), Seq::empty());
    lemma_sorted_stable(with_final_stop(sc.1, sc.0));
}

proof fn lemma_scanned_bounds(b: Seq<char>, i: int, lit: Seq<char>, stops: Seq<(nat, nat)>)
    requires
        0 <= i <= b.len(),
        forall|k: int| 0 <= k < stops.len() ==> (#[trigger] stops[k]).1 <= text::utf8_len(lit),
    ensures
        forall|k: int|
            0 <= k < scanned(b, i, lit, stops).1.len() ==> (#[trigger] scanned(
                b,
                i,
                lit,
                stops,
            ).1[k]).1 <= text::utf8_len(scanned(b, i, lit, stops).0),
        text::utf8_len(scanned(b, i, lit, stops).0) + text::utf8_len(b.take(i)) <= text::utf8_len(
            lit,
        ) + text::utf8_len(b),
    decreases b.len() - i,
{
    if i >= b.len() {
        assert(b.take(i) =~= b);
    } else {
        text::lemma_utf8_len_push(lit, b[i]);
        assert(b.take(i + 1).drop_last() =~= b.take(i));
        if b[i] == '$' {
            let j = digits_end(b, i + 1);
            text::lemma_lead_bounds(b.skip(i + 1), digit_pred());
            if j > i + 1 {
                let st2 = stops.push((stop_number(b.subrange(i + 1, j)), text::utf8_len(lit)));
                assert forall|k: int| 0 <= k < st2.len() implies (#[trigger] st2[k]).1
                    <= text::utf8_len(lit) by {
                    if k < stops.len() {
                        assert(st2[k] == stops[k]);
                    }
                }
                lemma_scanned_bounds(b, j, lit, st2);
                text::lemma_utf8_len_mono(b, i, j);
            } else {
                lemma_scanned_bounds(b, i + 1, lit.push('$'), stops);
            }
        } else {
            lemma_scanned_bounds(b, i + 1, lit.push(b[i]), stops);
        }
    }
}

/// A snippet's stops all fall within its literal text, and the literal is no
/// longer (in bytes) than the body it came from.
pub proof fn lemma_stops_within_literal(body: Seq<char>)
    ensures
        forall|k: int|
            0 <= k < body_parts(body).1.len() ==> #[trigger] body_parts(body).1[k]
                <= text::utf8_len(body_parts(body).0),
        text::utf8_len(body_parts(body).0) <= text::utf8_len(body),
{
    broadcast use vstd::seq_lib::group_to_multiset_ensures;

    let sc = scanned(body, 0, Seq::empty(), Seq::empty());
    lemma_scanned_bounds(body, 0, Seq::empty(), Seq::empty());
    assert(body.take(0) =~= Seq::<char>::empty());
    assert(text::utf8_len(Seq::<char>::empty()) == 0);
    let stops = with_final_stop(sc.1, sc.0);
    assert forall|k: int| 0 <= k < stops.len() implies (#[trigger] stops[k]).1 <= text::utf8_len(
        sc.0,
    ) by {
        if k < sc.1.len() {
            assert(stops[k] == sc.1[k]);
        }
    }
    lemma_sorted_stable(stops);
    let ordered = sorted_stable(stops);
    assert forall|k: int| 0 <= k < body_parts(body).1.len() implies #[trigger] body_parts(body).1[k]
        <= text::utf8_len(body_parts(body).0) by {
        let x = ordered[k];
        assert(ordered.contains(x));
        assert(ordered.to_multiset().count(x) > 0);
        assert(stops.contains(x));
        let m = choose|m: int| 0 <= m < stops.len() && stops[m] == x;
        assert(stops[m].1 <= text::utf8_len(sc.0));
    }
}

impl Default for Snippets {
    fn default() -> (s: Self)
        ensures
            s.0@.len() == 0,
    {
        Snippets(Vec::new())
    }
}

} // verus!
