//! The Cmd-P palette's pure parts: display labels for paths, friendly file
//! names, and the `>` command registry.

use vstd::prelude::*;
use vstd::string::*;
use crate::text;
use crate::fuzzy::fuzzy;
use crate::prefs::{
    count_position_of, next_option, next_usize_option, option_after, position_of, toml_lines, Prefs,
    AUTO_SYNC_OPTIONS, SCROLL_MARGIN_OPTIONS, THEME_OPTIONS,
};
use crate::snippets::Snippet;
use crate::newfile::{completions, new_file_complete, sorted_listing, tab_start};

verus! {

/// The card's mount prefix, which palette labels drop.
pub open spec fn sd_root() -> Seq<char> {
    seq!['/', 's', 'd', '/']
}

/// The palette's display label for a path: `/sd/` stripped, anything else verbatim.
pub open spec fn label_of(path: Seq<char>) -> Seq<char> {
    if text::starts_with(path, sd_root()) {
        path.subrange(4, path.len() as int)
    } else {
        path
    }
}

/// The palette's display label for an absolute path: `/sd/` stripped, so
/// `/sd/repo/notes.md` shows as `repo/notes.md`. The scope dir (`repo`/`local`)
/// stays, which both disambiguates same-named files across scopes and reads as
/// a scope tag. A path not under `/sd/` is shown verbatim.
pub fn palette_label(path: &str) -> (r: &str)
    ensures
        r@ == label_of(path@),
{
    let n = path.unicode_len();
    if n >= 4 && path.get_char(0) == '/' && path.get_char(1) == 's' && path.get_char(2) == 'd'
        && path.get_char(3) == '/' {
        assert(path@.take(4) =~= sd_root());
        path.substring_char(4, n)
    } else {
        proof {
            if text::starts_with(path@, sd_root()) {
                assert(path@.take(4)[0] == path@[0]);
                assert(path@.take(4)[1] == path@[1]);
                assert(path@.take(4)[2] == path@[2]);
                assert(path@.take(4)[3] == path@[3]);
            }
        }
        assert(path@.subrange(0, n as int) =~= path@);
        path.substring_char(0, n)
    }
}

/// Whether `c` is an ASCII decimal digit.
pub open spec fn ascii_digit(c: char) -> bool {
    '0' <= c <= '9'
}

/// `s` opens with a `YYYY-MM-DD` date followed by `-` or the end.
pub open spec fn dated(s: Seq<char>) -> bool {
    &&& s.len() >= 10
    &&& ascii_digit(s[0]) && ascii_digit(s[1]) && ascii_digit(s[2]) && ascii_digit(s[3])
    &&& s[4] == '-'
    &&& ascii_digit(s[5]) && ascii_digit(s[6])
    &&& s[7] == '-'
    &&& ascii_digit(s[8]) && ascii_digit(s[9])
    &&& (s.len() == 10 || s[10] == '-')
}

/// Length of a leading date: 10 when [`dated`], else 0.
pub open spec fn date_prefix(s: Seq<char>) -> nat {
    if dated(s) {
        10
    } else {
        0
    }
}

fn is_ascii_digit(c: char) -> (r: bool)
    ensures
        r == ascii_digit(c),
{
    '0' <= c && c <= '9'
}

/// Length of a leading `YYYY-MM-DD` date (always 10) when `s` opens with one
/// followed by `-` or end-of-string, else 0. The pattern is pure ASCII, so the
/// count is the same in chars and in bytes.
pub fn date_prefix_len(s: &str) -> (r: usize)
    ensures
        r == date_prefix(s@),
{
    let b = text::chars_of(s);
    let dated = b.len() >= 10 && is_ascii_digit(b[0]) && is_ascii_digit(b[1]) && is_ascii_digit(
        b[2],
    ) && is_ascii_digit(b[3]) && b[4] == '-' && is_ascii_digit(b[5]) && is_ascii_digit(b[6])
        && b[7] == '-' && is_ascii_digit(b[8]) && is_ascii_digit(b[9]) && (b.len() == 10 || b[10]
        == '-');
    if dated {
        10
    } else {
        0
    }
}

/// `s` with every `-` turned into a space.
pub open spec fn dashes_to_spaces(s: Seq<char>) -> Seq<char> {
    s.map_values(|c: char| if c == '-' { ' ' } else { c })
}

/// The markdown extension that friendly names drop.
pub open spec fn md_ext() -> Seq<char> {
    seq!['.', 'm', 'd']
}

/// `name` without a trailing `.md`.
pub open spec fn md_stem(name: Seq<char>) -> Seq<char> {
    if text::ends_with(name, md_ext()) {
        name.subrange(0, name.len() - 3)
    } else {
        name
    }
}

/// The friendly form of a basename: `.md` dropped, a leading date kept whole,
/// every other `-` shown as a space.
pub open spec fn friendly(name: Seq<char>) -> Seq<char> {
    let stem = md_stem(name);
    let d = date_prefix(stem) as int;
    stem.subrange(0, d) + dashes_to_spaces(stem.subrange(d, stem.len() as int))
}

/// Display-friendly rendering of a file's **basename**: drop a trailing `.md`
/// (markdown), keep a leading `YYYY-MM-DD` date intact (its hyphens are date
/// structure, not word gaps), and turn the remaining hyphens into spaces.
/// `2026-07-21-je-dois-parler.md` → `2026-07-21 je dois parler`;
/// `standup-notes.md` → `standup notes`; `notes.md` → `notes`.
pub fn friendly_filename(name: &str) -> (r: String)
    ensures
        r@ == friendly(name@),
{
    let v = text::chars_of(name);
    let n = v.len();
    let md = n >= 3 && v[n - 3] == '.' && v[n - 2] == 'm' && v[n - 1] == 'd';
    proof {
        if text::ends_with(name@, md_ext()) {
            assert(name@.skip(n - 3)[0] == name@[n - 3]);
            assert(name@.skip(n - 3)[1] == name@[n - 2]);
            assert(name@.skip(n - 3)[2] == name@[n - 1]);
        }
        if md {
            assert(name@.skip(n - 3) =~= md_ext());
        }
    }
    let stem_len = if md {
        n - 3
    } else {
        n
    };
    let stem = text::slice_of(&v, 0, stem_len);
    assert(stem@ == md_stem(name@));
    let s = text::string_of(&stem);
    let d = date_prefix_len(s.as_str());
    let mut out: Vec<char> = text::slice_of(&stem, 0, d);
    let mut i = d;
    while i < stem.len()
        invariant
            d <= i <= stem.len(),
            d == date_prefix(stem@),
            out@ == stem@.subrange(0, d as int) + dashes_to_spaces(
                stem@.subrange(d as int, i as int),
            ),
        decreases stem.len() - i,
    {
        let c = stem[i];
        out.push(
            if c == '-' {
                ' '
            } else {
                c
            },
        );
        i += 1;
        assert(dashes_to_spaces(stem@.subrange(d as int, i as int)) =~= dashes_to_spaces(
            stem@.subrange(d as int, (i - 1) as int),
        ).push(if c == '-' {
            ' '
        } else {
            c
        }));
    }
    text::string_of(&out)
}

/// How a [`PaletteCmd`] behaves on Enter — see [`PaletteCmd::kind`].
#[derive(Debug, Clone, Copy, PartialEq, Eq, Structural)]
pub enum CmdKind {
    /// Applies live and keeps the palette open (the pref toggles/rotations).
    Toggle,
    /// Runs once and closes the palette (`format`, `push`).
    OneShot,
    /// Opens a second input step in the palette (`new file`).
    Param,
}

/// A `>` palette command. A one-shot runs and closes the palette; a
/// parameterised command opens a filename input step; a toggle (the boolean
/// prefs and the preset rotations) applies live and keeps the list open.
#[derive(Debug, Clone, Copy, PartialEq, Eq, Structural)]
pub enum PaletteCmd {
    NewFile,
    Format,
    Push,
    Setup,
    Reboot,
    Update,
    SaveOnIdle,
    FormatOnSave,
    LineNumbers,
    ScrollMargin,
    OpenLastOnBoot,
    Theme,
    AutoSync,
}

/// The dispatch shape of each command.
pub open spec fn kind_of(c: PaletteCmd) -> CmdKind {
    match c {
        PaletteCmd::NewFile => CmdKind::Param,
        PaletteCmd::Format | PaletteCmd::Push | PaletteCmd::Setup | PaletteCmd::Reboot
        | PaletteCmd::Update => CmdKind::OneShot,
        _ => CmdKind::Toggle,
    }
}

impl PaletteCmd {
    /// The command's dispatch shape, which decides what Enter does.
    pub fn kind(self) -> (k: CmdKind)
        ensures
            k == kind_of(self),
    {
        match self {
            PaletteCmd::NewFile => CmdKind::Param,
            PaletteCmd::Format
            | PaletteCmd::Push
            | PaletteCmd::Setup
            | PaletteCmd::Reboot
            | PaletteCmd::Update => CmdKind::OneShot,
            _ => CmdKind::Toggle,
        }
    }
}

/// The palette command list, in display order (empty `>` query shows them all):
/// the actions first, the settings after.
pub const PALETTE_CMDS: [PaletteCmd; 13] = [
    PaletteCmd::NewFile,
    PaletteCmd::Format,
    PaletteCmd::Push,
    PaletteCmd::Setup,
    PaletteCmd::Reboot,
    PaletteCmd::Update,
    PaletteCmd::SaveOnIdle,
    PaletteCmd::FormatOnSave,
    PaletteCmd::LineNumbers,
    PaletteCmd::ScrollMargin,
    PaletteCmd::OpenLastOnBoot,
    PaletteCmd::Theme,
    PaletteCmd::AutoSync,
];

/// Which step the palette is showing: the filtered list, or the `new file`
/// input step whose query is a filename rather than a filter.
#[derive(Debug, Clone, Copy, PartialEq, Eq, Structural)]
pub enum PaletteStep {
    List,
    NewFile,
}

/// Query length (chars) at which the file palette searches the full file list;
/// shorter queries show only the recents.
pub const PALETTE_MIN_QUERY: usize = 2;

// ---------------------------------------------------------------------------
// Ranking
// ---------------------------------------------------------------------------

/// `s` with `x` inserted after every entry scoring at least as high — one
/// step of a stable insertion sort by descending score.
pub open spec fn insert_desc(s: Seq<(usize, i32)>, x: (usize, i32)) -> Seq<(usize, i32)>
    decreases s.len(),
{
    if s.len() == 0 {
        seq![x]
    } else if s.last().1 >= x.1 {
        s.push(x)
    } else {
        insert_desc(s.drop_last(), x).push(s.last())
    }
}

/// `s` stably sorted by descending score.
pub open spec fn sort_desc(s: Seq<(usize, i32)>) -> Seq<(usize, i32)>
    decreases s.len(),
{
    if s.len() == 0 {
        s
    } else {
        insert_desc(sort_desc(s.drop_last()), s.last())
    }
}

/// The entries of `s` that score `v`, in order.
pub open spec fn scoring(s: Seq<(usize, i32)>, v: i32) -> Seq<(usize, i32)> {
    s.filter(|e: (usize, i32)| e.1 == v)
}

pub open spec fn descending(s: Seq<(usize, i32)>) -> bool {
    forall|i: int, j: int| 0 <= i < j < s.len() ==> (#[trigger] s[i]).1 >= (#[trigger] s[j]).1
}

proof fn lemma_insert_desc_at(s: Seq<(usize, i32)>, x: (usize, i32), p: int)
    requires
        0 <= p <= s.len(),
        forall|k: int| p <= k < s.len() ==> (#[trigger] s[k]).1 < x.1,
        p == 0 || s[p - 1].1 >= x.1,
    ensures
        insert_desc(s, x) == s.take(p).push(x) + s.skip(p),
    decreases s.len(),
{
    if s.len() == 0 {
        assert(s.take(p).push(x) + s.skip(p) =~= seq![x]);
    } else if p == s.len() {
        assert(s.take(p).push(x) + s.skip(p) =~= s.push(x));
    } else {
        let d = s.drop_last();
        lemma_insert_desc_at(d, x, p);
        assert(s.take(p).push(x) + s.skip(p) =~= (d.take(p).push(x) + d.skip(p)).push(s.last()));
    }
}

proof fn lemma_insert_desc_props(s: Seq<(usize, i32)>, x: (usize, i32))
    requires
        descending(s),
    ensures
        descending(insert_desc(s, x)),
        insert_desc(s, x).to_multiset() == s.to_multiset().insert(x),
        forall|v: i32| #[trigger] scoring(insert_desc(s, x), v) == if x.1 == v {
            scoring(s, v).push(x)
        } else {
            scoring(s, v)
        },
    decreases s.len(),
{
    broadcast use vstd::seq_lib::group_to_multiset_ensures;
    reveal(Seq::filter);

    if s.len() == 0 {
        assert(insert_desc(s, x) == seq![x]);
        assert forall|v: i32| #[trigger] scoring(insert_desc(s, x), v) == if x.1 == v {
            scoring(s, v).push(x)
        } else {
            scoring(s, v)
        } by {
            assert(seq![x].drop_last() =~= Seq::<(usize, i32)>::empty());
            assert(s =~= Seq::<(usize, i32)>::empty());
        }
    } else if s.last().1 >= x.1 {
        let r = s.push(x);
        assert(r.drop_last() =~= s);
        assert forall|i: int, j: int| 0 <= i < j < r.len() implies (#[trigger] r[i]).1 >= (
        #[trigger] r[j]).1 by {
            if j == r.len() - 1 {
                if i < s.len() - 1 {
                    assert(s[i].1 >= s[s.len() - 1].1);
                }
            }
        }
        assert forall|v: i32| #[trigger] scoring(r, v) == if x.1 == v {
            scoring(s, v).push(x)
        } else {
            scoring(s, v)
        } by {}
    } else {
        let d = s.drop_last();
        let l = s.last();
        assert(descending(d));
        lemma_insert_desc_props(d, x);
        let id = insert_desc(d, x);
        let r = id.push(l);
        assert(r.drop_last() =~= id);
        assert(s =~= d.push(l));
        assert(id.to_multiset().contains(x));
        assert forall|i: int, j: int| 0 <= i < j < r.len() implies (#[trigger] r[i]).1 >= (
        #[trigger] r[j]).1 by {
            if j == r.len() - 1 {
                let e = r[i];
                assert(id[i] == e);
                assert(id.to_multiset().count(e) > 0);
                assert(id.contains(e));
                if e == x {
                } else {
                    assert(d.to_multiset().count(e) > 0);
                    assert(d.contains(e));
                    let k = choose|k: int| 0 <= k < d.len() && d[k] == e;
                    assert(s[k] == e);
                    assert(s[k].1 >= s[s.len() - 1].1);
                }
            } else {
                assert(r[i] == id[i] && r[j] == id[j]);
            }
        }
        assert forall|v: i32| #[trigger] scoring(r, v) == if x.1 == v {
            scoring(s, v).push(x)
        } else {
            scoring(s, v)
        } by {
            assert(scoring(r, v) == if l.1 == v {
                scoring(id, v).push(l)
            } else {
                scoring(id, v)
            });
            assert(scoring(s, v) == if l.1 == v {
                scoring(d, v).push(l)
            } else {
                scoring(d, v)
            });
            if x.1 == v && l.1 == v {
                assert(false);
            }
        }
    }
}

/// Sorting by score keeps every entry, puts higher scores first, and keeps
/// the entries of equal score in the order they came in (a stable sort: ties
/// keep their recent-files or base-list position).
pub proof fn lemma_sort_desc(s: Seq<(usize, i32)>)
    ensures
        descending(sort_desc(s)),
        sort_desc(s).to_multiset() == s.to_multiset(),
        forall|v: i32| #[trigger] scoring(sort_desc(s), v) == scoring(s, v),
    decreases s.len(),
{
    broadcast use vstd::seq_lib::group_to_multiset_ensures;
    reveal(Seq::filter);

    if s.len() > 0 {
        let d = s.drop_last();
        lemma_sort_desc(d);
        lemma_insert_desc_props(sort_desc(d), s.last());
        assert(d.push(s.last()) =~= s);
        assert forall|v: i32| #[trigger] scoring(sort_desc(s), v) == scoring(s, v) by {
            assert(scoring(s, v) == if s.last().1 == v {
                scoring(d, v).push(s.last())
            } else {
                scoring(d, v)
            });
        }
    }
}

/// The indices of `scored`, best score first, ties in input order.
pub fn rank_by_score(scored: &Vec<(usize, i32)>) -> (r: Vec<usize>)
    ensures
        r@ == sort_desc(scored@).map_values(|e: (usize, i32)| e.0),
{
    let mut out: Vec<(usize, i32)> = Vec::new();
    let mut i: usize = 0;
    while i < scored.len()
        invariant
            i <= scored@.len(),
            out@ == sort_desc(scored@.take(i as int)),
        decreases scored@.len() - i,
    {
        let x = scored[i];
        let n = out.len();
        let mut p = n;
        while p > 0 && out[p - 1].1 < x.1
            invariant
                p <= n == out@.len(),
                forall|k: int| p <= k < n ==> (#[trigger] out@[k]).1 < x.1,
            decreases p,
        {
            p -= 1;
        }
        proof {
            lemma_insert_desc_at(out@, x, p as int);
            assert(scored@.take(i + 1).drop_last() =~= scored@.take(i as int));
        }
        out.insert(p, x);
        proof {
            assert(out@ =~= sort_desc(scored@.take(i as int)).take(p as int).push(x) + sort_desc(
                scored@.take(i as int),
            ).skip(p as int));
        }
        i += 1;
    }
    proof {
        assert(scored@.take(scored@.len() as int) =~= scored@);
    }
    let mut r: Vec<usize> = Vec::new();
    let mut k: usize = 0;
    while k < out.len()
        invariant
            k <= out@.len(),
            r@ == out@.take(k as int).map_values(|e: (usize, i32)| e.0),
        decreases out@.len() - k,
    {
        r.push(out[k].0);
        proof {
            assert(out@.take(k + 1).map_values(|e: (usize, i32)| e.0) =~= out@.take(
                k as int,
            ).map_values(|e: (usize, i32)| e.0).push(out@[k as int].0));
        }
        k += 1;
    }
    proof {
        assert(out@.take(out@.len() as int) =~= out@);
    }
    r
}

// ---------------------------------------------------------------------------
// Result lists
// ---------------------------------------------------------------------------

/// The candidates of `order` that `q` fuzzy-matches against their labels,
/// with their scores, in `order`'s order.
pub open spec fn scored(order: Seq<usize>, labels: Seq<Seq<char>>, q: Seq<char>) -> Seq<(usize, i32)>
    decreases order.len(),
{
    if order.len() == 0 {
        Seq::empty()
    } else {
        let rest = scored(order.drop_last(), labels, q);
        let i = order.last();
        match fuzzy(q, labels[i as int]) {
            Some(sc) => rest.push((i, sc as i32)),
            None => rest,
        }
    }
}

/// The matches of `q` among `order`, best first, ties in `order`'s order.
pub open spec fn ranked(order: Seq<usize>, labels: Seq<Seq<char>>, q: Seq<char>) -> Seq<usize> {
    sort_desc(scored(order, labels, q)).map_values(|e: (usize, i32)| e.0)
}

fn score_order(order: &Vec<usize>, labels: &Vec<String>, query: &str) -> (r: Vec<(usize, i32)>)
    requires
        forall|k: int| 0 <= k < order@.len() ==> (#[trigger] order@[k]) < labels@.len(),
        16 * query@.len() <= i32::MAX,
    ensures
        r@ == scored(order@, text::strings(labels@), query@),
{
    let mut out: Vec<(usize, i32)> = Vec::new();
    let mut k: usize = 0;
    while k < order.len()
        invariant
            k <= order@.len(),
            forall|j: int| 0 <= j < order@.len() ==> (#[trigger] order@[j]) < labels@.len(),
            16 * query@.len() <= i32::MAX,
            out@ == scored(order@.take(k as int), text::strings(labels@), query@),
        decreases order@.len() - k,
    {
        let i = order[k];
        proof {
            crate::fuzzy::lemma_fuzzy_fits(query@, labels@[i as int]@);
            assert(order@.take(k + 1).drop_last() =~= order@.take(k as int));
            crate::fuzzy::lemma_fuzzy_score_floor(query@, labels@[i as int]@);
        }
        match crate::fuzzy::fuzzy_score(query, labels[i].as_str()) {
            Some(sc) => out.push((i, sc)),
            None => {},
        }
        k += 1;
    }
    proof {
        assert(order@.take(order@.len() as int) =~= order@);
    }
    out
}

fn copy_str(s: &str) -> (r: String)
    ensures
        r@ == s@,
{
    text::string_of(text::chars_of(s).as_slice())
}

fn str_eq(a: &str, b: &str) -> (r: bool)
    ensures
        r == (a@ == b@),
{
    text::chars_eq_str(text::chars_of(a).as_slice(), b)
}

/// The first index from `i` on at which `files` holds `r`.
pub open spec fn first_index(files: Seq<Seq<char>>, r: Seq<char>, i: int) -> Option<int>
    decreases files.len() - i,
{
    if i < 0 || i >= files.len() {
        None
    } else if files[i] == r {
        Some(i)
    } else {
        first_index(files, r, i + 1)
    }
}

/// The file-list indices of the recent files, most recent first (those not
/// in the list are skipped).
pub open spec fn recent_indices(files: Seq<Seq<char>>, recent: Seq<Seq<char>>) -> Seq<usize>
    decreases recent.len(),
{
    if recent.len() == 0 {
        Seq::empty()
    } else {
        let rest = recent_indices(files, recent.drop_last());
        match first_index(files, recent.last(), 0) {
            Some(i) => rest.push(i as usize),
            None => rest,
        }
    }
}

/// `o` followed by the indices below `n` it lacks, ascending.
pub open spec fn fill_rest(o: Seq<usize>, n: int) -> Seq<usize>
    decreases n,
{
    if n <= 0 {
        o
    } else {
        let f = fill_rest(o, n - 1);
        if o.contains((n - 1) as usize) {
            f
        } else {
            f.push((n - 1) as usize)
        }
    }
}

proof fn lemma_fill_rest_prefix(o: Seq<usize>, n: int)
    ensures
        fill_rest(o, n).len() >= o.len(),
        forall|m: int| 0 <= m < o.len() ==> #[trigger] fill_rest(o, n)[m] == o[m],
    decreases n,
{
    if n > 0 {
        lemma_fill_rest_prefix(o, n - 1);
    }
}

/// The palette's candidate files in display order: the recents, then (from
/// [`PALETTE_MIN_QUERY`] typed chars on) the rest of the list.
pub open spec fn base_order(files: Seq<Seq<char>>, recent: Seq<Seq<char>>, qlen: nat) -> Seq<usize> {
    let o = recent_indices(files, recent);
    if qlen >= PALETTE_MIN_QUERY {
        fill_rest(o, files.len() as int)
    } else {
        o
    }
}

/// The labels of `files` as the palette shows them.
pub open spec fn file_labels(files: Seq<Seq<char>>) -> Seq<Seq<char>> {
    Seq::new(files.len(), |i: int| label_of(files[i]))
}

/// The file palette's result list for `query`, as indices into the sorted
/// file list `files`.
pub open spec fn file_matches(files: Seq<Seq<char>>, recent: Seq<Seq<char>>, q: Seq<char>) -> Seq<
    usize,
> {
    let o = base_order(files, recent, q.len());
    if q.len() == 0 {
        o
    } else {
        ranked(o, file_labels(files), q)
    }
}

/// The file palette's results: below [`PALETTE_MIN_QUERY`] chars the recents
/// only (the full list is too long to page through unranked), then the whole
/// list; an empty query keeps that order, a non-empty one fuzzy-ranks by
/// label with a stable sort, so equal scores keep recents on top.
pub fn palette_matches(files: &Vec<String>, recent: &Vec<String>, query: &str) -> (r: Vec<usize>)
    requires
        16 * query@.len() <= i32::MAX,
    ensures
        r@ == file_matches(text::strings(files@), text::strings(recent@), query@),
{
    let ghost fs = text::strings(files@);
    let ghost rs = text::strings(recent@);
    let n = files.len();
    let mut order: Vec<usize> = Vec::new();
    let mut k: usize = 0;
    while k < recent.len()
        invariant
            n == files@.len(),
            fs == text::strings(files@),
            rs == text::strings(recent@),
            k <= recent@.len(),
            order@ == recent_indices(fs, rs.take(k as int)),
            forall|j: int| 0 <= j < order@.len() ==> (#[trigger] order@[j]) < n,
        decreases recent@.len() - k,
    {
        let mut i: usize = 0;
        while i < n && !str_eq(files[i].as_str(), recent[k].as_str())
            invariant
                n == files@.len(),
                fs == text::strings(files@),
                k < recent@.len(),
                i <= n,
                first_index(fs, recent@[k as int]@, 0) == first_index(
                    fs,
                    recent@[k as int]@,
                    i as int,
                ),
            decreases n - i,
        {
            i += 1;
        }
        proof {
            assert(rs.take(k + 1).drop_last() =~= rs.take(k as int));
            assert(rs.take(k + 1).last() == recent@[k as int]@);
        }
        if i < n {
            order.push(i);
        }
        k += 1;
    }
    proof {
        assert(rs.take(recent@.len() as int) =~= rs);
    }
    let ghost o = order@;
    let olen = order.len();
    let qlen = text::chars_of(query).len();
    if qlen >= PALETTE_MIN_QUERY {
        let mut i: usize = 0;
        while i < n
            invariant
                n == files@.len(),
                olen == o.len(),
                i <= n,
                order@ == fill_rest(o, i as int),
                forall|j: int| 0 <= j < order@.len() ==> (#[trigger] order@[j]) < n,
                forall|j: int| 0 <= j < o.len() ==> (#[trigger] o[j]) < n,
            decreases n - i,
        {
            proof {
                lemma_fill_rest_prefix(o, i as int);
            }
            let mut seen = false;
            let mut j: usize = 0;
            while j < olen
                invariant
                    olen == o.len(),
                    j <= o.len(),
                    order@.len() >= o.len(),
                    forall|m: int| 0 <= m < o.len() ==> order@[m] == o[m],
                    seen == exists|m: int| 0 <= m < j && o[m] == i,
                decreases o.len() - j,
            {
                if order[j] == i {
                    seen = true;
                    assert(o[j as int] == i);
                }
                j += 1;
            }
            proof {
                assert(seen == o.contains(i));
            }
            if !seen {
                order.push(i);
            }
            i += 1;
        }
    }
    if query.is_empty() {
        return order;
    }
    let mut labels: Vec<String> = Vec::new();
    let mut i: usize = 0;
    while i < n
        invariant
            n == files@.len(),
            fs == text::strings(files@),
            i <= n,
            text::strings(labels@) == file_labels(fs).take(i as int),
        decreases n - i,
    {
        let ghost before = text::strings(labels@);
        labels.push(copy_str(palette_label(files[i].as_str())));
        proof {
            assert(text::strings(labels@) =~= before.push(label_of(fs[i as int])));
            assert(file_labels(fs).take(i + 1) =~= file_labels(fs).take(i as int).push(
                label_of(fs[i as int]),
            ));
        }
        i += 1;
    }
    proof {
        assert(file_labels(fs).take(n as int) =~= file_labels(fs));
    }
    let scored_v = score_order(&order, &labels, query);
    rank_by_score(&scored_v)
}


/// With an empty query nothing is filtered out and every candidate scores
/// the same, so the stable ranking keeps the base order.
pub proof fn lemma_empty_query_keeps_order(order: Seq<usize>, labels: Seq<Seq<char>>)
    ensures
        ranked(order, labels, Seq::empty()) == order,
{
    lemma_scored_empty(order, labels);
    let z = order.map_values(|i: usize| (i, 0i32));
    lemma_sort_flat(z);
    assert(z.map_values(|e: (usize, i32)| e.0) =~= order);
}

proof fn lemma_scored_empty(order: Seq<usize>, labels: Seq<Seq<char>>)
    ensures
        scored(order, labels, Seq::empty()) == order.map_values(|i: usize| (i, 0i32)),
    decreases order.len(),
{
    if order.len() > 0 {
        lemma_scored_empty(order.drop_last(), labels);
        assert(order.map_values(|i: usize| (i, 0i32)) =~= order.drop_last().map_values(
            |i: usize| (i, 0i32),
        ).push((order.last(), 0i32)));
    }
}

proof fn lemma_sort_flat(s: Seq<(usize, i32)>)
    requires
        forall|k: int| 0 <= k < s.len() ==> (#[trigger] s[k]).1 == 0,
    ensures
        sort_desc(s) == s,
    decreases s.len(),
{
    if s.len() > 0 {
        lemma_sort_flat(s.drop_last());
        assert(s.drop_last().push(s.last()) =~= s);
    }
}

// ---------------------------------------------------------------------------
// Command mode (`>`) and snippet mode (`$`)
// ---------------------------------------------------------------------------

/// The query opens with the sigil `c` (`>` for commands, `$` for snippets).
pub open spec fn sigil_mode(q: Seq<char>, c: char) -> bool {
    q.len() > 0 && q[0] == c
}

/// What follows the leading sigil `c`, trimmed; empty when there is no sigil.
pub open spec fn sigil_filter(q: Seq<char>, c: char) -> Seq<char> {
    if sigil_mode(q, c) {
        text::trim(q.drop_first())
    } else {
        Seq::empty()
    }
}

fn has_sigil(query: &str, c: char) -> (r: bool)
    ensures
        r == sigil_mode(query@, c),
{
    let v = text::chars_of(query);
    v.len() > 0 && v[0] == c
}

fn filter_after(query: &str, c: char) -> (r: String)
    ensures
        r@ == sigil_filter(query@, c),
        r@.len() <= query@.len(),
{
    let v = text::chars_of(query);
    if v.len() > 0 && v[0] == c {
        let rest = text::slice_of(v.as_slice(), 1, v.len());
        assert(rest@ =~= query@.drop_first());
        let t = text::trim_exec(rest.as_slice());
        proof {
            text::lemma_lead_bounds(rest@, text::ws_pred());
            text::lemma_trail_bounds(text::trim_start(rest@), text::ws_pred());
        }
        text::string_of(t.as_slice())
    } else {
        String::new()
    }
}

/// Whether the palette is in `>` command mode (a leading `>` in the query).
pub fn palette_command_mode(query: &str) -> (r: bool)
    ensures
        r == sigil_mode(query@, '>'),
{
    has_sigil(query, '>')
}

/// The command filter: everything after the leading `>`, trimmed.
pub fn command_filter(query: &str) -> (r: String)
    ensures
        r@ == sigil_filter(query@, '>'),
        r@.len() <= query@.len(),
{
    filter_after(query, '>')
}

/// Whether the palette is in `$` snippet mode (a leading `$` in the query).
pub fn palette_snippet_mode(query: &str) -> (r: bool)
    ensures
        r == sigil_mode(query@, '$'),
{
    has_sigil(query, '$')
}

/// The snippet filter: everything after the leading `$`, trimmed.
pub fn snippet_filter(query: &str) -> (r: String)
    ensures
        r@ == sigil_filter(query@, '$'),
        r@.len() <= query@.len(),
{
    filter_after(query, '$')
}

/// `on` or `off`, as a boolean pref's label shows it.
pub open spec fn on_off(b: bool) -> Seq<char> {
    if b {
        "on"@
    } else {
        "off"@
    }
}

/// The registry in display order.
pub open spec fn registry() -> Seq<PaletteCmd> {
    seq![
        PaletteCmd::NewFile,
        PaletteCmd::Format,
        PaletteCmd::Push,
        PaletteCmd::Setup,
        PaletteCmd::Reboot,
        PaletteCmd::Update,
        PaletteCmd::SaveOnIdle,
        PaletteCmd::FormatOnSave,
        PaletteCmd::LineNumbers,
        PaletteCmd::ScrollMargin,
        PaletteCmd::OpenLastOnBoot,
        PaletteCmd::Theme,
        PaletteCmd::AutoSync,
    ]
}

/// A command's label: a plain verb for an action (with `...` on those that
/// open a second step), and for a toggle its pref's current state.
pub open spec fn cmd_label(c: PaletteCmd, p: Prefs) -> Seq<char> {
    match c {
        PaletteCmd::NewFile => "new file..."@,
        PaletteCmd::Format => "format"@,
        PaletteCmd::Push => "push"@,
        PaletteCmd::Setup => "setup..."@,
        PaletteCmd::Reboot => "reboot"@,
        PaletteCmd::Update => "update firmware"@,
        PaletteCmd::SaveOnIdle => "save on idle: "@ + on_off(p.save_on_idle),
        PaletteCmd::FormatOnSave => "format on save: "@ + on_off(p.format_on_save),
        PaletteCmd::LineNumbers => "line numbers: "@ + on_off(p.line_numbers),
        PaletteCmd::ScrollMargin => "scroll margin: "@ + text::dec(p.scroll_margin as nat),
        PaletteCmd::OpenLastOnBoot => "open last on boot: "@ + on_off(p.open_last_on_boot),
        PaletteCmd::Theme => "theme: "@ + p.theme@,
        PaletteCmd::AutoSync => "auto sync: "@ + p.auto_sync@,
    }
}

/// The labels of the whole registry under prefs `p`.
pub open spec fn cmd_labels(p: Prefs) -> Seq<Seq<char>> {
    Seq::new(13, |i: int| cmd_label(registry()[i], p))
}

/// `0, 1, .., n - 1`.
pub open spec fn all_indices(n: nat) -> Seq<usize> {
    Seq::new(n, |i: int| i as usize)
}

fn joined_label(head: &str, tail: &str) -> (r: String)
    ensures
        r@ == head@ + tail@,
{
    let mut v = text::chars_of(head);
    text::extend_str(&mut v, tail);
    text::string_of(v.as_slice())
}

fn on_off_str(b: bool) -> (r: &'static str)
    ensures
        r@ == on_off(b),
{
    if b {
        "on"
    } else {
        "off"
    }
}

/// A command's display label under `prefs`; it is also the text the `>`
/// filter matches against.
pub fn command_label(cmd: PaletteCmd, prefs: &Prefs) -> (r: String)
    ensures
        r@ == cmd_label(cmd, *prefs),
{
    match cmd {
        PaletteCmd::NewFile => copy_str("new file..."),
        PaletteCmd::Format => copy_str("format"),
        PaletteCmd::Push => copy_str("push"),
        PaletteCmd::Setup => copy_str("setup..."),
        PaletteCmd::Reboot => copy_str("reboot"),
        PaletteCmd::Update => copy_str("update firmware"),
        PaletteCmd::SaveOnIdle => joined_label("save on idle: ", on_off_str(prefs.save_on_idle)),
        PaletteCmd::FormatOnSave => joined_label(
            "format on save: ",
            on_off_str(prefs.format_on_save),
        ),
        PaletteCmd::LineNumbers => joined_label("line numbers: ", on_off_str(prefs.line_numbers)),
        PaletteCmd::ScrollMargin => {
            let mut v = text::chars_of("scroll margin: ");
            text::push_dec(&mut v, prefs.scroll_margin);
            text::string_of(v.as_slice())
        },
        PaletteCmd::OpenLastOnBoot => joined_label(
            "open last on boot: ",
            on_off_str(prefs.open_last_on_boot),
        ),
        PaletteCmd::Theme => joined_label("theme: ", prefs.theme.as_str()),
        PaletteCmd::AutoSync => joined_label("auto sync: ", prefs.auto_sync.as_str()),
    }
}

fn index_order(n: usize) -> (r: Vec<usize>)
    ensures
        r@ == all_indices(n as nat),
{
    let mut r: Vec<usize> = Vec::new();
    let mut i: usize = 0;
    while i < n
        invariant
            i <= n,
            r@ == all_indices(i as nat),
        decreases n - i,
    {
        r.push(i);
        i += 1;
        assert(r@ =~= all_indices(i as nat));
    }
    r
}

/// The `>` command list for `query`, as indices into [`PALETTE_CMDS`]: an
/// empty filter keeps registry order, a non-empty one fuzzy-ranks by label.
pub fn palette_command_matches(prefs: &Prefs, query: &str) -> (r: Vec<usize>)
    requires
        16 * query@.len() <= i32::MAX,
    ensures
        r@ == ranked(all_indices(13), cmd_labels(*prefs), sigil_filter(query@, '>')),
{
    let filter = command_filter(query);
    let cmds = vec![
        PaletteCmd::NewFile,
        PaletteCmd::Format,
        PaletteCmd::Push,
        PaletteCmd::Setup,
        PaletteCmd::Reboot,
        PaletteCmd::Update,
        PaletteCmd::SaveOnIdle,
        PaletteCmd::FormatOnSave,
        PaletteCmd::LineNumbers,
        PaletteCmd::ScrollMargin,
        PaletteCmd::OpenLastOnBoot,
        PaletteCmd::Theme,
        PaletteCmd::AutoSync,
    ];
    assert(cmds@ =~= registry());
    let mut labels: Vec<String> = Vec::new();
    let mut i: usize = 0;
    while i < cmds.len()
        invariant
            cmds@ == registry(),
            i <= 13,
            text::strings(labels@) == cmd_labels(*prefs).take(i as int),
        decreases 13 - i,
    {
        let ghost before = text::strings(labels@);
        labels.push(command_label(cmds[i], prefs));
        proof {
            assert(text::strings(labels@) =~= before.push(cmd_label(registry()[i as int], *prefs)));
            assert(cmd_labels(*prefs).take(i + 1) =~= cmd_labels(*prefs).take(i as int).push(
                cmd_label(registry()[i as int], *prefs),
            ));
        }
        i += 1;
    }
    assert(cmd_labels(*prefs).take(13) =~= cmd_labels(*prefs));
    let order = index_order(13);
    let scored_v = score_order(&order, &labels, filter.as_str());
    rank_by_score(&scored_v)
}

/// The text a snippet is matched against: name, prefix and description.
pub open spec fn haystack_of(s: Snippet) -> Seq<char> {
    s.name@ + " "@ + s.prefix@ + " "@ + s.description@
}

/// A snippet's palette row: its name with its trigger in brackets.
pub open spec fn snippet_row(s: Snippet) -> Seq<char> {
    s.name@ + " ["@ + s.prefix@ + "]"@
}

/// The haystack of each snippet.
pub open spec fn haystacks(snips: Seq<Snippet>) -> Seq<Seq<char>> {
    Seq::new(snips.len(), |i: int| haystack_of(snips[i]))
}

/// The text a snippet is fuzzy-matched against: name, prefix, and
/// description together, so a snippet is found by whichever is remembered.
pub fn snippet_haystack(s: &Snippet) -> (r: String)
    ensures
        r@ == haystack_of(*s),
{
    let mut v = text::chars_of(s.name.as_str());
    text::extend_str(&mut v, " ");
    text::extend_str(&mut v, s.prefix.as_str());
    text::extend_str(&mut v, " ");
    text::extend_str(&mut v, s.description.as_str());
    text::string_of(v.as_slice())
}

/// A snippet's palette row: the display name with its inline trigger in
/// brackets (`Markdown link [link]`).
pub fn snippet_label(s: &Snippet) -> (r: String)
    ensures
        r@ == snippet_row(*s),
{
    let mut v = text::chars_of(s.name.as_str());
    text::extend_str(&mut v, " [");
    text::extend_str(&mut v, s.prefix.as_str());
    text::extend_str(&mut v, "]");
    text::string_of(v.as_slice())
}

/// The `$` snippet list for `query`, as indices into `snippets`: an empty
/// filter keeps the library's order, a non-empty one fuzzy-ranks over the
/// haystacks.
pub fn palette_snippet_matches(snippets: &Vec<Snippet>, query: &str) -> (r: Vec<usize>)
    requires
        16 * query@.len() <= i32::MAX,
    ensures
        r@ == ranked(all_indices(snippets@.len()), haystacks(snippets@), sigil_filter(query@, '$')),
{
    let filter = snippet_filter(query);
    let n = snippets.len();
    let mut hay: Vec<String> = Vec::new();
    let mut i: usize = 0;
    while i < n
        invariant
            n == snippets@.len(),
            i <= n,
            text::strings(hay@) == haystacks(snippets@).take(i as int),
        decreases n - i,
    {
        let ghost before = text::strings(hay@);
        hay.push(snippet_haystack(&snippets[i]));
        proof {
            assert(text::strings(hay@) =~= before.push(haystack_of(snippets@[i as int])));
            assert(haystacks(snippets@).take(i + 1) =~= haystacks(snippets@).take(i as int).push(
                haystack_of(snippets@[i as int]),
            ));
        }
        i += 1;
    }
    assert(haystacks(snippets@).take(n as int) =~= haystacks(snippets@));
    let order = index_order(n);
    let scored_v = score_order(&order, &hay, filter.as_str());
    rank_by_score(&scored_v)
}


// ---------------------------------------------------------------------------
// Result count
// ---------------------------------------------------------------------------

/// The length of the palette's current result list, whichever sigil is active.
pub open spec fn result_len(
    files: Seq<Seq<char>>,
    recent: Seq<Seq<char>>,
    prefs: Prefs,
    snippets: Seq<Snippet>,
    q: Seq<char>,
) -> nat {
    if sigil_mode(q, '$') {
        ranked(all_indices(snippets.len()), haystacks(snippets), sigil_filter(q, '$')).len()
    } else if sigil_mode(q, '>') {
        ranked(all_indices(13), cmd_labels(prefs), sigil_filter(q, '>')).len()
    } else {
        file_matches(files, recent, q).len()
    }
}

/// Row count of the palette's current result list, whichever sigil is
/// active: the single count the selection wraps against.
pub fn palette_len(
    files: &Vec<String>,
    recent: &Vec<String>,
    prefs: &Prefs,
    snippets: &Vec<Snippet>,
    query: &str,
) -> (r: usize)
    requires
        16 * query@.len() <= i32::MAX,
    ensures
        r == result_len(text::strings(files@), text::strings(recent@), *prefs, snippets@, query@),
{
    if palette_snippet_mode(query) {
        palette_snippet_matches(snippets, query).len()
    } else if palette_command_mode(query) {
        palette_command_matches(prefs, query).len()
    } else {
        palette_matches(files, recent, query).len()
    }
}

// ---------------------------------------------------------------------------
// Keys
// ---------------------------------------------------------------------------

/// A key as the palette reads it.
#[derive(Debug, Clone, Copy, PartialEq, Eq, Structural)]
pub enum Key {
    Char(char),
    Backspace,
    /// Readline `Ctrl-W`.
    DeleteWord,
    /// Readline `Ctrl-U`.
    DeleteLine,
    Up,
    Down,
    HalfPageUp,
    HalfPageDown,
    Enter,
    Escape,
    /// `Cmd-P`.
    Palette,
    /// `Cmd-Shift-P`.
    CommandPalette,
    Redo,
    Save,
    FocusContinue,
    FocusQuit,
}

/// What the caller does after a palette key.
#[derive(Debug, Clone, PartialEq, Eq)]
pub enum PaletteAction {
    /// Nothing more: the palette stays open with its new state.
    Stay,
    /// The palette closed (its state is reset); back to Normal.
    Close,
    /// Enter on the list: act on the selection by sigil (insert a `$`
    /// snippet, run a `>` command, or open the selected file).
    Activate,
    /// Enter on a filename in the `new file` step: the palette closed;
    /// create this file.
    Create(String),
}

/// The palette's own state: its query, the selected row, which step it
/// shows, and a Tab-completion cycle in progress (its stem and slot).
pub struct PaletteState {
    pub query: String,
    pub sel: usize,
    pub step: PaletteStep,
    pub completion: Option<(String, usize)>,
}

/// `q` with its trailing spaces and then its last word dropped (readline
/// `Ctrl-W`).
pub open spec fn drop_last_word(q: Seq<char>) -> Seq<char> {
    let t = text::trim_end_char(q, ' ');
    t.take(t.len() - text::trail(t, not_space()))
}

pub open spec fn not_space() -> spec_fn(char) -> bool {
    |c: char| c != ' '
}

pub(crate) fn drop_last_word_exec(q: &str) -> (r: String)
    ensures
        r@ == drop_last_word(q@),
{
    let v = text::chars_of(q);
    let n = text::char_trail(v.as_slice(), ' ');
    proof {
        text::lemma_trail_bounds(v@, text::eq_pred(' '));
    }
    let t = text::slice_of(v.as_slice(), 0, v.len() - n);
    assert(t@ =~= text::trim_end_char(q@, ' '));
    let mut k = t.len();
    while k > 0 && t[k - 1] != ' '
        invariant
            k <= t@.len(),
            forall|j: int| k <= j < t@.len() ==> #[trigger] t@[j] != ' ',
        decreases k,
    {
        k -= 1;
    }
    proof {
        text::lemma_trail(t@, not_space(), t@.len() - k);
    }
    let w = text::slice_of(t.as_slice(), 0, k);
    assert(w@ =~= drop_last_word(q@));
    text::string_of(w.as_slice())
}

/// The query after a key on the list.
pub open spec fn list_query(q: Seq<char>, key: Key) -> Seq<char> {
    match key {
        Key::Char(c) => q.push(c),
        Key::Backspace => if q.len() == 0 {
            q
        } else {
            q.drop_last()
        },
        Key::DeleteWord => drop_last_word(q),
        Key::DeleteLine => Seq::empty(),
        _ => q,
    }
}

/// The selection after a key on a list of `len` rows: a query edit goes
/// back to the top, the movement keys step and wrap.
pub open spec fn list_sel(sel: usize, len: usize, key: Key) -> usize {
    match key {
        Key::Char(_) | Key::Backspace | Key::DeleteWord | Key::DeleteLine => 0,
        Key::Down | Key::HalfPageDown => if len > 0 {
            ((sel + 1) % (len as int)) as usize
        } else {
            sel
        },
        Key::Up | Key::HalfPageUp => if len == 0 {
            sel
        } else if sel == 0 {
            (len - 1) as usize
        } else {
            (sel - 1) as usize
        },
        _ => sel,
    }
}

/// Esc, `Cmd-P`, or Backspace on an empty query close the list.
pub open spec fn closes_list(q: Seq<char>, key: Key) -> bool {
    key is Escape || key is Palette || (key is Backspace && q.len() == 0)
}

/// The filename after a key in the `new file` step; Backspace on an empty
/// name goes back to the `>` list.
pub open spec fn step_query(q: Seq<char>, key: Key) -> Seq<char> {
    match key {
        Key::Char(c) => q.push(c),
        Key::Backspace => if q.len() == 0 {
            seq!['>']
        } else {
            q.drop_last()
        },
        Key::DeleteWord => drop_last_word(q),
        Key::DeleteLine => Seq::empty(),
        _ => q,
    }
}

/// A name Enter accepts: something typed, and more than a folder.
pub open spec fn name_ready(q: Seq<char>) -> bool {
    let n = text::trim(q);
    n.len() > 0 && n.last() != '/'
}

/// Keys that close the `new file` step.
pub open spec fn closes_step(q: Seq<char>, key: Key) -> bool {
    key is Escape || key is Palette || (key is Enter && name_ready(q))
}

impl PaletteState {
    /// A closed palette: empty query, first row, the list step.
    pub fn new() -> (r: PaletteState)
        ensures
            r.query@ == Seq::<char>::empty(),
            r.sel == 0,
            r.step == PaletteStep::List,
            r.completion is None,
    {
        PaletteState { query: String::new(), sel: 0, step: PaletteStep::List, completion: None }
    }

    /// `Cmd-P`: open the file palette on an empty query, first row selected.
    pub fn open_palette(&mut self)
        ensures
            final(self).query@ == Seq::<char>::empty(),
            final(self).sel == 0,
            final(self).step == PaletteStep::List,
            final(self).completion == old(self).completion,
    {
        self.query = String::new();
        self.sel = 0;
        self.step = PaletteStep::List;
    }

    /// `:settings`: open straight into `>` command mode.
    pub fn open_settings(&mut self)
        ensures
            final(self).query@ == seq!['>'],
            final(self).sel == 0,
            final(self).step == PaletteStep::List,
            final(self).completion == old(self).completion,
    {
        self.query = text::string_of(&[ '>' ]);
        self.sel = 0;
        self.step = PaletteStep::List;
    }

    /// Leave the palette, clearing its query, selection, and step.
    pub fn close_palette(&mut self)
        ensures
            final(self).query@ == Seq::<char>::empty(),
            final(self).sel == 0,
            final(self).step == PaletteStep::List,
            final(self).completion == old(self).completion,
    {
        self.query = String::new();
        self.sel = 0;
        self.step = PaletteStep::List;
    }

    /// Switch the open palette into its `new file` step, the prompt
    /// pre-filled with `folder` (the active buffer's folder).
    pub fn begin_new_file_step(&mut self, folder: &str)
        ensures
            final(self).query@ == folder@,
            final(self).sel == 0,
            final(self).step == PaletteStep::NewFile,
            final(self).completion is None,
    {
        self.step = PaletteStep::NewFile;
        self.query = text::string_of(text::chars_of(folder).as_slice());
        self.sel = 0;
        self.completion = None;
    }

    /// A key on the palette. On the list, typing edits the filter (and sends
    /// the selection back to the top), the movement keys step through the
    /// `len` rows of the current result list and wrap, Enter acts on the
    /// selection, and Esc, `Cmd-P`, or Backspace on an empty query close.
    /// In the `new file` step the keys build a filename: Tab completes the
    /// folder against those in `files`, Enter on a name closes and asks for
    /// the file (an empty name, or a bare folder, stays), and Backspace past
    /// the start goes back to the `>` list.
    pub fn palette_key(&mut self, key: Key, files: &Vec<String>, len: usize) -> (r: PaletteAction)
        requires
            old(self).completion matches Some((_, p)) ==> p < usize::MAX,
        ensures
            old(self).step == PaletteStep::List ==> {
                &&& final(self).completion == old(self).completion
                &&& final(self).step == PaletteStep::List
                &&& if closes_list(old(self).query@, key) {
                    &&& final(self).query@ == Seq::<char>::empty()
                    &&& final(self).sel == 0
                    &&& r is Close
                } else {
                    &&& final(self).query@ == list_query(old(self).query@, key)
                    &&& final(self).sel == list_sel(old(self).sel, len, key)
                    &&& if key is Enter {
                        r is Activate
                    } else {
                        r is Stay
                    }
                }
            },
            old(self).step == PaletteStep::NewFile && key == Key::Char('\t') ==> {
                &&& final(self).step == PaletteStep::NewFile
                &&& final(self).sel == old(self).sel
                &&& r is Stay
                &&& {
                    let (stem, pos) = tab_start(old(self).query@, old(self).completion);
                    exists|c: Seq<Seq<char>>|
                        #![trigger sorted_listing(c, completions(text::strings(files@), stem))]
                        sorted_listing(c, completions(text::strings(files@), stem)) && if c.len()
                            == 0 {
                            final(self).query@ == old(self).query@ && final(self).completion is None
                        } else {
                            let p = pos % ((c.len() + 1) as int);
                            &&& final(self).query@ == (if p < c.len() {
                                c[p]
                            } else {
                                stem
                            })
                            &&& final(self).completion matches Some((s2, p2)) && s2@ == stem && p2
                                == p
                        }
                }
            },
            old(self).step == PaletteStep::NewFile && key != Key::Char('\t') ==> {
                &&& final(self).completion is None
                &&& if closes_step(old(self).query@, key) {
                    &&& final(self).query@ == Seq::<char>::empty()
                    &&& final(self).sel == 0
                    &&& final(self).step == PaletteStep::List
                    &&& if key is Enter {
                        r matches PaletteAction::Create(name) && name@ == text::trim(
                            old(self).query@,
                        )
                    } else {
                        r is Close
                    }
                } else {
                    let back = key is Backspace && old(self).query@.len() == 0;
                    &&& final(self).query@ == step_query(old(self).query@, key)
                    &&& final(self).step == (if back {
                        PaletteStep::List
                    } else {
                        PaletteStep::NewFile
                    })
                    &&& final(self).sel == (if back {
                        0
                    } else {
                        old(self).sel
                    })
                    &&& r is Stay
                }
            },
    {
        if self.step == PaletteStep::NewFile {
            return self.new_file_step_key(key, files);
        }
        match key {
            Key::Char(c) => {
                let mut v = text::chars_of(self.query.as_str());
                v.push(c);
                self.query = text::string_of(v.as_slice());
                self.sel = 0;
                PaletteAction::Stay
            },
            Key::Backspace => {
                let mut v = text::chars_of(self.query.as_str());
                if v.len() == 0 {
                    self.close_palette();
                    PaletteAction::Close
                } else {
                    v.pop();
                    self.query = text::string_of(v.as_slice());
                    self.sel = 0;
                    PaletteAction::Stay
                }
            },
            Key::DeleteWord => {
                self.query = drop_last_word_exec(self.query.as_str());
                self.sel = 0;
                PaletteAction::Stay
            },
            Key::DeleteLine => {
                self.query = String::new();
                self.sel = 0;
                PaletteAction::Stay
            },
            Key::Down | Key::HalfPageDown => {
                if len > 0 {
                    self.sel = (self.sel % len + 1) % len;
                    proof {
                        lemma_wrap_next(old(self).sel as int, len as int);
                    }
                }
                PaletteAction::Stay
            },
            Key::Up | Key::HalfPageUp => {
                if len > 0 {
                    self.sel = if self.sel == 0 {
                        len - 1
                    } else {
                        self.sel - 1
                    };
                }
                PaletteAction::Stay
            },
            Key::Enter => PaletteAction::Activate,
            Key::Escape | Key::Palette => {
                self.close_palette();
                PaletteAction::Close
            },
            Key::CommandPalette | Key::Redo | Key::Save | Key::FocusContinue | Key::FocusQuit => {
                PaletteAction::Stay
            },
        }
    }

    /// A key in the `new file` step (see [`PaletteState::palette_key`]).
    fn new_file_step_key(&mut self, key: Key, files: &Vec<String>) -> (r: PaletteAction)
        requires
            old(self).step == PaletteStep::NewFile,
            old(self).completion matches Some((_, p)) ==> p < usize::MAX,
        ensures
            key == Key::Char('\t') ==> {
                &&& final(self).step == PaletteStep::NewFile
                &&& final(self).sel == old(self).sel
                &&& r is Stay
                &&& {
                    let (stem, pos) = tab_start(old(self).query@, old(self).completion);
                    exists|c: Seq<Seq<char>>|
                        #![trigger sorted_listing(c, completions(text::strings(files@), stem))]
                        sorted_listing(c, completions(text::strings(files@), stem)) && if c.len()
                            == 0 {
                            final(self).query@ == old(self).query@ && final(self).completion is None
                        } else {
                            let p = pos % ((c.len() + 1) as int);
                            &&& final(self).query@ == (if p < c.len() {
                                c[p]
                            } else {
                                stem
                            })
                            &&& final(self).completion matches Some((s2, p2)) && s2@ == stem && p2
                                == p
                        }
                }
            },
            key != Key::Char('\t') ==> {
                &&& final(self).completion is None
                &&& if closes_step(old(self).query@, key) {
                    &&& final(self).query@ == Seq::<char>::empty()
                    &&& final(self).sel == 0
                    &&& final(self).step == PaletteStep::List
                    &&& if key is Enter {
                        r matches PaletteAction::Create(name) && name@ == text::trim(
                            old(self).query@,
                        )
                    } else {
                        r is Close
                    }
                } else {
                    let back = key is Backspace && old(self).query@.len() == 0;
                    &&& final(self).query@ == step_query(old(self).query@, key)
                    &&& final(self).step == (if back {
                        PaletteStep::List
                    } else {
                        PaletteStep::NewFile
                    })
                    &&& final(self).sel == (if back {
                        0
                    } else {
                        old(self).sel
                    })
                    &&& r is Stay
                }
            },
    {
        if key == Key::Char('\t') {
            new_file_complete(&mut self.query, &mut self.completion, files);
            return PaletteAction::Stay;
        }
        self.completion = None;
        match key {
            Key::Char(c) => {
                let mut v = text::chars_of(self.query.as_str());
                v.push(c);
                self.query = text::string_of(v.as_slice());
                PaletteAction::Stay
            },
            Key::Backspace => {
                let mut v = text::chars_of(self.query.as_str());
                if v.len() == 0 {
                    self.step = PaletteStep::List;
                    self.query = text::string_of(&[ '>' ]);
                    self.sel = 0;
                } else {
                    v.pop();
                    self.query = text::string_of(v.as_slice());
                }
                PaletteAction::Stay
            },
            Key::DeleteWord => {
                self.query = drop_last_word_exec(self.query.as_str());
                PaletteAction::Stay
            },
            Key::DeleteLine => {
                self.query = String::new();
                PaletteAction::Stay
            },
            Key::Enter => {
                let name = text::trim_exec(text::chars_of(self.query.as_str()).as_slice());
                if name.len() == 0 || name[name.len() - 1] == '/' {
                    return PaletteAction::Stay;
                }
                self.close_palette();
                PaletteAction::Create(text::string_of(name.as_slice()))
            },
            Key::Escape | Key::Palette => {
                self.close_palette();
                PaletteAction::Close
            },
            _ => PaletteAction::Stay,
        }
    }
}

proof fn lemma_wrap_next(sel: int, len: int)
    requires
        0 <= sel,
        0 < len,
    ensures
        (sel % len + 1) % len == (sel + 1) % len,
{
    vstd::arithmetic::div_mod::lemma_add_mod_noop_right(1, sel, len);
}


// ---------------------------------------------------------------------------
// Running a `>` command
// ---------------------------------------------------------------------------

/// The numeric preset after `current`, wrapping; the head when off-list.
pub open spec fn count_after(options: Seq<usize>, current: usize) -> usize {
    match count_position_of(options, current) {
        Some(i) => options[((i + 1) % options.len()) as int],
        None => options[0],
    }
}

/// `n` is `o` with the pref that `cmd` targets moved to its next value (a
/// boolean flips, a preset rotates), and every other pref as it was.
pub open spec fn pref_cycled(o: Prefs, n: Prefs, cmd: PaletteCmd) -> bool {
    &&& n.save_on_idle == (if cmd is SaveOnIdle {
        !o.save_on_idle
    } else {
        o.save_on_idle
    })
    &&& n.format_on_save == (if cmd is FormatOnSave {
        !o.format_on_save
    } else {
        o.format_on_save
    })
    &&& n.line_numbers == (if cmd is LineNumbers {
        !o.line_numbers
    } else {
        o.line_numbers
    })
    &&& n.open_last_on_boot == (if cmd is OpenLastOnBoot {
        !o.open_last_on_boot
    } else {
        o.open_last_on_boot
    })
    &&& n.scroll_margin == (if cmd is ScrollMargin {
        count_after(SCROLL_MARGIN_OPTIONS@, o.scroll_margin)
    } else {
        o.scroll_margin
    })
    &&& n.theme@ == (if cmd is Theme {
        option_after(THEME_OPTIONS@, o.theme@)
    } else {
        o.theme@
    })
    &&& n.auto_sync@ == (if cmd is AutoSync {
        option_after(AUTO_SYNC_OPTIONS@, o.auto_sync@)
    } else {
        o.auto_sync@
    })
    &&& n.fast_partial == o.fast_partial
    &&& n.timezone@ == o.timezone@
}

/// What a toggle asks of the host and the user once applied: the prefs file
/// to write, and the snackbar confirming the new state.
pub struct PrefChange {
    pub contents: String,
    pub notice: String,
}

/// Advance the pref a toggle command targets to its next value, live: a
/// boolean flips, a preset string or count rotates to its next option and
/// wraps. Gives the prefs file to persist and the notice naming the new
/// state (`theme: dark - saved`). An action command is not a toggle: the
/// prefs stay as they are and nothing is asked.
pub fn cycle_pref(prefs: &mut Prefs, cmd: PaletteCmd) -> (r: Option<PrefChange>)
    ensures
        kind_of(cmd) != CmdKind::Toggle ==> r is None && *final(prefs) == *old(prefs),
        kind_of(cmd) == CmdKind::Toggle ==> {
            &&& pref_cycled(*old(prefs), *final(prefs), cmd)
            &&& r matches Some(ch) && ch.contents@ == text::joined(toml_lines(*final(prefs)))
                && ch.notice@ == cmd_label(cmd, *final(prefs)) + " - saved"@
        },
{
    match cmd {
        PaletteCmd::SaveOnIdle => prefs.save_on_idle = !prefs.save_on_idle,
        PaletteCmd::FormatOnSave => prefs.format_on_save = !prefs.format_on_save,
        PaletteCmd::LineNumbers => prefs.line_numbers = !prefs.line_numbers,
        PaletteCmd::OpenLastOnBoot => prefs.open_last_on_boot = !prefs.open_last_on_boot,
        PaletteCmd::ScrollMargin => {
            prefs.scroll_margin = next_usize_option(
                prefs.scroll_margin,
                SCROLL_MARGIN_OPTIONS.as_slice(),
            );
        },
        PaletteCmd::Theme => {
            let next = next_option(prefs.theme.as_str(), THEME_OPTIONS.as_slice());
            prefs.theme = copy_str(next);
        },
        PaletteCmd::AutoSync => {
            let next = next_option(prefs.auto_sync.as_str(), AUTO_SYNC_OPTIONS.as_slice());
            prefs.auto_sync = copy_str(next);
        },
        PaletteCmd::NewFile | PaletteCmd::Format | PaletteCmd::Push | PaletteCmd::Setup
        | PaletteCmd::Reboot | PaletteCmd::Update => {
            return None;
        },
    }
    let contents = prefs.to_toml();
    let label = command_label(cmd, prefs);
    let notice = joined_label(label.as_str(), " - saved");
    Some(PrefChange { contents, notice })
}


/// What Enter on the `>` list does.
pub enum CommandRun {
    /// No row is selected (the filter matched nothing): the palette stays
    /// open so the query can be fixed.
    Nothing,
    /// A toggle flipped its pref; the palette stays open.
    Toggled(PrefChange),
    /// A one-shot (`format`, `push`, `setup...`, `reboot`, `update firmware`):
    /// the palette closes and the command runs.
    OneShot(PaletteCmd),
    /// `new file...`: the palette switches to its filename step.
    NewFileStep,
}

/// Enter in `>` command mode, dispatched by the selected command's kind: a
/// toggle flips its pref (the palette stays open), a one-shot runs and
/// closes, a parameterised command opens its input step. With no row
/// selected nothing happens.
pub fn palette_run_command(prefs: &mut Prefs, query: &str, sel: usize) -> (r: CommandRun)
    requires
        16 * query@.len() <= i32::MAX,
    ensures
        ({
            let m = ranked(all_indices(13), cmd_labels(*old(prefs)), sigil_filter(query@, '>'));
            if sel >= m.len() {
                r is Nothing && *final(prefs) == *old(prefs)
            } else {
                let cmd = registry()[m[sel as int] as int];
                match kind_of(cmd) {
                    CmdKind::Toggle => pref_cycled(*old(prefs), *final(prefs), cmd) && (
                    r matches CommandRun::Toggled(ch) && ch.contents@ == text::joined(
                        toml_lines(*final(prefs)),
                    ) && ch.notice@ == cmd_label(cmd, *final(prefs)) + " - saved"@),
                    CmdKind::OneShot => (r matches CommandRun::OneShot(c) && c == cmd)
                        && *final(prefs) == *old(prefs),
                    CmdKind::Param => r is NewFileStep && *final(prefs) == *old(prefs),
                }
            }
        }),
{
    let m = palette_command_matches(prefs, query);
    if sel >= m.len() {
        return CommandRun::Nothing;
    }
    let ci = m[sel];
    proof {
        lemma_ranked_within(all_indices(13), cmd_labels(*prefs), sigil_filter(query@, '>'));
        assert(all_indices(13).contains(m@[sel as int]));
    }
    let cmd = registry_at(ci);
    match cmd.kind() {
        CmdKind::Toggle => match cycle_pref(prefs, cmd) {
            Some(ch) => CommandRun::Toggled(ch),
            None => CommandRun::Nothing,
        },
        CmdKind::OneShot => CommandRun::OneShot(cmd),
        CmdKind::Param => CommandRun::NewFileStep,
    }
}

/// Every ranked index comes from the candidates.
proof fn lemma_ranked_within(order: Seq<usize>, labels: Seq<Seq<char>>, q: Seq<char>)
    ensures
        forall|k: int| 0 <= k < ranked(order, labels, q).len() ==> order.contains(
            #[trigger] ranked(order, labels, q)[k],
        ),
{
    broadcast use vstd::seq_lib::group_to_multiset_ensures;
    let sc = scored(order, labels, q);
    lemma_scored_within(order, labels, q);
    lemma_sort_desc(sc);
    let sd = sort_desc(sc);
    assert forall|k: int| 0 <= k < ranked(order, labels, q).len() implies order.contains(
        #[trigger] ranked(order, labels, q)[k],
    ) by {
        assert(sd.to_multiset().count(sd[k]) > 0);
        assert(sc.to_multiset().count(sd[k]) > 0);
        assert(sc.contains(sd[k]));
    }
}

proof fn lemma_scored_within(order: Seq<usize>, labels: Seq<Seq<char>>, q: Seq<char>)
    ensures
        forall|k: int| 0 <= k < scored(order, labels, q).len() ==> order.contains(
            (#[trigger] scored(order, labels, q)[k]).0,
        ),
    decreases order.len(),
{
    if order.len() > 0 {
        let d = order.drop_last();
        lemma_scored_within(d, labels, q);
        let sc = scored(order, labels, q);
        assert forall|k: int| 0 <= k < sc.len() implies order.contains((#[trigger] sc[k]).0) by {
            let sd = scored(d, labels, q);
            if k < sd.len() {
                assert(sc[k] == sd[k]);
                let j = choose|j: int| 0 <= j < d.len() && d[j] == sd[k].0;
                assert(order[j] == d[j]);
            } else {
                assert(order[order.len() - 1] == order.last());
            }
        }
    }
}

fn registry_at(i: usize) -> (r: PaletteCmd)
    requires
        i < 13,
    ensures
        r == registry()[i as int],
{
    PALETTE_CMDS[i]
}


/// Flipping a boolean pref twice gives every pref back.
pub proof fn lemma_toggle_twice(o: Prefs, n: Prefs, m: Prefs, cmd: PaletteCmd)
    requires
        cmd is SaveOnIdle || cmd is FormatOnSave || cmd is LineNumbers || cmd is OpenLastOnBoot,
        pref_cycled(o, n, cmd),
        pref_cycled(n, m, cmd),
    ensures
        m.save_on_idle == o.save_on_idle,
        m.format_on_save == o.format_on_save,
        m.line_numbers == o.line_numbers,
        m.open_last_on_boot == o.open_last_on_boot,
        m.scroll_margin == o.scroll_margin,
        m.theme@ == o.theme@,
        m.auto_sync@ == o.auto_sync@,
        m.fast_partial == o.fast_partial,
        m.timezone@ == o.timezone@,
{
}

proof fn lemma_position_in_range(options: Seq<&str>, current: Seq<char>)
    ensures
        position_of(options, current) matches Some(i) ==> i < options.len(),
    decreases options.len(),
{
    if options.len() > 0 && options[0]@ != current {
        lemma_position_in_range(options.drop_first(), current);
    }
}

proof fn lemma_count_position_in_range(options: Seq<usize>, current: usize)
    ensures
        count_position_of(options, current) matches Some(i) ==> i < options.len(),
    decreases options.len(),
{
    if options.len() > 0 && options[0] != current {
        lemma_count_position_in_range(options.drop_first(), current);
    }
}

/// One Enter on a preset pref always lands on one of its presets, whatever
/// the pref held before (an unknown hand-typed value snaps to the first).
pub proof fn lemma_presets_land_on_options(o: Prefs, n: Prefs, cmd: PaletteCmd)
    requires
        pref_cycled(o, n, cmd),
    ensures
        cmd is Theme ==> exists|i: int| 0 <= i < 2 && n.theme@ == THEME_OPTIONS@[i]@,
        cmd is AutoSync ==> exists|i: int| 0 <= i < 5 && n.auto_sync@ == AUTO_SYNC_OPTIONS@[i]@,
        cmd is ScrollMargin ==> exists|i: int| 0 <= i < 4 && n.scroll_margin
            == SCROLL_MARGIN_OPTIONS@[i],
{
    lemma_position_in_range(THEME_OPTIONS@, o.theme@);
    lemma_position_in_range(AUTO_SYNC_OPTIONS@, o.auto_sync@);
    lemma_count_position_in_range(SCROLL_MARGIN_OPTIONS@, o.scroll_margin);
    if cmd is Theme {
        match position_of(THEME_OPTIONS@, o.theme@) {
            Some(i) => {
                let k = ((i + 1) % 2) as int;
                assert(0 <= k < 2 && n.theme@ == THEME_OPTIONS@[k]@);
            },
            None => {
                assert(n.theme@ == THEME_OPTIONS@[0]@);
            },
        }
    }
    if cmd is AutoSync {
        match position_of(AUTO_SYNC_OPTIONS@, o.auto_sync@) {
            Some(i) => {
                let k = ((i + 1) % 5) as int;
                assert(0 <= k < 5 && n.auto_sync@ == AUTO_SYNC_OPTIONS@[k]@);
            },
            None => {
                assert(n.auto_sync@ == AUTO_SYNC_OPTIONS@[0]@);
            },
        }
    }
    if cmd is ScrollMargin {
        match count_position_of(SCROLL_MARGIN_OPTIONS@, o.scroll_margin) {
            Some(i) => {
                let k = ((i + 1) % 4) as int;
                assert(0 <= k < 4 && n.scroll_margin == SCROLL_MARGIN_OPTIONS@[k]);
            },
            None => {
                assert(n.scroll_margin == SCROLL_MARGIN_OPTIONS@[0]);
            },
        }
    }
}


/// The rows the palette list shows: with `len` results and room for
/// `visible` rows, the selection (clamped to the last result) and the first
/// row shown, scrolled just enough to keep the selection on screen.
pub fn list_window(sel: usize, len: usize, visible: usize) -> (r: (usize, usize))
    requires
        len > 0,
        visible > 0,
    ensures
        r.0 == (if sel < len {
            sel
        } else {
            (len - 1) as usize
        }),
        r.1 == (if r.0 >= visible {
            (r.0 - visible + 1) as usize
        } else {
            0
        }),
        r.1 <= r.0 < r.1 + visible,
        r.0 < len,
{
    let s = if sel < len {
        sel
    } else {
        len - 1
    };
    let start = if s >= visible {
        s - visible + 1
    } else {
        0
    };
    (s, start)
}

/// The line an empty result list shows.
pub open spec fn empty_list_line(q: Seq<char>, no_snippets: bool, no_files: bool) -> Seq<char> {
    if sigil_mode(q, '$') {
        if no_snippets {
            "(no snippets)"@
        } else {
            "(no match)"@
        }
    } else if sigil_mode(q, '>') {
        "(no command)"@
    } else if no_files {
        "(no files on card)"@
    } else if q.len() < PALETTE_MIN_QUERY {
        "(type to search)"@
    } else {
        "(no match)"@
    }
}

/// What the palette says when its list is empty, by mode: no snippets or
/// no match in `$` mode, no command in `>` mode, no files on the card, a
/// query still below the search threshold, or no match.
pub fn empty_list_message(query: &str, no_snippets: bool, no_files: bool) -> (r: &'static str)
    ensures
        r@ == empty_list_line(query@, no_snippets, no_files),
{
    if palette_snippet_mode(query) {
        if no_snippets {
            "(no snippets)"
        } else {
            "(no match)"
        }
    } else if palette_command_mode(query) {
        "(no command)"
    } else if no_files {
        "(no files on card)"
    } else if query.unicode_len() < PALETTE_MIN_QUERY {
        "(type to search)"
    } else {
        "(no match)"
    }
}

} // verus!
