//! Path resolution between the repo and local scopes, and the relative
//! markdown-link paths that travel between files.

use vstd::prelude::*;
use crate::text;
use crate::palette;
use vstd::string::StringSliceAdditionalSpecFns;

verus! {

broadcast use vstd::string::group_string_axioms;

/// Which of the two file scopes a buffer belongs to. **Repo** (tracked) files live
/// under [`REPO_DIR`] and can be pushed; **Local** files live under
/// [`LOCAL_DIR`] and never leave the device.
#[derive(Debug, Clone, Copy, PartialEq, Eq, Structural)]
pub enum Scope {
    Repo,
    Local,
}

/// Tracked files live here (the git working copy).
pub const REPO_DIR: &'static str = "/sd/repo";

/// Local files live here (never pushed).
pub const LOCAL_DIR: &'static str = "/sd/local";

// ---------------------------------------------------------------------------
// The words paths are made of
// ---------------------------------------------------------------------------

pub open spec fn slash() -> Seq<char> {
    seq!['/']
}

pub open spec fn sd_seg() -> Seq<char> {
    seq!['s', 'd']
}

pub open spec fn repo_seg() -> Seq<char> {
    seq!['r', 'e', 'p', 'o']
}

pub open spec fn local_seg() -> Seq<char> {
    seq!['l', 'o', 'c', 'a', 'l']
}

pub open spec fn dot() -> Seq<char> {
    seq!['.']
}

pub open spec fn dotdot() -> Seq<char> {
    seq!['.', '.']
}

/// `/sd/repo`.
pub open spec fn repo_dir() -> Seq<char> {
    slash() + sd_seg() + slash() + repo_seg()
}

/// `/sd/local`.
pub open spec fn local_dir() -> Seq<char> {
    slash() + sd_seg() + slash() + local_seg()
}

/// The directory a scope's files live in.
pub open spec fn scope_dir(s: Scope) -> Seq<char> {
    match s {
        Scope::Repo => repo_dir(),
        Scope::Local => local_dir(),
    }
}

// ---------------------------------------------------------------------------
// resolve_path
// ---------------------------------------------------------------------------

/// An argument with an optional `/sd/` (or else an optional `/`) peeled off.
pub open spec fn scope_relative(arg: Seq<char>) -> Seq<char> {
    if text::starts_with(arg, palette::sd_root()) {
        arg.skip(4)
    } else if text::starts_with(arg, slash()) {
        arg.skip(1)
    } else {
        arg
    }
}

/// Where a `:e` argument lands: a leading `local/` or `repo/` picks the scope,
/// anything else joins the current scope's directory.
pub open spec fn resolved(arg: Seq<char>, current: Scope) -> (Seq<char>, Scope) {
    let rel = scope_relative(arg);
    if text::starts_with(rel, local_seg() + slash()) {
        (local_dir() + slash() + rel.skip(6), Scope::Local)
    } else if text::starts_with(rel, repo_seg() + slash()) {
        (repo_dir() + slash() + rel.skip(5), Scope::Repo)
    } else {
        (scope_dir(current) + slash() + rel, current)
    }
}

proof fn lemma_literals()
    ensures
        "/"@ == slash(),
        "/sd/"@ == palette::sd_root(),
        "local/"@ == local_seg() + slash(),
        "repo/"@ == repo_seg() + slash(),
        REPO_DIR@ == repo_dir(),
        LOCAL_DIR@ == local_dir(),
        "../"@ == dotdot() + slash(),
{
    reveal_strlit("/");
    reveal_strlit("/sd/");
    reveal_strlit("local/");
    reveal_strlit("repo/");
    reveal_strlit("/sd/repo");
    reveal_strlit("/sd/local");
    reveal_strlit("../");
    assert("/"@ =~= slash());
    assert("/sd/"@ =~= palette::sd_root());
    assert("local/"@ =~= local_seg() + slash());
    assert("repo/"@ =~= repo_seg() + slash());
    assert(REPO_DIR@ =~= repo_dir());
    assert(LOCAL_DIR@ =~= local_dir());
    assert("../"@ =~= dotdot() + slash());
}

/// Resolve a `:e`/`:enew` argument (or palette pick) to an absolute path and
/// [`Scope`]. The `/sd` prefix is optional: `/sd/repo/x`, `/repo/x` and
/// `repo/x` all name the same file. A leading `local/` or `repo/` segment
/// selects the scope; otherwise a bare name joins the **current** scope's
/// directory.
pub fn resolve_path(arg: &str, current: Scope) -> (r: (String, Scope))
    ensures
        r.0@ == resolved(arg@, current).0,
        r.1 == resolved(arg@, current).1,
{
    proof {
        lemma_literals();
    }
    let v = text::chars_of(arg);
    let rel = if text::starts_with_str(&v, "/sd/") {
        text::slice_of(&v, 4, v.len())
    } else if text::starts_with_str(&v, "/") {
        text::slice_of(&v, 1, v.len())
    } else {
        text::slice_of(&v, 0, v.len())
    };
    assert(rel@ == scope_relative(arg@));
    let mut out: Vec<char> = Vec::new();
    if text::starts_with_str(&rel, "local/") {
        text::extend_str(&mut out, LOCAL_DIR);
        out.push('/');
        let name = text::slice_of(&rel, 6, rel.len());
        text::extend(&mut out, &name);
        assert(out@ =~= local_dir() + slash() + rel@.skip(6));
        (text::string_of(&out), Scope::Local)
    } else if text::starts_with_str(&rel, "repo/") {
        text::extend_str(&mut out, REPO_DIR);
        out.push('/');
        let name = text::slice_of(&rel, 5, rel.len());
        text::extend(&mut out, &name);
        assert(out@ =~= repo_dir() + slash() + rel@.skip(5));
        (text::string_of(&out), Scope::Repo)
    } else {
        let dir = match current {
            Scope::Repo => REPO_DIR,
            Scope::Local => LOCAL_DIR,
        };
        text::extend_str(&mut out, dir);
        out.push('/');
        text::extend(&mut out, &rel);
        assert(out@ =~= scope_dir(current) + slash() + rel@);
        (text::string_of(&out), current)
    }
}

// ---------------------------------------------------------------------------
// Segments
// ---------------------------------------------------------------------------

/// `ls` without its empty pieces.
pub open spec fn drop_empty(ls: Seq<Seq<char>>) -> Seq<Seq<char>>
    decreases ls.len(),
{
    if ls.len() == 0 {
        Seq::empty()
    } else if ls.last().len() == 0 {
        drop_empty(ls.drop_last())
    } else {
        drop_empty(ls.drop_last()).push(ls.last())
    }
}

/// The non-empty `/`-separated segments of `s`.
pub open spec fn segments(s: Seq<char>) -> Seq<Seq<char>> {
    drop_empty(text::split(s, '/'))
}

/// The non-empty `/`-separated segments of `v`.
fn segments_exec(v: &[char]) -> (r: Vec<Vec<char>>)
    ensures
        text::views(r@) == segments(v@),
{
    let pieces = text::split_exec(v, '/');
    let mut r: Vec<Vec<char>> = Vec::new();
    let mut i: usize = 0;
    while i < pieces.len()
        invariant
            i <= pieces.len(),
            text::views(r@) == drop_empty(text::views(pieces@).take(i as int)),
        decreases pieces.len() - i,
    {
        let ghost pre = text::views(pieces@).take(i as int);
        let p = &pieces[i];
        let ghost old_r = text::views(r@);
        if p.len() > 0 {
            let q = text::slice_of(p.as_slice(), 0, p.len());
            assert(q@ == p@);
            r.push(q);
            assert(text::views(r@) =~= old_r.push(p@));
        }
        i += 1;
        assert(text::views(pieces@).take(i as int).drop_last() =~= pre);
    }
    assert(text::views(pieces@).take(pieces.len() as int) =~= text::views(pieces@));
    r
}

/// The directory part of `from`: everything before its last `/` (empty when
/// there is none).
pub open spec fn dir_part(from: Seq<char>) -> Seq<char> {
    match text::rfind(from, '/') {
        Some(i) => from.take(i as int),
        None => Seq::empty(),
    }
}

// ---------------------------------------------------------------------------
// relative_link_path
// ---------------------------------------------------------------------------

/// The number of leading directory segments `f` shares with `t`, counted from
/// `k`; the last segment of `t` is the file name and never counts.
pub open spec fn common_len(f: Seq<Seq<char>>, t: Seq<Seq<char>>, k: nat) -> nat
    decreases f.len() - k,
{
    if k < f.len() && k + 1 < t.len() && f[k as int] == t[k as int] {
        common_len(f, t, k + 1)
    } else {
        k
    }
}

/// `../` written `n` times.
pub open spec fn up_dirs(n: nat) -> Seq<char>
    decreases n,
{
    if n == 0 {
        Seq::empty()
    } else {
        dotdot() + slash() + up_dirs((n - 1) as nat)
    }
}

/// The markdown-link path from the file `from` to the file `to`.
pub open spec fn rel_link(from: Seq<char>, to: Seq<char>) -> Seq<char> {
    if from.len() == 0 {
        palette::label_of(to)
    } else {
        let fs = segments(dir_part(from));
        let ts = segments(to);
        let k = common_len(fs, ts, 0);
        up_dirs((fs.len() - k) as nat) + text::join_sep(ts.skip(k as int), slash())
    }
}

/// The markdown-link path from `from` (the file the link lives in) to `to`,
/// both absolute card paths: drop their common directory prefix, then one `..`
/// per remaining `from` directory. From an unnamed scratch (no home to be
/// relative to) the palette label (`repo/…`) is the best available guess.
pub fn relative_link_path(from: &str, to: &str) -> (r: String)
    ensures
        r@ == rel_link(from@, to@),
{
    if from.is_empty() {
        let label = palette::palette_label(to);
        return label.to_owned();
    }
    proof {
        lemma_literals();
    }
    let fv = text::chars_of(from);
    let dir = match text::rfind_char(&fv, '/') {
        Some(i) => {
            proof {
                text::lemma_rfind(fv@, '/');
            }
            text::slice_of(&fv, 0, i)
        },
        None => Vec::new(),
    };
    assert(dir@ == dir_part(from@));
    let fs = segments_exec(&dir);
    let tv = text::chars_of(to);
    let ts = segments_exec(&tv);
    let ghost f = text::views(fs@);
    let ghost t = text::views(ts@);
    let mut common: usize = 0;
    while common < fs.len() && common + 1 < ts.len() && text::chars_eq(
        fs[common].as_slice(),
        ts[common].as_slice(),
    )
        invariant
            f == text::views(fs@),
            t == text::views(ts@),
            common <= fs.len(),
            common <= ts.len(),
            common_len(f, t, 0) == common_len(f, t, common as nat),
        decreases fs.len() - common,
    {
        common += 1;
    }
    let mut out: Vec<char> = Vec::new();
    let ups = fs.len() - common;
    let mut n: usize = 0;
    while n < ups
        invariant
            n <= ups,
            out@ == up_dirs(n as nat),
            "../"@ == dotdot() + slash(),
        decreases ups - n,
    {
        proof {
            lemma_up_dirs_push(n as nat);
        }
        text::extend_str(&mut out, "../");
        n += 1;
    }
    let mut rest: Vec<Vec<char>> = Vec::new();
    let mut j: usize = common;
    while j < ts.len()
        invariant
            common <= j <= ts.len(),
            t == text::views(ts@),
            text::views(rest@) == t.subrange(common as int, j as int),
        decreases ts.len() - j,
    {
        let q = text::slice_of(ts[j].as_slice(), 0, ts[j].len());
        assert(q@ =~= t[j as int]);
        let ghost old_rest = text::views(rest@);
        rest.push(q);
        assert(text::views(rest@) =~= old_rest.push(t[j as int]));
        assert(t.subrange(common as int, j + 1) =~= t.subrange(common as int, j as int).push(
            t[j as int],
        ));
        j += 1;
    }
    assert(t.subrange(common as int, ts.len() as int) =~= t.skip(common as int));
    let sep = vec!['/'];
    assert(sep@ =~= slash());
    let tail = text::join_exec(&rest, sep.as_slice());
    text::extend(&mut out, &tail);
    text::string_of(&out)
}

proof fn lemma_up_dirs_push(n: nat)
    ensures
        up_dirs(n + 1) == up_dirs(n) + dotdot() + slash(),
    decreases n,
{
    if n > 0 {
        lemma_up_dirs_push((n - 1) as nat);
        assert(up_dirs(n + 1) =~= dotdot() + slash() + up_dirs(n));
        assert(up_dirs(n) =~= dotdot() + slash() + up_dirs((n - 1) as nat));
    } else {
        assert(up_dirs(1) =~= dotdot() + slash() + up_dirs(0));
        assert(up_dirs(0) =~= Seq::<char>::empty());
    }
}

// ---------------------------------------------------------------------------
// resolve_link_target
// ---------------------------------------------------------------------------

/// Walk the pieces of a relative path from the directory segments `segs`:
/// empty pieces and `.` stay put, `..` climbs (failing above the root), any
/// other piece descends.
pub open spec fn walk(segs: Seq<Seq<char>>, ps: Seq<Seq<char>>) -> Option<Seq<Seq<char>>>
    decreases ps.len(),
{
    if ps.len() == 0 {
        Some(segs)
    } else {
        let p = ps[0];
        if p.len() == 0 || p == dot() {
            walk(segs, ps.drop_first())
        } else if p == dotdot() {
            if segs.len() == 0 {
                None
            } else {
                walk(segs.drop_last(), ps.drop_first())
            }
        } else {
            walk(segs.push(p), ps.drop_first())
        }
    }
}

/// The absolute path `/seg/seg/…` of a list of segments.
pub open spec fn card_path(ss: Seq<Seq<char>>) -> Seq<char> {
    slash() + text::join_sep(ss, slash())
}

/// The scope an absolute path lies in: under `/sd/repo/` or `/sd/local/`.
pub open spec fn scope_of_path(path: Seq<char>) -> Option<Scope> {
    if text::starts_with(path, repo_dir() + slash()) {
        Some(Scope::Repo)
    } else if text::starts_with(path, local_dir() + slash()) {
        Some(Scope::Local)
    } else {
        None
    }
}

/// The path and scope a finished walk names, if it lands in a scope.
pub open spec fn walked_target(w: Option<Seq<Seq<char>>>) -> Option<(Seq<char>, Scope)> {
    match w {
        None => None,
        Some(ss) => match scope_of_path(card_path(ss)) {
            Some(sc) => Some((card_path(ss), sc)),
            None => None,
        },
    }
}

/// Where the link target `rel`, written in the file `from`, leads.
pub open spec fn link_target(from: Seq<char>, current: Scope, rel: Seq<char>) -> Option<
    (Seq<char>, Scope),
> {
    if from.len() == 0 || text::starts_with(rel, slash()) || text::starts_with(
        rel,
        local_seg() + slash(),
    ) || text::starts_with(rel, repo_seg() + slash()) {
        Some(resolved(rel, current))
    } else {
        match text::rfind(from, '/') {
            None => None,
            Some(i) => walked_target(walk(segments(from.take(i as int)), text::split(rel, '/'))),
        }
    }
}

/// Resolve a markdown-link target `rel` written in `from` (an absolute card
/// path) back to an absolute path and its scope. Label and absolute forms
/// (`repo/…`, `local/…`, `/…`) go through [`resolve_path`]; everything else
/// joins onto `from`'s directory with `.`/`..` normalization. `None` when the
/// result climbs out of the card or lands outside both scopes.
pub fn resolve_link_target(from: &str, current: Scope, rel: &str) -> (r: Option<(String, Scope)>)
    ensures
        r is None <==> link_target(from@, current, rel@) is None,
        r matches Some((p, sc)) ==> link_target(from@, current, rel@) == Some((p@, sc)),
{
    proof {
        lemma_literals();
    }
    let rv = text::chars_of(rel);
    if from.is_empty() || text::starts_with_str(&rv, "/") || text::starts_with_str(&rv, "local/")
        || text::starts_with_str(&rv, "repo/") {
        let (p, sc) = resolve_path(rel, current);
        return Some((p, sc));
    }
    let fv = text::chars_of(from);
    let i = match text::rfind_char(&fv, '/') {
        Some(i) => i,
        None => {
            return None;
        },
    };
    proof {
        text::lemma_rfind(fv@, '/');
    }
    let dir = text::slice_of(&fv, 0, i);
    assert(dir@ =~= from@.take(i as int));
    let mut segs = segments_exec(&dir);
    let pieces = text::split_exec(&rv, '/');
    let ghost ps = text::views(pieces@);
    let ghost start = text::views(segs@);
    let mut k: usize = 0;
    assert(ps.skip(0) =~= ps);
    while k < pieces.len()
        invariant
            k <= pieces.len(),
            ps == text::views(pieces@),
            walk(start, ps) == walk(text::views(segs@), ps.skip(k as int)),
            link_target(from@, current, rel@) == walked_target(walk(start, ps)),
        decreases pieces.len() - k,
    {
        let p = &pieces[k];
        let ghost cur = text::views(segs@);
        assert(ps.skip(k as int).drop_first() =~= ps.skip(k + 1));
        assert(ps.skip(k as int)[0] == p@);
        if p.len() == 0 || (p.len() == 1 && p[0] == '.') {
            assert(p.len() == 1 ==> p@ =~= dot());
        } else if p.len() == 2 && p[0] == '.' && p[1] == '.' {
            assert(p@ =~= dotdot());
            if segs.len() == 0 {
                return None;
            }
            segs.pop();
            assert(text::views(segs@) =~= cur.drop_last());
        } else {
            assert(p@ != dot());
            assert(p@ != dotdot());
            let q = text::slice_of(p.as_slice(), 0, p.len());
            assert(q@ =~= p@);
            segs.push(q);
            assert(text::views(segs@) =~= cur.push(p@));
        }
        k += 1;
    }
    assert(ps.skip(pieces.len() as int) =~= Seq::<Seq<char>>::empty());
    let sep = vec!['/'];
    assert(sep@ =~= slash());
    let joined = text::join_exec(&segs, sep.as_slice());
    let mut path: Vec<char> = vec!['/'];
    text::extend(&mut path, &joined);
    assert(path@ =~= card_path(text::views(segs@)));
    if text::starts_with_str(&path, "/sd/repo/") {
        proof {
            reveal_strlit("/sd/repo/");
            assert("/sd/repo/"@ =~= repo_dir() + slash());
        }
        Some((text::string_of(&path), Scope::Repo))
    } else if text::starts_with_str(&path, "/sd/local/") {
        proof {
            reveal_strlit("/sd/repo/");
            reveal_strlit("/sd/local/");
            assert("/sd/repo/"@ =~= repo_dir() + slash());
            assert("/sd/local/"@ =~= local_dir() + slash());
        }
        Some((text::string_of(&path), Scope::Local))
    } else {
        proof {
            reveal_strlit("/sd/repo/");
            reveal_strlit("/sd/local/");
            assert("/sd/repo/"@ =~= repo_dir() + slash());
            assert("/sd/local/"@ =~= local_dir() + slash());
        }
        None
    }
}

// ---------------------------------------------------------------------------
// A link written by relative_link_path leads back to its file
// ---------------------------------------------------------------------------

/// A segment a card path can hold: non-empty, no `/`, not `.` or `..`.
pub open spec fn plain_segment(p: Seq<char>) -> bool {
    p.len() > 0 && !p.contains('/') && p != dot() && p != dotdot()
}

/// The segments of a file on the card: `/sd/<repo|local>/…`, every segment
/// plain, and no `repo`/`local` directory inside a scope (scopes are flat).
pub open spec fn card_segments(ts: Seq<Seq<char>>) -> bool {
    &&& ts.len() >= 3
    &&& ts[0] == sd_seg()
    &&& (ts[1] == repo_seg() || ts[1] == local_seg())
    &&& forall|i: int| 0 <= i < ts.len() ==> plain_segment(#[trigger] ts[i])
    &&& forall|i: int|
        2 <= i < ts.len() ==> #[trigger] ts[i] != repo_seg() && ts[i] != local_seg()
}

/// The scope named by the second segment of a card path.
pub open spec fn segments_scope(ts: Seq<Seq<char>>) -> Scope {
    if ts[1] == repo_seg() {
        Scope::Repo
    } else {
        Scope::Local
    }
}

/// `n` copies of the `..` segment.
pub open spec fn dots(n: nat) -> Seq<Seq<char>> {
    Seq::new(n, |i: int| dotdot())
}

proof fn lemma_drop_empty_concat(x: Seq<Seq<char>>, y: Seq<Seq<char>>)
    ensures
        drop_empty(x + y) == drop_empty(x) + drop_empty(y),
    decreases y.len(),
{
    if y.len() == 0 {
        assert(x + y =~= x);
        assert(drop_empty(x) + drop_empty(y) =~= drop_empty(x));
    } else {
        lemma_drop_empty_concat(x, y.drop_last());
        assert((x + y).drop_last() =~= x + y.drop_last());
        assert((x + y).last() == y.last());
        if y.last().len() > 0 {
            assert(drop_empty(x) + drop_empty(y.drop_last()).push(y.last()) =~= (drop_empty(x)
                + drop_empty(y.drop_last())).push(y.last()));
        }
    }
}

proof fn lemma_drop_empty_plain(ls: Seq<Seq<char>>)
    requires
        forall|i: int| 0 <= i < ls.len() ==> (#[trigger] ls[i]).len() > 0,
    ensures
        drop_empty(ls) == ls,
    decreases ls.len(),
{
    if ls.len() > 0 {
        let d = ls.drop_last();
        assert forall|i: int| 0 <= i < d.len() implies (#[trigger] d[i]).len() > 0 by {
            assert(d[i] == ls[i]);
        }
        lemma_drop_empty_plain(d);
        assert(ls.last().len() > 0);
        assert(d.push(ls.last()) =~= ls);
    }
}

proof fn lemma_no_slash(p: Seq<char>)
    requires
        forall|j: int| 0 <= j < p.len() ==> p[j] != '/',
    ensures
        !p.contains('/'),
{
}

/// The segments of `/a/b/c` are `a`, `b`, `c`.
proof fn lemma_segments_card_path(ts: Seq<Seq<char>>)
    requires
        ts.len() >= 1,
        forall|i: int| 0 <= i < ts.len() ==> plain_segment(#[trigger] ts[i]),
    ensures
        text::split(card_path(ts), '/') == seq![Seq::<char>::empty()] + ts,
        segments(card_path(ts)) == ts,
{
    assert forall|i: int| 0 <= i < ts.len() implies !(#[trigger] ts[i]).contains('/') by {
        assert(plain_segment(ts[i]));
    }
    text::lemma_split_join(ts, '/');
    let e = Seq::<char>::empty();
    assert(card_path(ts) =~= e + seq!['/'] + text::join_sep(ts, seq!['/']));
    text::lemma_split_cons(e, '/', text::join_sep(ts, seq!['/']));
    lemma_drop_empty_concat(seq![e], ts);
    assert(drop_empty(seq![e]) =~= Seq::<Seq<char>>::empty()) by {
        let z = Seq::<Seq<char>>::empty();
        assert(seq![e].drop_last() =~= z);
        assert(seq![e].last() == e);
        assert(drop_empty(z) == z);
        assert(drop_empty(seq![e]) == drop_empty(z));
    }
    assert forall|i: int| 0 <= i < ts.len() implies (#[trigger] ts[i]).len() > 0 by {
        assert(plain_segment(ts[i]));
    }
    lemma_drop_empty_plain(ts);
    assert(Seq::<Seq<char>>::empty() + ts =~= ts);
}

proof fn lemma_common_len(f: Seq<Seq<char>>, t: Seq<Seq<char>>, k: nat)
    requires
        k <= f.len(),
        forall|i: int| 0 <= i < k ==> f[i] == t[i],
    ensures
        k <= common_len(f, t, k) <= f.len(),
        common_len(f, t, k) == k || common_len(f, t, k) < t.len(),
        forall|i: int| 0 <= i < common_len(f, t, k) ==> f[i] == t[i],
    decreases f.len() - k,
{
    if k < f.len() && k + 1 < t.len() && f[k as int] == t[k as int] {
        lemma_common_len(f, t, k + 1);
    }
}

proof fn lemma_split_up_dirs(n: nat, x: Seq<char>)
    ensures
        text::split(up_dirs(n) + x, '/') == dots(n) + text::split(x, '/'),
    decreases n,
{
    if n == 0 {
        assert(up_dirs(0) + x =~= x);
        assert(dots(0) + text::split(x, '/') =~= text::split(x, '/'));
    } else {
        lemma_split_up_dirs((n - 1) as nat, x);
        assert(up_dirs(n) + x =~= dotdot() + seq!['/'] + (up_dirs((n - 1) as nat) + x));
        lemma_no_slash(dotdot());
        text::lemma_split_cons(dotdot(), '/', up_dirs((n - 1) as nat) + x);
        assert(seq![dotdot()] + dots((n - 1) as nat) =~= dots(n));
        assert(seq![dotdot()] + (dots((n - 1) as nat) + text::split(x, '/')) =~= dots(n)
            + text::split(x, '/'));
    }
}

proof fn lemma_walk_dots(segs: Seq<Seq<char>>, n: nat, rest: Seq<Seq<char>>)
    requires
        n <= segs.len(),
    ensures
        walk(segs, dots(n) + rest) == walk(segs.take(segs.len() - n), rest),
    decreases n,
{
    if n == 0 {
        assert(dots(0) + rest =~= rest);
        assert(segs.take(segs.len() as int) =~= segs);
    } else {
        let ps = dots(n) + rest;
        assert(ps[0] == dotdot());
        assert(dotdot() != dot());
        assert(dotdot().len() != 0);
        assert(ps.drop_first() =~= dots((n - 1) as nat) + rest);
        lemma_walk_dots(segs.drop_last(), (n - 1) as nat, rest);
        assert(segs.drop_last().take(segs.drop_last().len() - (n - 1)) =~= segs.take(
            segs.len() - n,
        ));
    }
}

proof fn lemma_walk_plain(segs: Seq<Seq<char>>, ps: Seq<Seq<char>>)
    requires
        forall|i: int| 0 <= i < ps.len() ==> plain_segment(#[trigger] ps[i]),
    ensures
        walk(segs, ps) == Some(segs + ps),
    decreases ps.len(),
{
    if ps.len() == 0 {
        assert(segs + ps =~= segs);
    } else {
        let t = ps.drop_first();
        assert forall|i: int| 0 <= i < t.len() implies plain_segment(#[trigger] t[i]) by {
            assert(t[i] == ps[i + 1]);
        }
        assert(plain_segment(ps[0]));
        lemma_walk_plain(segs.push(ps[0]), t);
        assert(segs.push(ps[0]) + t =~= segs + ps);
    }
}

/// `join(ts)` is `ts[0]`, then `/`, then the join of the rest.
proof fn lemma_join_front(ts: Seq<Seq<char>>)
    requires
        ts.len() >= 2,
    ensures
        text::join_sep(ts, slash()) == ts[0] + slash() + text::join_sep(ts.skip(1), slash()),
{
    text::lemma_join_sep_front(ts, slash());
    assert(ts.drop_first() =~= ts.skip(1));
}

/// A path beginning with a `/`-free piece `p` followed by `/` or nothing
/// starts with `w/` only when `p` is `w`.
proof fn lemma_first_piece(p: Seq<char>, tail: Seq<char>, w: Seq<char>)
    requires
        !p.contains('/'),
        !w.contains('/'),
        tail.len() == 0 || tail[0] == '/',
        text::starts_with(p + tail, w + slash()),
    ensures
        p == w,
{
    let s = p + tail;
    let k = w.len() as int;
    assert(s.take(k + 1) == w + slash());
    assert(s[k] == (w + slash())[k]);
    assert((w + slash())[k] == '/');
    if p.len() > k {
        assert(s[k] == p[k]);
        assert(p.contains('/'));
    } else if p.len() < k {
        let j = p.len() as int;
        assert(s[j] == tail[0]);
        assert(s[j] == (w + slash())[j]);
        assert(w[j] == '/');
        assert(w.contains('/'));
    }
    assert(p =~= s.take(k));
    assert(s.take(k) =~= (w + slash()).take(k));
    assert((w + slash()).take(k) =~= w);
}

/// Where `card_path(ts)` starts: `/sd/<ts[1]>/`.
proof fn lemma_card_path_shape(ts: Seq<Seq<char>>)
    requires
        ts.len() >= 3,
        ts[0] == sd_seg(),
    ensures
        card_path(ts) == slash() + sd_seg() + slash() + ts[1] + slash() + text::join_sep(
            ts.skip(2),
            slash(),
        ),
        palette::label_of(card_path(ts)) == ts[1] + slash() + text::join_sep(ts.skip(2), slash()),
{
    lemma_join_front(ts);
    lemma_join_front(ts.skip(1));
    assert(ts.skip(1)[0] == ts[1]);
    assert(ts.skip(1).skip(1) =~= ts.skip(2));
    let c = card_path(ts);
    let tail = ts[1] + slash() + text::join_sep(ts.skip(2), slash());
    assert(c =~= palette::sd_root() + tail);
    assert(c.take(4) =~= palette::sd_root());
    assert(c.skip(4) =~= tail);
}

/// Where a card path falls: its scope is the one its second segment names.
proof fn lemma_card_path_scope(ts: Seq<Seq<char>>)
    requires
        card_segments(ts),
    ensures
        scope_of_path(card_path(ts)) == Some(segments_scope(ts)),
{
    lemma_card_path_shape(ts);
    let c = card_path(ts);
    let j = text::join_sep(ts.skip(2), slash());
    if ts[1] == repo_seg() {
        assert(c =~= repo_dir() + slash() + j);
        assert(c.take(9) =~= repo_dir() + slash());
    } else {
        assert(c =~= local_dir() + slash() + j);
        assert(c.take(10) =~= local_dir() + slash());
        assert(c[4] == 'l');
        assert((repo_dir() + slash())[4] == 'r');
        assert(c.take(9)[4] == c[4]);
    }
}

/// The label form `repo/…` or `local/…` of a card path resolves back to it.
proof fn lemma_label_resolves(ts: Seq<Seq<char>>, current: Scope)
    requires
        card_segments(ts),
    ensures
        resolved(ts[1] + slash() + text::join_sep(ts.skip(2), slash()), current) == (
            card_path(ts),
            segments_scope(ts),
        ),
        text::starts_with(
            ts[1] + slash() + text::join_sep(ts.skip(2), slash()),
            ts[1] + slash(),
        ),
{
    lemma_card_path_shape(ts);
    let j = text::join_sep(ts.skip(2), slash());
    let rel = ts[1] + slash() + j;
    assert(rel.take(ts[1].len() as int + 1) =~= ts[1] + slash());
    assert(rel[0] == ts[1][0]);
    assert(palette::sd_root()[0] == '/');
    assert(slash()[0] == '/');
    assert(rel.take(4)[0] == rel[0]);
    assert(rel.take(1)[0] == rel[0]);
    assert(scope_relative(rel) == rel);
    if ts[1] == repo_seg() {
        assert((local_seg() + slash())[0] == 'l');
        assert(rel.take(6)[0] == rel[0]);
        assert(rel.skip(5) =~= j);
        assert(repo_dir() + slash() + j =~= card_path(ts));
    } else {
        assert(rel.skip(6) =~= j);
        assert(local_dir() + slash() + j =~= card_path(ts));
    }
}

/// A link written by [`relative_link_path`] from `from` to a file on the card
/// resolves, through [`resolve_link_target`], back to that file and its scope,
/// whatever the current scope.
pub proof fn lemma_link_round_trip(from: Seq<char>, current: Scope, ts: Seq<Seq<char>>)
    requires
        card_segments(ts),
        from.len() == 0 || from.contains('/'),
    ensures
        link_target(from, current, rel_link(from, card_path(ts))) == Some(
            (card_path(ts), segments_scope(ts)),
        ),
{
    let to = card_path(ts);
    lemma_card_path_shape(ts);
    lemma_card_path_scope(ts);
    lemma_segments_card_path(ts);
    let rel = rel_link(from, to);
    if from.len() == 0 {
        lemma_label_resolves(ts, current);
        return ;
    }
    text::lemma_rfind(from, '/');
    let i = text::rfind(from, '/')->0;
    let fs = segments(dir_part(from));
    assert(dir_part(from) == from.take(i as int));
    lemma_common_len(fs, ts, 0);
    let k = common_len(fs, ts, 0);
    let m = (fs.len() - k) as nat;
    let rest = ts.skip(k as int);
    assert(rest.len() >= 1);
    assert forall|x: int| 0 <= x < rest.len() implies plain_segment(#[trigger] rest[x]) by {
        assert(rest[x] == ts[k + x]);
    }
    assert forall|x: int| 0 <= x < rest.len() implies !(#[trigger] rest[x]).contains('/') by {
        assert(plain_segment(rest[x]));
    }
    let j = text::join_sep(rest, slash());
    assert(rel == up_dirs(m) + j);
    text::lemma_split_join(rest, '/');
    lemma_split_up_dirs(m, j);
    assert(fs.take(k as int) =~= ts.take(k as int));
    lemma_walk_dots(fs, m, rest);
    lemma_walk_plain(fs.take(k as int), rest);
    assert(ts.take(k as int) + rest =~= ts);
    // The walk from `from`'s directory ends on `ts`.
    assert(walk(fs, text::split(rel, '/')) == Some(ts));
    if m > 0 {
        assert(rel[0] == '.');
        assert(!text::starts_with(rel, slash())) by {
            if text::starts_with(rel, slash()) {
                assert(rel.take(1)[0] == rel[0]);
            }
        }
        assert(!text::starts_with(rel, local_seg() + slash())) by {
            if text::starts_with(rel, local_seg() + slash()) {
                assert(rel.take(6)[0] == rel[0]);
            }
        }
        assert(!text::starts_with(rel, repo_seg() + slash())) by {
            if text::starts_with(rel, repo_seg() + slash()) {
                assert(rel.take(5)[0] == rel[0]);
            }
        }
    } else {
        assert(up_dirs(0) + j =~= j);
        assert(rel == j);
        let tail = if rest.len() >= 2 {
            slash() + text::join_sep(rest.skip(1), slash())
        } else {
            Seq::empty()
        };
        if rest.len() >= 2 {
            lemma_join_front(rest);
        } else {
            assert(j == rest[0]);
            assert(rest[0] + tail =~= rest[0]);
        }
        assert(j == rest[0] + tail);
        assert(rest[0] == ts[k as int]);
        assert(plain_segment(ts[k as int]));
        assert(rel[0] == ts[k as int][0]);
        assert(rel.take(1)[0] == rel[0]);
        assert(!text::starts_with(rel, slash())) by {
            if text::starts_with(rel, slash()) {
                assert(ts[k as int].contains('/'));
            }
        }
        lemma_no_slash(local_seg());
        lemma_no_slash(repo_seg());
        if k == 1 {
            assert(fs.len() == 1);
            assert(rest.skip(1) =~= ts.skip(2));
            lemma_label_resolves(ts, current);
        } else {
            if text::starts_with(rel, local_seg() + slash()) {
                lemma_first_piece(ts[k as int], tail, local_seg());
                if k == 0 {
                    assert(ts[0][0] == 's');
                }
            }
            if text::starts_with(rel, repo_seg() + slash()) {
                lemma_first_piece(ts[k as int], tail, repo_seg());
                if k == 0 {
                    assert(ts[0][0] == 's');
                }
            }
        }
    }
}

// ---------------------------------------------------------------------------
// File-list spans
// ---------------------------------------------------------------------------

/// `s..e` is a byte range of `blob` that starts and ends on char boundaries.
pub open spec fn valid_span(blob: &str, s: int, e: int) -> bool {
    let b = blob.spec_bytes();
    &&& 0 <= s <= e <= b.len()
    &&& vstd::utf8::is_char_boundary(b, s)
    &&& vstd::utf8::is_char_boundary(b, e)
}

proof fn lemma_boundary_in_prefix(b: Seq<u8>, s: int, e: int)
    requires
        vstd::utf8::valid_utf8(b),
        0 <= s <= e <= b.len(),
        vstd::utf8::is_char_boundary(b, s),
        vstd::utf8::is_char_boundary(b, e),
    ensures
        vstd::utf8::valid_utf8(b.subrange(0, e)),
        vstd::utf8::is_char_boundary(b.subrange(0, e), s),
{
    let h = b.subrange(0, e);
    vstd::utf8::valid_utf8_split(b, e);
    vstd::utf8::is_char_boundary_start_end_of_seq(h);
    if s < e {
        vstd::utf8::is_char_boundary_iff_not_is_continuation_byte(b, s);
        vstd::utf8::is_char_boundary_iff_not_is_continuation_byte(h, s);
        assert(h[s] == b[s]);
    } else {
        assert(h.len() == s);
    }
}

/// A file-list span's slice of `blob`: the bytes `s..e` when they form a valid
/// `&str` slice, else the empty string (never a panic).
pub fn span_str(blob: &str, s: u32, e: u32) -> (r: &str)
    ensures
        valid_span(blob, s as int, e as int) ==> r.spec_bytes() == blob.spec_bytes().subrange(
            s as int,
            e as int,
        ),
        !valid_span(blob, s as int, e as int) ==> r@.len() == 0,
{
    let s = s as usize;
    let e = e as usize;
    if s <= e && e <= blob.as_bytes().len() && blob.is_char_boundary(s) && blob.is_char_boundary(e) {
        proof {
            vstd::utf8::encode_utf8_valid_utf8(blob@);
            lemma_boundary_in_prefix(blob.spec_bytes(), s as int, e as int);
        }
        let (head, _) = blob.split_at(e);
        let (_, mid) = head.split_at(s);
        assert(mid.spec_bytes() =~= blob.spec_bytes().subrange(s as int, e as int));
        mid
    } else {
        proof {
            reveal_strlit("");
        }
        assert(!valid_span(blob, s as int, e as int));
        ""
    }
}

// ---------------------------------------------------------------------------
// Recent files
// ---------------------------------------------------------------------------

/// Most recent files remembered, for the palette's empty-query order and
/// Ctrl+Tab.
pub const MRU_MAX: usize = 16;

/// The paths of `v`, as char sequences.
pub open spec fn paths(v: Seq<String>) -> Seq<Seq<char>> {
    Seq::new(v.len(), |i: int| v[i]@)
}

/// The predicate "is not `path`".
pub open spec fn not_path(path: Seq<char>) -> spec_fn(Seq<char>) -> bool {
    |p: Seq<char>| p != path
}

/// `recent` without the entries equal to `path`.
pub open spec fn without(recent: Seq<Seq<char>>, path: Seq<char>) -> Seq<Seq<char>> {
    recent.filter(not_path(path))
}

/// No entry of `s` occurs twice.
pub open spec fn distinct(s: Seq<Seq<char>>) -> bool {
    forall|i: int, j: int| 0 <= i < j < s.len() ==> #[trigger] s[i] != #[trigger] s[j]
}

/// The MRU after visiting `path`: it goes to the front, any earlier
/// occurrence is dropped, and the list is cut to [`MRU_MAX`].
pub open spec fn noted(recent: Seq<Seq<char>>, path: Seq<char>) -> Seq<Seq<char>> {
    let rest = without(recent, path);
    let all = seq![path] + rest;
    if all.len() <= MRU_MAX {
        all
    } else {
        all.take(MRU_MAX as int)
    }
}

fn copy_string(s: &str) -> (r: String)
    ensures
        r@ == s@,
{
    text::string_of(text::chars_of(s).as_slice())
}

fn str_eq(a: &str, b: &str) -> (r: bool)
    ensures
        r == (a@ == b@),
{
    text::chars_eq_str(text::chars_of(a).as_slice(), b)
}

/// Push `path` to the front of the recent-files list, dropping any earlier
/// occurrence, and keep at most [`MRU_MAX`] entries.
pub fn note_recent(recent: &Vec<String>, path: &str) -> (r: Vec<String>)
    ensures
        paths(r@) == noted(paths(recent@), path@),
{
    let ghost all = paths(recent@);
    let ghost pred = not_path(path@);
    let mut out: Vec<String> = Vec::new();
    out.push(copy_string(path));
    let mut i: usize = 0;
    proof {
        reveal(Seq::filter);
        assert(all.take(0).filter(pred) =~= Seq::<Seq<char>>::empty());
        assert(paths(out@) =~= seq![path@] + all.take(0).filter(pred));
    }
    while i < recent.len()
        invariant
            all == paths(recent@),
            pred == not_path(path@),
            i <= recent@.len(),
            paths(out@) == seq![path@] + all.take(i as int).filter(pred),
        decreases recent@.len() - i,
    {
        let keep = !str_eq(recent[i].as_str(), path);
        proof {
            reveal(Seq::filter);
            assert(all.take(i + 1).drop_last() =~= all.take(i as int));
            assert(all.take(i + 1).last() == recent@[i as int]@);
        }
        let ghost o = paths(out@);
        if keep {
            out.push(copy_string(recent[i].as_str()));
            assert(paths(out@) =~= o.push(recent@[i as int]@));
        }
        proof {
            let x = all.take(i + 1).last();
            assert(pred(x) == keep);
            assert(all.take(i + 1).filter(pred) == if pred(x) {
                all.take(i as int).filter(pred).push(x)
            } else {
                all.take(i as int).filter(pred)
            });
            assert(paths(out@) =~= seq![path@] + all.take(i + 1).filter(pred));
        }
        i += 1;
    }
    proof {
        assert(all.take(recent@.len() as int) =~= all);
    }
    if out.len() > MRU_MAX {
        out.truncate(MRU_MAX);
        proof {
            assert(paths(out@) =~= (seq![path@] + all.filter(pred)).take(MRU_MAX as int));
        }
    }
    out
}

/// The recent list leads with what was just visited, holds each path at most
/// once if it did before, and never grows past [`MRU_MAX`].
pub proof fn lemma_noted_mru(recent: Seq<Seq<char>>, path: Seq<char>)
    ensures
        noted(recent, path)[0] == path,
        noted(recent, path).len() <= MRU_MAX,
        noted(recent, path).len() >= 1,
        distinct(recent) ==> distinct(noted(recent, path)),
{
    let rest = without(recent, path);
    let all = seq![path] + rest;
    assert(all[0] == path);
    if distinct(recent) {
        lemma_filter_distinct(recent, path);
        let n = noted(recent, path);
        assert forall|i: int, j: int| 0 <= i < j < n.len() implies n[i] != n[j] by {
            assert(n[i] == all[i] && n[j] == all[j]);
            if i == 0 {
                assert(all[j] == rest[j - 1]);
            } else {
                assert(all[i] == rest[i - 1] && all[j] == rest[j - 1]);
            }
        }
    }
}

proof fn lemma_filter_distinct(recent: Seq<Seq<char>>, path: Seq<char>)
    requires
        distinct(recent),
    ensures
        distinct(without(recent, path)),
        forall|k: int| 0 <= k < without(recent, path).len() ==> #[trigger] without(recent, path)[k]
            != path,
    decreases recent.len(),
{
    reveal(Seq::filter);
    let pred = not_path(path);
    if recent.len() > 0 {
        let init = recent.drop_last();
        let last = recent.last();
        assert(distinct(init)) by {
            assert forall|i: int, j: int| 0 <= i < j < init.len() implies #[trigger] init[i]
                != #[trigger] init[j] by {
                assert(init[i] == recent[i] && init[j] == recent[j]);
            }
        }
        lemma_filter_distinct(init, path);
        let f = without(recent, path);
        let fi = without(init, path);
        if pred(last) {
            assert(f == fi.push(last));
            assert forall|i: int, j: int| 0 <= i < j < f.len() implies #[trigger] f[i]
                != #[trigger] f[j] by {
                if j == f.len() - 1 {
                    if fi[i] == last {
                        assert(fi.contains(last));
                        init.lemma_filter_contains_rev(pred, last);
                        let k = choose|k: int| 0 <= k < init.len() && init[k] == last;
                        assert(recent[k] == recent[recent.len() - 1]);
                    }
                } else {
                    assert(f[i] == fi[i] && f[j] == fi[j]);
                }
            }
            assert forall|k: int| 0 <= k < f.len() implies f[k] != path by {
                if k < fi.len() {
                    assert(f[k] == fi[k]);
                }
            }
        } else {
            assert(f == fi);
        }
    }
}

/// The first entry of `recent`, walking cyclically from `start` and trying
/// the `o`th step on, that names a file other than `current`.
pub open spec fn cycle_pick(recent: Seq<Seq<char>>, current: Seq<char>, start: int, o: int) -> Option<
    int,
>
    decreases recent.len() - o,
{
    if o < 0 || o >= recent.len() {
        None
    } else {
        let i = (start + o) % (recent.len() as int);
        if recent[i].len() > 0 && recent[i] != current {
            Some(i)
        } else {
            cycle_pick(recent, current, start, o + 1)
        }
    }
}

/// Ctrl+Tab: the next note of the recent list (in last-seen order) other
/// than the one on screen, continuing a walk from its last hop (`walk`) or
/// starting one from the top, wrapping. Gives the hop's index with the path
/// and scope to switch to; `None` when there is no other note.
pub fn cycle_recent(recent: &Vec<String>, current: &str, scope: Scope, walk: Option<usize>) -> (r:
    Option<(usize, String, Scope)>)
    requires
        walk matches Some(i) ==> i + recent@.len() < usize::MAX,
    ensures
        ({
            let start = match walk {
                Some(i) => i + 1,
                None => 0,
            };
            let pick = cycle_pick(paths(recent@), current@, start, 0);
            &&& r is None <==> pick is None
            &&& r matches Some((i, p, sc)) ==> i == pick.unwrap() && p@ == resolved(
                recent@[i as int]@,
                scope,
            ).0 && sc == resolved(recent@[i as int]@, scope).1
        }),
{
    let len = recent.len();
    let start = match walk {
        Some(i) => i + 1,
        None => 0,
    };
    let ghost ps = paths(recent@);
    let mut o: usize = 0;
    while o < len
        invariant
            len == recent@.len(),
            ps == paths(recent@),
            start + len <= usize::MAX,
            start as int == (match walk {
                Some(i) => i + 1,
                None => 0int,
            }),
            o <= len,
            cycle_pick(ps, current@, start as int, 0) == cycle_pick(
                ps,
                current@,
                start as int,
                o as int,
            ),
        decreases len - o,
    {
        let i = (start + o) % len;
        let p = recent[i].as_str();
        if !p.is_empty() && !str_eq(p, current) {
            let (path, sc) = resolve_path(p, scope);
            return Some((i, path, sc));
        }
        o += 1;
    }
    None
}

/// End a Ctrl+Tab walk: the note it landed on (`path`, the one on screen)
/// goes to the top of the recent list. Nothing changes when no walk is
/// running or the buffer is unnamed.
pub fn commit_recent_cycle(recent: &Vec<String>, walking: bool, path: &str) -> (r: Vec<String>)
    ensures
        paths(r@) == if walking && path@.len() > 0 {
            noted(paths(recent@), path@)
        } else {
            paths(recent@)
        },
{
    if walking && !path.is_empty() {
        return note_recent(recent, path);
    }
    let mut out: Vec<String> = Vec::new();
    let mut i: usize = 0;
    while i < recent.len()
        invariant
            i <= recent@.len(),
            paths(out@) == paths(recent@).take(i as int),
        decreases recent@.len() - i,
    {
        let ghost o = paths(out@);
        out.push(copy_string(recent[i].as_str()));
        proof {
            assert(paths(out@) =~= o.push(recent@[i as int]@));
            assert(paths(out@) =~= paths(recent@).take(i + 1));
        }
        i += 1;
    }
    proof {
        assert(paths(recent@).take(recent@.len() as int) =~= paths(recent@));
    }
    out
}

} // verus!
