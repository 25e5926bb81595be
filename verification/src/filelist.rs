//! The palette's file list: the card's paths, kept sorted (by bytes, as
//! `str` orders) and free of duplicates, whatever order the host walked them
//! in.

use vstd::prelude::*;
use vstd::utf8::encode_utf8;
use crate::buffers::{not_path, paths};
use crate::text;

verus! {

/// Byte-wise lexicographic order, the order of `str`'s `Ord`.
pub open spec fn lex_lt(a: Seq<u8>, b: Seq<u8>) -> bool
    decreases a.len(),
{
    if a.len() == 0 {
        b.len() > 0
    } else if b.len() == 0 {
        false
    } else if a[0] < b[0] {
        true
    } else if a[0] > b[0] {
        false
    } else {
        lex_lt(a.drop_first(), b.drop_first())
    }
}

pub proof fn lemma_lex_irreflexive(a: Seq<u8>)
    ensures
        !lex_lt(a, a),
    decreases a.len(),
{
    if a.len() > 0 {
        lemma_lex_irreflexive(a.drop_first());
    }
}

pub proof fn lemma_lex_transitive(a: Seq<u8>, b: Seq<u8>, c: Seq<u8>)
    requires
        lex_lt(a, b),
        lex_lt(b, c),
    ensures
        lex_lt(a, c),
    decreases a.len(),
{
    if a.len() > 0 && b.len() > 0 && c.len() > 0 && a[0] == b[0] && b[0] == c[0] {
        lemma_lex_transitive(a.drop_first(), b.drop_first(), c.drop_first());
    }
}

/// Two different byte strings are ordered one way or the other.
pub proof fn lemma_lex_total(a: Seq<u8>, b: Seq<u8>)
    requires
        a != b,
    ensures
        lex_lt(a, b) || lex_lt(b, a),
    decreases a.len(),
{
    if a.len() > 0 && b.len() > 0 && a[0] == b[0] {
        if a.drop_first() == b.drop_first() {
            assert(a =~= seq![a[0]] + a.drop_first());
            assert(b =~= seq![b[0]] + b.drop_first());
        }
        lemma_lex_total(a.drop_first(), b.drop_first());
    } else if a.len() == 0 && b.len() == 0 {
        assert(a =~= b);
    }
}

/// The byte keys of `v`'s strings.
pub open spec fn keys(v: Seq<Seq<char>>) -> Seq<Seq<u8>> {
    Seq::new(v.len(), |i: int| encode_utf8(v[i]))
}

/// Strictly increasing, so sorted and without duplicates.
pub open spec fn strictly_sorted(k: Seq<Seq<u8>>) -> bool {
    forall|i: int, j: int| 0 <= i < j < k.len() ==> lex_lt(#[trigger] k[i], #[trigger] k[j])
}

/// Whether `a` orders before `b` by bytes.
pub fn str_lt(a: &str, b: &str) -> (r: bool)
    ensures
        r == lex_lt(encode_utf8(a@), encode_utf8(b@)),
{
    let x = a.as_bytes();
    let y = b.as_bytes();
    let mut i: usize = 0;
    proof {
        assert(x@.skip(0) =~= x@);
        assert(y@.skip(0) =~= y@);
    }
    while i < x.len() && i < y.len() && x[i] == y[i]
        invariant
            i <= x@.len(),
            i <= y@.len(),
            x@ == encode_utf8(a@),
            y@ == encode_utf8(b@),
            lex_lt(x@, y@) == lex_lt(x@.skip(i as int), y@.skip(i as int)),
        decreases x@.len() - i,
    {
        proof {
            assert(x@.skip(i as int).drop_first() =~= x@.skip(i + 1));
            assert(y@.skip(i as int).drop_first() =~= y@.skip(i + 1));
        }
        i += 1;
    }
    if i == x.len() {
        i < y.len()
    } else if i == y.len() {
        false
    } else {
        x[i] < y[i]
    }
}

fn str_eq(a: &str, b: &str) -> (r: bool)
    ensures
        r == (a@ == b@),
{
    text::chars_eq_str(text::chars_of(a).as_slice(), b)
}

proof fn lemma_encode_injective(a: Seq<char>, b: Seq<char>)
    ensures
        (encode_utf8(a) == encode_utf8(b)) == (a == b),
{
    vstd::utf8::encode_utf8_decode_utf8(a);
    vstd::utf8::encode_utf8_decode_utf8(b);
}

/// `files` with `path` added in its sorted place, unless already there.
pub open spec fn with_path(files: Seq<Seq<char>>, path: Seq<char>) -> Set<Seq<char>> {
    files.to_set().insert(path)
}

/// Insert `path` into the sorted list `out` in its place, unless present.
pub(crate) fn insert_sorted(out: &mut Vec<String>, path: &str)
    requires
        strictly_sorted(keys(paths(old(out)@))),
    ensures
        strictly_sorted(keys(paths(final(out)@))),
        paths(final(out)@).to_set() == paths(old(out)@).to_set().insert(path@),
        paths(old(out)@).contains(path@) ==> paths(final(out)@) == paths(old(out)@),
{
    let ghost old_ps = paths(out@);
    let n = out.len();
    let mut p: usize = 0;
    while p < n && str_lt(out[p].as_str(), path)
        invariant
            n == out@.len(),
            p <= n,
            old_ps == paths(out@),
            forall|j: int| 0 <= j < p ==> lex_lt(encode_utf8(#[trigger] old_ps[j]), encode_utf8(path@)),
        decreases n - p,
    {
        p += 1;
    }
    if p < n && str_eq(out[p].as_str(), path) {
        proof {
            assert(old_ps[p as int] == path@);
            assert(old_ps.contains(path@));
            assert(old_ps.to_set().insert(path@) =~= old_ps.to_set());
        }
        return;
    }
    proof {
        if old_ps.contains(path@) {
            let k = choose|k: int| 0 <= k < old_ps.len() && old_ps[k] == path@;
            if k < p {
                lemma_lex_irreflexive(encode_utf8(path@));
            } else if k > p {
                assert(p < n);
                lemma_encode_injective(old_ps[p as int], path@);
                assert(old_ps[p as int] != path@);
                lemma_lex_total(encode_utf8(old_ps[p as int]), encode_utf8(path@));
                let kk = keys(old_ps);
                assert(lex_lt(kk[p as int], kk[k]));
                lemma_lex_transitive(encode_utf8(path@), encode_utf8(old_ps[p as int]), encode_utf8(path@));
                lemma_lex_irreflexive(encode_utf8(path@));
            }
        }
        if p < n {
            lemma_encode_injective(old_ps[p as int], path@);
            lemma_lex_total(encode_utf8(path@), encode_utf8(old_ps[p as int]));
        }
    }
    out.insert(p, crate::text::string_of(crate::text::chars_of(path).as_slice()));
    proof {
        let r = paths(out@);
        assert(r =~= old_ps.insert(p as int, path@));
        let kr = keys(r);
        let ko = keys(old_ps);
        assert forall|i: int, j: int| 0 <= i < j < kr.len() implies lex_lt(
            #[trigger] kr[i],
            #[trigger] kr[j],
        ) by {
            if i < p && j < p {
                assert(kr[i] == ko[i] && kr[j] == ko[j]);
            } else if i < p && j == p {
                assert(kr[i] == ko[i]);
            } else if i < p && j > p {
                assert(kr[i] == ko[i] && kr[j] == ko[j - 1]);
            } else if i == p && j > p {
                assert(kr[j] == ko[j - 1]);
                if j - 1 > p {
                    assert(lex_lt(ko[p as int], ko[j - 1]));
                    lemma_lex_transitive(kr[i], ko[p as int], ko[j - 1]);
                }
            } else {
                assert(kr[i] == ko[i - 1] && kr[j] == ko[j - 1]);
            }
        }
        assert(r.to_set() =~= old_ps.to_set().insert(path@)) by {
            assert forall|x: Seq<char>| r.to_set().contains(x) <==> old_ps.to_set().insert(
                path@,
            ).contains(x) by {
                if r.contains(x) {
                    let k = choose|k: int| 0 <= k < r.len() && r[k] == x;
                    if k < p {
                        assert(old_ps[k] == x);
                    } else if k > p {
                        assert(old_ps[k - 1] == x);
                    }
                }
                if old_ps.contains(x) {
                    let k = choose|k: int| 0 <= k < old_ps.len() && old_ps[k] == x;
                    if k < p {
                        assert(r[k] == x);
                    } else {
                        assert(r[k + 1] == x);
                    }
                }
                if x == path@ {
                    assert(r[p as int] == x);
                }
            }
        }
    }
}

/// Insert `path` into the sorted list `files`, keeping it strictly sorted;
/// an entry already present leaves the list as it is. (Used by `:enew`, so a
/// just-created file is findable without walking the card again.)
pub fn add_to_file_list(files: &Vec<String>, path: &str) -> (r: Vec<String>)
    requires
        strictly_sorted(keys(paths(files@))),
    ensures
        strictly_sorted(keys(paths(r@))),
        paths(r@).to_set() == paths(files@).to_set().insert(path@),
        paths(files@).contains(path@) ==> paths(r@) == paths(files@),
{
    let mut out = copy_list(files);
    insert_sorted(&mut out, path);
    out
}

fn copy_list(files: &Vec<String>) -> (r: Vec<String>)
    ensures
        paths(r@) == paths(files@),
{
    let mut out: Vec<String> = Vec::new();
    let mut i: usize = 0;
    while i < files.len()
        invariant
            i <= files@.len(),
            paths(out@) == paths(files@).take(i as int),
        decreases files@.len() - i,
    {
        let ghost o = paths(out@);
        out.push(crate::text::string_of(crate::text::chars_of(files[i].as_str()).as_slice()));
        proof {
            assert(paths(out@) =~= o.push(files@[i as int]@));
            assert(paths(files@).take(i + 1) =~= paths(files@).take(i as int).push(
                files@[i as int]@,
            ));
        }
        i += 1;
    }
    proof {
        assert(paths(files@).take(files@.len() as int) =~= paths(files@));
    }
    out
}

/// The non-empty lines of `blob`.
pub open spec fn nonempty_lines(blob: Seq<char>) -> Set<Seq<char>> {
    text::split(blob, '\n').to_set().filter(|l: Seq<char>| l.len() > 0)
}

/// The palette's file list from the host's newline-joined walk of the card:
/// every non-empty line, sorted by bytes, each once.
pub fn set_file_list_joined(blob: &str) -> (r: Vec<String>)
    ensures
        strictly_sorted(keys(paths(r@))),
        paths(r@).to_set() == nonempty_lines(blob@),
{
    let v = crate::text::chars_of(blob);
    let lines = crate::text::split_exec(v.as_slice(), '\n');
    let ghost ls = text::views(lines@);
    let mut out: Vec<String> = Vec::new();
    let mut i: usize = 0;
    proof {
        assert(paths(out@).to_set() =~= ls.take(0).to_set().filter(|l: Seq<char>| l.len() > 0));
    }
    while i < lines.len()
        invariant
            ls == text::views(lines@),
            ls == text::split(blob@, '\n'),
            i <= lines@.len(),
            strictly_sorted(keys(paths(out@))),
            paths(out@).to_set() == ls.take(i as int).to_set().filter(|l: Seq<char>| l.len() > 0),
        decreases lines@.len() - i,
    {
        let ghost before = paths(out@).to_set();
        if lines[i].len() > 0 {
            let s = crate::text::string_of(lines[i].as_slice());
            insert_sorted(&mut out, s.as_str());
        }
        proof {
            let x = ls[i as int];
            assert(ls.take(i + 1) =~= ls.take(i as int).push(x));
            assert(ls.take(i + 1).to_set() =~= ls.take(i as int).to_set().insert(x)) by {
                assert forall|y: Seq<char>| ls.take(i + 1).to_set().contains(y) <==> ls.take(
                    i as int,
                ).to_set().insert(x).contains(y) by {
                    if ls.take(i + 1).contains(y) {
                        let k = choose|k: int| 0 <= k < i + 1 && #[trigger] ls.take(i + 1)[k] == y;
                        if k < i {
                            assert(ls.take(i as int)[k] == y);
                        }
                    }
                    if ls.take(i as int).contains(y) {
                        let k = choose|k: int| 0 <= k < i && #[trigger] ls.take(i as int)[k] == y;
                        assert(ls.take(i + 1)[k] == y);
                    }
                    if y == x {
                        assert(ls.take(i + 1)[i as int] == y);
                    }
                }
            }
            assert(paths(out@).to_set() =~= ls.take(i + 1).to_set().filter(
                |l: Seq<char>| l.len() > 0,
            ));
        }
        i += 1;
    }
    proof {
        assert(ls.take(lines@.len() as int) =~= ls);
    }
    out
}

/// [`set_file_list_joined`] over the paths `files`, joined with newlines.
pub fn set_file_list(files: &Vec<String>) -> (r: Vec<String>)
    ensures
        strictly_sorted(keys(paths(r@))),
        paths(r@).to_set() == nonempty_lines(text::join_sep(paths(files@), seq!['\n'])),
{
    let mut parts: Vec<Vec<char>> = Vec::new();
    let mut i: usize = 0;
    while i < files.len()
        invariant
            i <= files@.len(),
            text::views(parts@) == paths(files@).take(i as int),
        decreases files@.len() - i,
    {
        let ghost o = text::views(parts@);
        parts.push(crate::text::chars_of(files[i].as_str()));
        proof {
            assert(text::views(parts@) =~= o.push(files@[i as int]@));
            assert(paths(files@).take(i + 1) =~= paths(files@).take(i as int).push(
                files@[i as int]@,
            ));
        }
        i += 1;
    }
    proof {
        assert(paths(files@).take(files@.len() as int) =~= paths(files@));
    }
    let mut nl: Vec<char> = Vec::new();
    nl.push('\n');
    assert(nl@ =~= seq!['\n']);
    let joined = crate::text::join_exec(&parts, nl.as_slice());
    let blob = crate::text::string_of(joined.as_slice());
    set_file_list_joined(blob.as_str())
}

/// `files` without `path` (used by `:delete`); the rest keep their order.
pub fn remove_from_file_list(files: &Vec<String>, path: &str) -> (r: Vec<String>)
    ensures
        paths(r@) == paths(files@).filter(not_path(path@)),
{
    let ghost all = paths(files@);
    let ghost pred = not_path(path@);
    let mut out: Vec<String> = Vec::new();
    let mut i: usize = 0;
    proof {
        reveal(Seq::filter);
        assert(all.take(0).filter(pred) =~= Seq::<Seq<char>>::empty());
    }
    while i < files.len()
        invariant
            all == paths(files@),
            pred == not_path(path@),
            i <= files@.len(),
            paths(out@) == all.take(i as int).filter(pred),
        decreases files@.len() - i,
    {
        let keep = !str_eq(files[i].as_str(), path);
        let ghost o = paths(out@);
        if keep {
            out.push(crate::text::string_of(crate::text::chars_of(files[i].as_str()).as_slice()));
            assert(paths(out@) =~= o.push(files@[i as int]@));
        }
        proof {
            reveal(Seq::filter);
            assert(all.take(i + 1).drop_last() =~= all.take(i as int));
            let x = all.take(i + 1).last();
            assert(x == files@[i as int]@);
            assert(pred(x) == keep);
            assert(paths(out@) =~= all.take(i + 1).filter(pred));
        }
        i += 1;
    }
    proof {
        assert(all.take(files@.len() as int) =~= all);
    }
    out
}

} // verus!
