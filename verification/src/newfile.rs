//! The palette's `> new file` step: the folder it opens on, and Tab
//! completion of that folder against the folders already on the card.

use vstd::prelude::*;
use vstd::string::*;
use crate::buffers::{paths, Scope};
use crate::filelist::{insert_sorted, keys, strictly_sorted};
use crate::fuzzy::{ascii_lower, ascii_lower_exec};
use crate::palette::{label_of, palette_label};
use crate::text;

verus! {

broadcast use vstd::string::group_string_axioms;

/// The folder the step pre-fills: the directory of the active file in
/// palette-label form (up to and including its last `/`); an unnamed buffer
/// gets its scope's root.
pub open spec fn folder_prefix(path: Seq<char>, scope: Scope) -> Seq<char> {
    if path.len() == 0 {
        match scope {
            Scope::Repo => "repo/"@,
            Scope::Local => "local/"@,
        }
    } else {
        let l = label_of(path);
        match text::rfind(l, '/') {
            Some(i) => l.take((i + 1) as int),
            None => Seq::empty(),
        }
    }
}

/// The folder the `> new file` step pre-fills: the directory of the active
/// buffer in palette-label form (`repo/notes/foo.md` → `repo/notes/`). An
/// unnamed scratch buffer falls back to the current scope's root, so the
/// prompt is never empty and the typed name always lands somewhere real.
pub fn current_folder_prefix(path: &str, scope: Scope) -> (r: String)
    ensures
        r@ == folder_prefix(path@, scope),
{
    if path.unicode_len() == 0 {
        return match scope {
            Scope::Repo => text::string_of(text::chars_of("repo/").as_slice()),
            Scope::Local => text::string_of(text::chars_of("local/").as_slice()),
        };
    }
    let label = text::chars_of(palette_label(path));
    match text::rfind_char(label.as_slice(), '/') {
        Some(i) => {
            proof {
                text::lemma_rfind(label@, '/');
            }
            let head = text::slice_of(label.as_slice(), 0, i + 1);
            assert(head@ =~= label@.take(i + 1));
            text::string_of(head.as_slice())
        },
        None => String::new(),
    }
}

/// `s` with ASCII capitals lowered.
pub open spec fn lower(s: Seq<char>) -> Seq<char> {
    s.map_values(|c: char| ascii_lower(c))
}

/// The prefixes of `label` that end in a `/` before position `k`.
pub open spec fn dirs_upto(label: Seq<char>, k: int) -> Set<Seq<char>> {
    Set::new(
        |f: Seq<char>|
            exists|m: int| 0 <= m < k && label[m] == '/' && f == #[trigger] label.take(m + 1),
    )
}

/// The folders above a label: each prefix of it that ends in `/`.
pub open spec fn dirs_of(label: Seq<char>) -> Set<Seq<char>> {
    dirs_upto(label, label.len() as int)
}

/// The two scope roots, which exist even when empty.
pub open spec fn roots() -> Set<Seq<char>> {
    set!["local/"@, "repo/"@]
}

/// The scope roots and the folders above the first `i` files of the list.
pub open spec fn folders_upto(files: Seq<Seq<char>>, i: int) -> Set<Seq<char>> {
    roots().union(
        Set::new(
            |f: Seq<char>|
                exists|j: int| 0 <= j < i && #[trigger] dirs_of(label_of(files[j])).contains(f),
        ),
    )
}

/// Every folder on the card: the scope roots and every folder above a file
/// of the list.
pub open spec fn folders(files: Seq<Seq<char>>) -> Set<Seq<char>> {
    folders_upto(files, files.len() as int)
}

/// `f` completes `stem`: it extends it, ignoring ASCII case, and is not
/// merely the stem itself.
pub open spec fn completes(f: Seq<char>, stem: Seq<char>) -> bool {
    lower(f) != lower(stem) && text::starts_with(lower(f), lower(stem))
}

/// The predicate "completes `stem`".
pub open spec fn completes_pred(stem: Seq<char>) -> spec_fn(Seq<char>) -> bool {
    |f: Seq<char>| completes(f, stem)
}

/// The folders on the card that complete `stem`.
pub open spec fn completions(files: Seq<Seq<char>>, stem: Seq<char>) -> Set<Seq<char>> {
    folders(files).filter(completes_pred(stem))
}

proof fn lemma_filter_insert(s: Set<Seq<char>>, c: Seq<char>, stem: Seq<char>)
    ensures
        s.insert(c).filter(completes_pred(stem)) == if completes(c, stem) {
            s.filter(completes_pred(stem)).insert(c)
        } else {
            s.filter(completes_pred(stem))
        },
{
    assert(s.insert(c).filter(completes_pred(stem)) =~= if completes(c, stem) {
        s.filter(completes_pred(stem)).insert(c)
    } else {
        s.filter(completes_pred(stem))
    });
}

proof fn lemma_dirs_step(label: Seq<char>, k: int)
    requires
        0 <= k < label.len(),
    ensures
        dirs_upto(label, k + 1) == if label[k] == '/' {
            dirs_upto(label, k).insert(label.take(k + 1))
        } else {
            dirs_upto(label, k)
        },
{
    let lhs = dirs_upto(label, k + 1);
    let rhs = if label[k] == '/' {
        dirs_upto(label, k).insert(label.take(k + 1))
    } else {
        dirs_upto(label, k)
    };
    assert forall|f: Seq<char>| lhs.contains(f) implies rhs.contains(f) by {
        let m = choose|m: int| 0 <= m < k + 1 && label[m] == '/' && f == #[trigger] label.take(m + 1);
        if m < k {
            assert(dirs_upto(label, k).contains(f));
        }
    }
    assert forall|f: Seq<char>| rhs.contains(f) implies lhs.contains(f) by {
        if label[k] == '/' && f == label.take(k + 1) {
            assert(0 <= k < k + 1 && label[k] == '/' && f == label.take(k + 1));
        } else {
            let m = choose|m: int| 0 <= m < k && label[m] == '/' && f == #[trigger] label.take(m + 1);
            assert(0 <= m < k + 1 && label[m] == '/' && f == label.take(m + 1));
        }
    }
    assert(lhs =~= rhs);
}

proof fn lemma_folders_step(files: Seq<Seq<char>>, i: int)
    requires
        0 <= i < files.len(),
    ensures
        folders_upto(files, i + 1) == folders_upto(files, i).union(dirs_of(label_of(files[i]))),
{
    let lhs = folders_upto(files, i + 1);
    let rhs = folders_upto(files, i).union(dirs_of(label_of(files[i])));
    assert forall|f: Seq<char>| lhs.contains(f) implies rhs.contains(f) by {
        if !roots().contains(f) {
            let j = choose|j: int| 0 <= j < i + 1 && #[trigger] dirs_of(label_of(files[j])).contains(f);
            if j < i {
                assert(folders_upto(files, i).contains(f));
            }
        }
    }
    assert forall|f: Seq<char>| rhs.contains(f) implies lhs.contains(f) by {
        if dirs_of(label_of(files[i])).contains(f) {
            assert(0 <= i < i + 1 && dirs_of(label_of(files[i])).contains(f));
        } else if !roots().contains(f) {
            let j = choose|j: int| 0 <= j < i && #[trigger] dirs_of(label_of(files[j])).contains(f);
            assert(0 <= j < i + 1 && dirs_of(label_of(files[j])).contains(f));
        }
    }
    assert(lhs =~= rhs);
}

/// The distinct folders on the card (each in palette-label form, ending in
/// `/`) that have `stem` as an ASCII-case-insensitive prefix, sorted by
/// bytes, leaving out one that equals the stem itself. The folders are the
/// two scope roots and every folder above a file of the list.
pub fn folder_completions(files: &Vec<String>, stem: &str) -> (r: Vec<String>)
    ensures
        strictly_sorted(keys(paths(r@))),
        paths(r@).to_set() == completions(text::strings(files@), stem@),
{
    let ghost fs = text::strings(files@);
    let stem_v = text::chars_of(stem);
    let stem_lc = lowered(stem_v.as_slice());
    let mut out: Vec<String> = Vec::new();
    proof {
        assert(paths(out@).to_set() =~= Set::<Seq<char>>::empty().filter(completes_pred(stem@)));
        assert(keys(paths(out@)) =~= Seq::<Seq<u8>>::empty());
    }
    let local = text::chars_of("local/");
    let repo = text::chars_of("repo/");
    let ghost s0 = Set::<Seq<char>>::empty().insert("local/"@);
    proof {
        lemma_filter_insert(Set::<Seq<char>>::empty(), "local/"@, stem@);
        lemma_filter_insert(s0, "repo/"@, stem@);
    }
    if completes_exec(local.as_slice(), &stem_lc, Ghost(stem@)) {
        insert_sorted(&mut out, "local/");
    }
    if completes_exec(repo.as_slice(), &stem_lc, Ghost(stem@)) {
        insert_sorted(&mut out, "repo/");
    }
    proof {
        assert(s0.insert("repo/"@) =~= roots());
        let lhs = folders_upto(fs, 0);
        assert(lhs =~= roots());
    }
    let n = files.len();
    let mut i: usize = 0;
    while i < n
        invariant
            n == files@.len(),
            fs == text::strings(files@),
            stem_lc@ == lower(stem@),
            i <= n,
            strictly_sorted(keys(paths(out@))),
            paths(out@).to_set() == folders_upto(fs, i as int).filter(completes_pred(stem@)),
        decreases n - i,
    {
        let label = text::chars_of(palette_label(files[i].as_str()));
        let ghost base = folders_upto(fs, i as int);
        proof {
            assert(dirs_upto(label@, 0) =~= Set::<Seq<char>>::empty());
            assert(base.union(dirs_upto(label@, 0)) =~= base);
        }
        let mut k: usize = 0;
        while k < label.len()
            invariant
                stem_lc@ == lower(stem@),
                k <= label@.len(),
                strictly_sorted(keys(paths(out@))),
                paths(out@).to_set() == base.union(dirs_upto(label@, k as int)).filter(
                    completes_pred(stem@),
                ),
            decreases label@.len() - k,
        {
            proof {
                lemma_dirs_step(label@, k as int);
            }
            if label[k] == '/' {
                let cand = text::slice_of(label.as_slice(), 0, k + 1);
                assert(cand@ =~= label@.take(k + 1));
                proof {
                    lemma_filter_insert(base.union(dirs_upto(label@, k as int)), cand@, stem@);
                    assert(base.union(dirs_upto(label@, k as int)).insert(cand@) =~= base.union(
                        dirs_upto(label@, k + 1),
                    ));
                }
                if completes_exec(cand.as_slice(), &stem_lc, Ghost(stem@)) {
                    let cs = text::string_of(cand.as_slice());
                    insert_sorted(&mut out, cs.as_str());
                }
            }
            k += 1;
        }
        proof {
            lemma_folders_step(fs, i as int);
            assert(label@ == label_of(fs[i as int]));
        }
        i += 1;
    }
    out
}

fn lowered(v: &[char]) -> (r: Vec<char>)
    ensures
        r@ == lower(v@),
{
    let mut r: Vec<char> = Vec::new();
    let mut i: usize = 0;
    while i < v.len()
        invariant
            i <= v@.len(),
            r@ == lower(v@.take(i as int)),
        decreases v@.len() - i,
    {
        r.push(ascii_lower_exec(v[i]));
        i += 1;
        assert(lower(v@.take(i as int)) =~= lower(v@.take(i - 1)).push(ascii_lower(v@[i - 1])));
    }
    assert(v@.take(v@.len() as int) =~= v@);
    r
}

fn completes_exec(f: &[char], stem_lc: &Vec<char>, stem: Ghost<Seq<char>>) -> (r: bool)
    requires
        stem_lc@ == lower(stem@),
    ensures
        r == completes(f@, stem@),
{
    let flc = lowered(f);
    !text::chars_eq(flc.as_slice(), stem_lc.as_slice()) && text::starts_with_at(
        flc.as_slice(),
        0,
        stem_lc.as_slice(),
    )
}


/// `c` lists the set `s` in strictly increasing byte order (the one list
/// that does).
pub open spec fn sorted_listing(c: Seq<Seq<char>>, s: Set<Seq<char>>) -> bool {
    strictly_sorted(keys(c)) && c.to_set() == s
}

/// Where a Tab starts from: the stem being completed and the slot to show.
/// A first Tab takes the typed text as the stem at slot 0; each further one
/// moves one slot on.
pub open spec fn tab_start(query: Seq<char>, completion: Option<(String, usize)>) -> (Seq<char>, int) {
    match completion {
        Some((stem, pos)) => (stem@, pos + 1),
        None => (query, 0),
    }
}

/// Tab in the `> new file` step: complete the typed name against the
/// folders already on the card, cycling through them on repeated Tabs, with
/// one extra slot past the last that restores the typed stem. A stem that no
/// folder completes leaves the name as it is and ends the cycle.
pub fn new_file_complete(
    query: &mut String,
    completion: &mut Option<(String, usize)>,
    files: &Vec<String>,
)
    requires
        *old(completion) matches Some((_, p)) ==> p < usize::MAX,
    ensures
        ({
            let (stem, pos) = tab_start(old(query)@, *old(completion));
            exists|c: Seq<Seq<char>>|
                #![trigger sorted_listing(c, completions(text::strings(files@), stem))]
                sorted_listing(c, completions(text::strings(files@), stem)) && if c.len() == 0 {
                    final(query)@ == old(query)@ && (*final(completion)) is None
                } else {
                    let p = pos % ((c.len() + 1) as int);
                    &&& final(query)@ == (if p < c.len() {
                        c[p]
                    } else {
                        stem
                    })
                    &&& *final(completion) matches Some((s2, p2)) && s2@ == stem && p2 == p
                }
        }),
{
    let (stem, pos) = match completion.take() {
        Some((stem, pos)) => (stem, pos + 1),
        None => (text::string_of(text::chars_of(query.as_str()).as_slice()), 0),
    };
    assert(stem@ == tab_start(old(query)@, *old(completion)).0);
    assert(pos == tab_start(old(query)@, *old(completion)).1);
    let cands = folder_completions(files, stem.as_str());
    let ghost c = paths(cands@);
    assert(sorted_listing(c, completions(text::strings(files@), stem@)));
    if cands.len() == 0 {
        return;
    }
    let m = cands.len();
    let pos = if pos <= m {
        proof {
            vstd::arithmetic::div_mod::lemma_small_mod(pos as nat, (m + 1) as nat);
        }
        pos
    } else {
        pos % (m + 1)
    };
    assert(pos == tab_start(old(query)@, *old(completion)).1 % ((c.len() + 1) as int));
    if pos < cands.len() {
        *query = text::string_of(text::chars_of(cands[pos].as_str()).as_slice());
    } else {
        *query = text::string_of(text::chars_of(stem.as_str()).as_slice());
    }
    *completion = Some((stem, pos));
}

} // verus!
