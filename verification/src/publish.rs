//! `:pub`: marking the active note `.pub.md` — which notes can be, the name
//! they take, the caret once links in the note are retargeted, and which
//! other notes on the card the host must retarget.

use vstd::prelude::*;
use crate::buffers::{paths, Scope};
use crate::palette::palette_label;
use crate::text;

verus! {

/// Why a note cannot be published.
pub enum PublishRefusal {
    /// The buffer has no file.
    NoFile,
    /// Local notes never leave the device.
    Local,
    /// The note already is `.pub.md`.
    AlreadyPublished,
    /// Only Markdown notes are published.
    NotMarkdown,
    /// A note of the published name exists already (its palette label).
    Exists(String),
}

/// `.md`.
pub open spec fn md() -> Seq<char> {
    seq!['.', 'm', 'd']
}

/// `.pub.md`.
pub open spec fn pub_md() -> Seq<char> {
    seq!['.', 'p', 'u', 'b', '.', 'm', 'd']
}

/// The published name of the note `path` (`x.md` → `x.pub.md`).
pub open spec fn published_name(path: Seq<char>) -> Seq<char> {
    path.take(path.len() - 3) + pub_md()
}

/// Whether the note `path` in `scope` can be published: it has a name, is
/// tracked, is Markdown, and is not published already.
pub open spec fn publishable(path: Seq<char>, scope: Scope) -> bool {
    path.len() > 0 && scope == Scope::Repo && !text::ends_with(path, pub_md()) && text::ends_with(
        path,
        md(),
    )
}

fn copy(s: &str) -> (r: String)
    ensures
        r@ == s@,
{
    text::string_of(text::chars_of(s).as_slice())
}

fn contains_str(list: &Vec<String>, s: &str) -> (r: bool)
    ensures
        r == paths(list@).contains(s@),
{
    let mut i: usize = 0;
    while i < list.len()
        invariant
            i <= list@.len(),
            forall|j: int| 0 <= j < i ==> list@[j]@ != s@,
        decreases list@.len() - i,
    {
        if text::chars_eq_str(text::chars_of(list[i].as_str()).as_slice(), s) {
            assert(paths(list@)[i as int] == s@);
            return true;
        }
        i += 1;
    }
    proof {
        if paths(list@).contains(s@) {
            let j = choose|j: int| 0 <= j < paths(list@).len() && paths(list@)[j] == s@;
            assert(list@[j]@ == s@);
        }
    }
    false
}

/// The name `:pub` gives the active note `path`, or why it cannot: no file,
/// a Local note, one already published, a non-Markdown file, or a published
/// name already taken by a file on the card or an open buffer (`files`,
/// `parked`).
pub fn publish_target(path: &str, scope: Scope, files: &Vec<String>, parked: &Vec<String>) -> (r:
    Result<String, PublishRefusal>)
    ensures
        path@.len() == 0 ==> r matches Err(PublishRefusal::NoFile),
        path@.len() > 0 && scope == Scope::Local ==> r matches Err(PublishRefusal::Local),
        path@.len() > 0 && scope == Scope::Repo && text::ends_with(path@, pub_md()) ==> r matches Err(
            PublishRefusal::AlreadyPublished,
        ),
        path@.len() > 0 && scope == Scope::Repo && !text::ends_with(path@, pub_md())
            && !text::ends_with(path@, md()) ==> r matches Err(PublishRefusal::NotMarkdown),
        publishable(path@, scope) ==> {
            let to = published_name(path@);
            if paths(files@).contains(to) || paths(parked@).contains(to) {
                r matches Err(PublishRefusal::Exists(label)) && label@ == crate::palette::label_of(
                    to,
                )
            } else {
                r matches Ok(name) && name@ == to
            }
        },
{
    let v = text::chars_of(path);
    if v.len() == 0 {
        return Err(PublishRefusal::NoFile);
    }
    if scope == Scope::Local {
        return Err(PublishRefusal::Local);
    }
    if text::ends_with_str(v.as_slice(), ".pub.md") {
        proof {
            reveal_strlit(".pub.md");
            assert(".pub.md"@ =~= pub_md());
        }
        return Err(PublishRefusal::AlreadyPublished);
    }
    proof {
        reveal_strlit(".pub.md");
        assert(".pub.md"@ =~= pub_md());
        reveal_strlit(".md");
        assert(".md"@ =~= md());
    }
    if !text::ends_with_str(v.as_slice(), ".md") {
        return Err(PublishRefusal::NotMarkdown);
    }
    let mut to = text::slice_of(v.as_slice(), 0, v.len() - 3);
    text::extend_str(&mut to, ".pub.md");
    let to = text::string_of(to.as_slice());
    assert(to@ =~= published_name(path@));
    if contains_str(files, to.as_str()) || contains_str(parked, to.as_str()) {
        return Err(PublishRefusal::Exists(copy(palette_label(to.as_str()))));
    }
    Ok(to)
}

/// How many of `sites` lie before `caret`.
pub open spec fn sites_before(sites: Seq<usize>, caret: usize) -> nat {
    sites.filter(|s: usize| s < caret).len()
}

/// The caret once every retargeted link before it grew by `.pub`'s four
/// bytes.
pub fn publish_caret(caret: usize, sites: &Vec<usize>) -> (r: usize)
    requires
        caret + 4 * sites@.len() <= usize::MAX,
    ensures
        r == caret + 4 * sites_before(sites@, caret),
{
    let mut n: usize = 0;
    let mut i: usize = 0;
    while i < sites.len()
        invariant
            i <= sites@.len(),
            n == sites_before(sites@.take(i as int), caret),
            n <= i,
            caret + 4 * sites@.len() <= usize::MAX,
        decreases sites@.len() - i,
    {
        proof {
            reveal(Seq::filter);
            assert(sites@.take(i + 1).drop_last() =~= sites@.take(i as int));
        }
        if sites[i] < caret {
            n += 1;
        }
        i += 1;
    }
    proof {
        assert(sites@.take(sites@.len() as int) =~= sites@);
    }
    caret + 4 * n
}

/// The notes on the card whose links the host retargets: every Markdown
/// file but the published one and those open in a buffer (rewritten in
/// RAM instead).
pub open spec fn to_retarget(files: Seq<Seq<char>>, to: Seq<char>, parked: Seq<Seq<char>>) -> Seq<
    Seq<char>,
> {
    files.filter(|p: Seq<char>| text::ends_with(p, md()) && p != to && !parked.contains(p))
}

/// The files whose links to the old name the host must rewrite.
pub fn retarget_list(files: &Vec<String>, to: &str, parked: &Vec<String>) -> (r: Vec<String>)
    ensures
        paths(r@) == to_retarget(paths(files@), to@, paths(parked@)),
{
    let ghost pred = |p: Seq<char>| text::ends_with(p, md()) && p != to@ && !paths(parked@).contains(
        p,
    );
    let mut out: Vec<String> = Vec::new();
    let mut i: usize = 0;
    proof {
        reveal_strlit(".md");
        assert(".md"@ =~= md());
    }
    while i < files.len()
        invariant
            i <= files@.len(),
            ".md"@ == md(),
            pred == (|p: Seq<char>| text::ends_with(p, md()) && p != to@ && !paths(
                parked@,
            ).contains(p)),
            paths(out@) == paths(files@).take(i as int).filter(pred),
        decreases files@.len() - i,
    {
        let f = files[i].as_str();
        let fv = text::chars_of(f);
        let keep = text::ends_with_str(fv.as_slice(), ".md") && !text::chars_eq_str(
            fv.as_slice(),
            to,
        ) && !contains_str(parked, f);
        proof {
            reveal(Seq::filter);
            assert(paths(files@).take(i + 1).drop_last() =~= paths(files@).take(i as int));
        }
        if keep {
            let ghost before = paths(out@);
            out.push(copy(f));
            assert(paths(out@) =~= before.push(f@));
        }
        i += 1;
    }
    proof {
        assert(paths(files@).take(files@.len() as int) =~= paths(files@));
    }
    out
}


/// A published note cannot be published again: its name ends in `.pub.md`.
pub proof fn lemma_published_is_final(path: Seq<char>, scope: Scope)
    requires
        publishable(path, scope),
    ensures
        text::ends_with(published_name(path), pub_md()),
        !publishable(published_name(path), scope),
{
    let to = published_name(path);
    assert(to.subrange(to.len() - 7, to.len() as int) =~= pub_md());
}

} // verus!
