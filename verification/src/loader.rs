//! Loading a project: the index store and the directory scanner.
//!
//! [`parse_project`] tries the persisted index snapshot first; its
//! chapter order and active chapter come from the index alone, and
//! the directory contents are not consulted.  Only when the index
//! file is missing or does not hold an acceptable snapshot does the
//! loader fall back to [`scan_project`], which rebuilds the logical
//! structure from the tree: chapters are the directories under
//! `Chapters/`, in the order the tree yields them; notes are the
//! `.md` files of each chapter's `Notes/` area with the extension
//! stripped; extras are the raw file names of its `Extras/` area.
//! A fresh scan never knows which chapter was active.
//! [`write_project_config`] persists the snapshot back into the
//! tree, best-effort.

use crate::index::{index_accepts, index_json, parse_index, parse_index_spec, proj_v};
use crate::paths::split_comps;
use crate::paths::split_path;
use crate::project::{chapter_names, Chapter, Project};
use crate::vfs::{child_dir_names, child_file_names, list_child_dirs, list_child_files, Vfs};
use vstd::prelude::*;

verus! {

/// The `Chapters` directory of the project rooted at `path`.
pub open spec fn chapters_dir(path: Seq<char>) -> Seq<Seq<char>> {
    split_comps(path).push("Chapters"@)
}

/// Whether a file name carries the markdown extension over a
/// non-empty stem.
pub open spec fn is_md(n: Seq<char>) -> bool {
    n.len() > 3 && n[n.len() - 3] == '.' && n[n.len() - 2] == 'm' && n[n.len() - 1] == 'd'
}

/// The file name with its markdown extension stripped.
pub open spec fn strip_md(n: Seq<char>) -> Seq<char> {
    n.take(n.len() - 3)
}

/// The note identifiers among a list of file names: the markdown
/// files, extensions stripped.
pub open spec fn md_notes(names: Seq<Seq<char>>) -> Seq<Seq<char>> {
    names.filter(|n: Seq<char>| is_md(n)).map_values(|n: Seq<char>| strip_md(n))
}

/// Whether no two of these names are the same.
pub open spec fn names_distinct(s: Seq<Seq<char>>) -> bool {
    forall|i: int, j: int| 0 <= i < j < s.len() ==> s[i] != s[j]
}

/// Whether this file name carries the markdown extension.
fn is_md_name(name: &String) -> (r: bool)
    ensures
        r == is_md(name@),
{
    let s = name.as_str();
    let n = s.unicode_len();
    n > 3 && s.get_char(n - 3) == '.' && s.get_char(n - 2) == 'm' && s.get_char(n - 1) == 'd'
}

/// The note identifiers among the given file names, in order.
fn collect_notes(names: &Vec<String>) -> (r: Vec<String>)
    ensures
        r.deep_view() == md_notes(names.deep_view()),
{
    let ghost pred = |n: Seq<char>| is_md(n);
    let mut r: Vec<String> = Vec::new();
    let n = names.len();
    for j in 0..n
        invariant
            n == names@.len(),
            pred == (|n: Seq<char>| is_md(n)),
            r.deep_view() == names.deep_view().take(j as int).filter(pred).map_values(
                |n: Seq<char>| strip_md(n),
            ),
    {
        let ghost taken = names.deep_view().take(j as int);
        proof {
            assert(names.deep_view().take(j + 1).drop_last() =~= taken);
            assert(names.deep_view().take(j + 1).last() == names.deep_view()[j as int]);
            reveal_with_fuel(Seq::<Seq<char>>::filter, 2);
        }
        if is_md_name(&names[j]) {
            let name = &names[j];
            let s = name.as_str();
            let len = s.unicode_len();
            let stem = s.substring_char(0, len - 3).to_owned();
            let ghost r0 = r.deep_view();
            r.push(stem);
            proof {
                assert(stem@ == strip_md(names.deep_view()[j as int]));
                assert(r.deep_view() =~= r0.push(stem@));
                assert(names.deep_view().take(j + 1).filter(pred) =~= taken.filter(pred).push(
                    names.deep_view()[j as int],
                ));
                assert(r.deep_view() =~= names.deep_view().take(j + 1).filter(pred).map_values(
                    |n: Seq<char>| strip_md(n),
                ));
            }
        } else {
            proof {
                assert(names.deep_view().take(j + 1).filter(pred) =~= taken.filter(pred));
            }
        }
    }
    proof {
        assert(names.deep_view().take(n as int) =~= names.deep_view());
    }
    r
}

/// What a scanned project holds: the path it was scanned at, no
/// active chapter, one chapter per directory under `Chapters/` in
/// tree order, with the notes and extras its areas hold.
pub open spec fn scanned_project(fs: Vfs, path: Seq<char>, p: Project) -> bool {
    let cd = chapters_dir(path);
    &&& p.wf()
    &&& p.path@ == path
    &&& p.active_chapter matches Option::<usize>::None
    &&& chapter_names(p.chapters@) == child_dir_names(fs, cd)
    &&& forall|k: int|
        0 <= k < p.chapters@.len() ==> (#[trigger] p.chapters@[k]).notes.deep_view() == md_notes(
            child_file_names(fs, cd.push(p.chapters@[k].name@).push("Notes"@)),
        )
    &&& forall|k: int|
        0 <= k < p.chapters@.len() ==> (#[trigger] p.chapters@[k]).extras.deep_view()
            == child_file_names(fs, cd.push(p.chapters@[k].name@).push("Extras"@))
}

/// Scans the project rooted at `path` and rebuilds its logical
/// structure from the tree.  A root without a `Chapters` directory
/// is not project-shaped and yields nothing.
#[verifier::rlimit(100)]
#[verifier::spinoff_prover]
pub fn scan_project(fs: &Vfs, path: &String) -> (r: Option<Project>)
    requires
        fs.wf(),
    ensures
        (r is Some) == (fs.has_dir(chapters_dir(path@)) && names_distinct(
            child_dir_names(*fs, chapters_dir(path@)),
        )),
        r matches Some(p) ==> scanned_project(*fs, path@, p),
{
    let mut cdir = split_path(path);
    cdir.push(crate::saving::chapters_name());
    let ghost cd = cdir.deep_view();
    assert(cd =~= chapters_dir(path@));
    let is_dir = match crate::vfs::lookup(fs, &cdir) {
        None => false,
        Some(i) => {
            proof {
                fs.lemma_entry_at(i as int);
            }
            match &fs.entries[i].node {
                crate::vfs::VfsNode::Dir { .. } => true,
                crate::vfs::VfsNode::File { .. } => false,
            }
        },
    };
    if !is_dir {
        return None;
    }
    let names = list_child_dirs(fs, &cdir);
    let n = names.len();
    for i in 0..n
        invariant
            n == names@.len(),
            cd == chapters_dir(path@),
            names.deep_view() == child_dir_names(*fs, cd),
            forall|x: int, y: int|
                0 <= x < y < n && x < i ==> names.deep_view()[x] != names.deep_view()[y],
    {
        for j in (i + 1)..n
            invariant
                i < n,
                n == names@.len(),
                cd == chapters_dir(path@),
                names.deep_view() == child_dir_names(*fs, cd),
                forall|y: int| i < y < j ==> names.deep_view()[i as int] != names.deep_view()[y],
        {
            if names[i] == names[j] {
                assert(names.deep_view()[i as int] == names.deep_view()[j as int]);
                assert(!names_distinct(child_dir_names(*fs, cd)));
                return None;
            }
        }
    }
    assert(names_distinct(names.deep_view()));
    let mut chapters: Vec<Chapter> = Vec::new();
    for k in 0..n
        invariant
            fs.wf(),
            n == names@.len(),
            cd == chapters_dir(path@),
            cdir.deep_view() == cd,
            names.deep_view() == child_dir_names(*fs, cd),
            chapters@.len() == k,
            forall|x: int|
                0 <= x < k ==> (#[trigger] chapters@[x]).name@ == names.deep_view()[x],
            forall|x: int|
                0 <= x < k ==> (#[trigger] chapters@[x]).notes.deep_view() == md_notes(
                    child_file_names(*fs, cd.push(chapters@[x].name@).push("Notes"@)),
                ),
            forall|x: int|
                0 <= x < k ==> (#[trigger] chapters@[x]).extras.deep_view() == child_file_names(
                    *fs,
                    cd.push(chapters@[x].name@).push("Extras"@),
                ),
    {
        let name = names[k].clone();
        let mut ndir = crate::vfs::clone_path(&cdir);
        ndir.push(name.clone());
        ndir.push("Notes".to_owned());
        assert(ndir.deep_view() =~= cd.push(name@).push("Notes"@));
        let note_files = list_child_files(fs, &ndir);
        let notes = collect_notes(&note_files);
        let mut edir = crate::vfs::clone_path(&cdir);
        edir.push(name.clone());
        edir.push("Extras".to_owned());
        assert(edir.deep_view() =~= cd.push(name@).push("Extras"@));
        let extras = list_child_files(fs, &edir);
        chapters.push(Chapter { name, notes, extras });
    }
    let project = Project { path: path.clone(), chapters, active_chapter: None };
    proof {
        assert(chapter_names(project.chapters@) =~= names.deep_view());
        assert(project.wf()) by {
            assert forall|x: int, y: int|
                0 <= x < y < project.chapters@.len() implies (
            #[trigger] project.chapters@[x]).name@ != (
            #[trigger] project.chapters@[y]).name@ by {
                assert(names.deep_view()[x] != names.deep_view()[y]);
            }
        }
    }
    Some(project)
}


/// The hidden index file of the project rooted at `path`.
pub open spec fn index_path(path: Seq<char>) -> Seq<Seq<char>> {
    split_comps(path).push(".papersmith.json"@)
}

/// Loads the project rooted at `path`.  The index snapshot takes
/// precedence: when the index file holds an acceptable snapshot,
/// the result is exactly that snapshot's project and the tree is
/// untouched — chapter order and the active chapter come from the
/// index alone.  Otherwise the chapters area is opened (created if
/// the root allows it) and the project is rebuilt by the scan.
#[verifier::rlimit(100)]
#[verifier::spinoff_prover]
pub fn parse_project(fs: &mut Vfs, path: &String) -> (r: Option<Project>)
    requires
        old(fs).wf(),
    ensures
        final(fs).wf(),
        final(fs).rename_supported == old(fs).rename_supported,
        old(fs).has_file(index_path(path@)) && index_accepts(
            old(fs).file_text(index_path(path@)),
        ) ==> ({
            &&& *final(fs) == *old(fs)
            &&& r matches Some(p) && p.wf() && parse_index_spec(
                old(fs).file_text(index_path(path@)),
            ) == Some(proj_v(p))
        }),
        !(old(fs).has_file(index_path(path@)) && index_accepts(
            old(fs).file_text(index_path(path@)),
        )) ==> ({
            &&& (*final(fs) == *old(fs) || (old(fs).can_create(chapters_dir(path@))
                && final(fs).has_dir(chapters_dir(path@))))
            &&& (old(fs).can_create(chapters_dir(path@)) ==> final(fs).has_dir(
                chapters_dir(path@),
            ))
            &&& forall|q: Seq<Seq<char>>|
                q != chapters_dir(path@) ==> #[trigger] final(fs).has(q) == old(fs).has(q)
            &&& forall|q: Seq<Seq<char>>|
                q != chapters_dir(path@) && old(fs).has(q) ==> #[trigger] final(fs).at(q) == old(
                    fs,
                ).at(q)
            &&& (r is Some) == (final(fs).has_dir(chapters_dir(path@)) && names_distinct(
                child_dir_names(*final(fs), chapters_dir(path@)),
            ))
            &&& (r matches Some(p) ==> scanned_project(*final(fs), path@, p))
        }),
{
    let mut ip = split_path(path);
    ip.push(crate::saving::index_name());
    assert(ip.deep_view() =~= index_path(path@));
    match crate::vfs::read_file(fs, &ip) {
        Some(text) => {
            match parse_index(&text) {
                Some(p) => {
                    return Some(p);
                },
                None => {},
            }
        },
        None => {},
    }
    let mut cdir = split_path(path);
    cdir.push(crate::saving::chapters_name());
    assert(cdir.deep_view() =~= chapters_dir(path@));
    let _ = crate::vfs::create_dir(fs, &cdir);
    scan_project(fs, path)
}

/// Persists the project's snapshot into the index file inside its
/// root, overwriting what was there; a root whose index file cannot
/// be written leaves the tree untouched.
pub fn write_project_config(fs: &mut Vfs, project: &Project) -> (ok: bool)
    requires
        old(fs).wf(),
    ensures
        final(fs).wf(),
        final(fs).rename_supported == old(fs).rename_supported,
        ok == (old(fs).has_file(index_path(project.path@)) || old(fs).can_create(
            index_path(project.path@),
        )),
        !ok ==> *final(fs) == *old(fs),
        ok ==> final(fs).has_file(index_path(project.path@)) && final(fs).file_text(
            index_path(project.path@),
        ) == index_json(proj_v(*project)),
        forall|q: Seq<Seq<char>>|
            q != index_path(project.path@) ==> #[trigger] final(fs).has(q) == old(fs).has(q),
        forall|q: Seq<Seq<char>>|
            q != index_path(project.path@) && old(fs).has(q) ==> #[trigger] final(fs).at(q) == old(
                fs,
            ).at(q),
{
    let text = crate::index::index_text(project);
    let mut ip = split_path(&project.path);
    ip.push(crate::saving::index_name());
    assert(ip.deep_view() =~= index_path(project.path@));
    crate::vfs::write_file(fs, &ip, text)
}


/// Law of the load–save–load round trip: a tree in which
/// [`write_project_config`] has just persisted a well-formed
/// project holds an acceptable snapshot, and loading it parses to
/// exactly that project's snapshot — so the next
/// [`parse_project`] returns a project with the same path, the
/// same chapters in the same order, and the same active chapter,
/// without consulting the directory walk.
pub proof fn lemma_load_after_save(fs: Vfs, p: Project)
    requires
        p.wf(),
        fs.has_file(index_path(p.path@)),
        fs.file_text(index_path(p.path@)) == index_json(proj_v(p)),
    ensures
        index_accepts(fs.file_text(index_path(p.path@))),
        parse_index_spec(fs.file_text(index_path(p.path@))) == Some(proj_v(p)),
{
    crate::index::lemma_index_round_trip(p);
}

} // verus!
