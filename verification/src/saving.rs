//! The structural mutator: scaffolding a fresh project, adding a
//! chapter's directories, renaming and deleting paths, all against
//! the in-memory tree.

use crate::paths::split_comps;
use crate::paths::split_path;
use crate::project::Project;
use crate::vfs::{create_dir, move_subtree, remove_subtree, rewritten, under, write_file, NodeV, Vfs};
use vstd::prelude::*;

verus! {

/// Why a rename or delete was refused; the tree is untouched when
/// one of these comes back.
#[derive(PartialEq, Eq, Structural, Clone, Copy, Debug)]
pub enum MutateError {
    /// The path to rename or delete does not exist.
    SourceMissing,
    /// Something already stands at the rename target.
    TargetExists,
    /// The parent of the rename target does not exist or may not be
    /// written.
    TargetNotCreatable,
    /// The rename target lies inside the tree being moved.
    TargetInsideSource,
}

/// Whether `q` is one of the five paths the project scaffold under
/// `path` consists of.
pub open spec fn scaffold_path(path: Seq<char>, q: Seq<Seq<char>>) -> bool {
    let rv = split_comps(path);
    ||| q == rv
    ||| q == rv.push("Chapters"@)
    ||| q == rv.push("Backups"@)
    ||| q == rv.push("Exports"@)
    ||| q == rv.push(".papersmith.json"@)
}

/// Builds the scaffolding of a fresh project: the root directory,
/// `Chapters`, `Backups` and `Exports` under it, and an empty index
/// file.  Each piece is created only where the tree allows it, as
/// the filesystem would; when the root could be created, the whole
/// scaffold stands afterwards.  Nothing outside the five scaffold
/// paths is touched.
#[verifier::rlimit(100)]
#[verifier::spinoff_prover]
pub fn create_project_dirs(fs: &mut Vfs, path: &String)
    requires
        old(fs).wf(),
    ensures
        final(fs).wf(),
        final(fs).rename_supported == old(fs).rename_supported,
        old(fs).can_create(split_comps(path@)) ==> ({
            let rv = split_comps(path@);
            &&& final(fs).has_dir(rv)
            &&& final(fs).has_dir(rv.push("Chapters"@))
            &&& final(fs).has_dir(rv.push("Backups"@))
            &&& final(fs).has_dir(rv.push("Exports"@))
            &&& final(fs).has_file(rv.push(".papersmith.json"@))
            &&& final(fs).file_text(rv.push(".papersmith.json"@)) == Seq::<char>::empty()
        }),
        forall|q: Seq<Seq<char>>|
            !scaffold_path(path@, q) ==> #[trigger] final(fs).has(q) == old(fs).has(q),
        forall|q: Seq<Seq<char>>|
            !scaffold_path(path@, q) && old(fs).has(q) ==> #[trigger] final(fs).at(q) == old(
                fs,
            ).at(q),
{
    proof {
        reveal_strlit("Chapters");
        reveal_strlit("Backups");
        reveal_strlit("Exports");
        reveal_strlit(".papersmith.json");
    }
    let root = split_path(path);
    let ghost rv = root.deep_view();
    if root.len() == 0 {
        return ;
    }
    let ghost creatable = old(fs).can_create(rv);
    proof {
        if creatable {
            assert forall|q: Seq<Seq<char>>| old(fs).has(q) implies !under(rv, q) by {
                old(fs).lemma_no_orphans(rv, q);
            }
        }
        assert("Chapters"@.len() == 8 && "Backups"@.len() == 7 && "Exports"@.len() == 7
            && ".papersmith.json"@.len() == 16);
        assert("Backups"@[0] != "Exports"@[0]);
    }
    let made_root = create_dir(fs, &root);
    let ghost f1 = *fs;
    let mut sub = crate::vfs::clone_path(&root);
    sub.push(chapters_name());
    assert(sub.deep_view() =~= rv.push("Chapters"@));
    proof {
        if creatable {
            assert(sub.deep_view().drop_last() =~= rv);
            assert(!old(fs).has(sub.deep_view())) by {
                if old(fs).has(sub.deep_view()) {
                    assert(under(rv, sub.deep_view())) by {
                        assert(sub.deep_view().take(rv.len() as int) =~= rv);
                    }
                }
            }
        }
    }
    let made_ch = create_dir(fs, &sub);
    let ghost f2 = *fs;
    let ghost ch = sub.deep_view();
    let _ = sub.pop();
    sub.push(backups_name());
    assert(sub.deep_view() =~= rv.push("Backups"@));
    proof {
        if creatable {
            assert(sub.deep_view().drop_last() =~= rv);
            assert(!old(fs).has(sub.deep_view())) by {
                if old(fs).has(sub.deep_view()) {
                    assert(under(rv, sub.deep_view())) by {
                        assert(sub.deep_view().take(rv.len() as int) =~= rv);
                    }
                }
            }
            assert(sub.deep_view() != ch) by {
                if sub.deep_view() == ch {
                    assert(sub.deep_view().last() == ch.last());
                }
            }
            assert(sub.deep_view() != rv);
        }
    }
    let made_ba = create_dir(fs, &sub);
    let ghost f3 = *fs;
    let ghost ba = sub.deep_view();
    let _ = sub.pop();
    sub.push(exports_name());
    assert(sub.deep_view() =~= rv.push("Exports"@));
    proof {
        if creatable {
            assert(sub.deep_view().drop_last() =~= rv);
            assert(!old(fs).has(sub.deep_view())) by {
                if old(fs).has(sub.deep_view()) {
                    assert(under(rv, sub.deep_view())) by {
                        assert(sub.deep_view().take(rv.len() as int) =~= rv);
                    }
                }
            }
            assert(sub.deep_view() != ch) by {
                if sub.deep_view() == ch {
                    assert(sub.deep_view().last() == ch.last());
                }
            }
            assert(sub.deep_view() != ba) by {
                if sub.deep_view() == ba {
                    assert(sub.deep_view().last() == ba.last());
                }
            }
            assert(sub.deep_view() != rv);
        }
    }
    let made_ex = create_dir(fs, &sub);
    let ghost f4 = *fs;
    let ghost ex = sub.deep_view();
    let _ = sub.pop();
    sub.push(index_name());
    assert(sub.deep_view() =~= rv.push(".papersmith.json"@));
    proof {
        if creatable {
            assert(sub.deep_view().drop_last() =~= rv);
            assert(!old(fs).has(sub.deep_view())) by {
                if old(fs).has(sub.deep_view()) {
                    assert(under(rv, sub.deep_view())) by {
                        assert(sub.deep_view().take(rv.len() as int) =~= rv);
                    }
                }
            }
            assert(sub.deep_view() != ch) by {
                if sub.deep_view() == ch {
                    assert(sub.deep_view().last() == ch.last());
                }
            }
            assert(sub.deep_view() != ba) by {
                if sub.deep_view() == ba {
                    assert(sub.deep_view().last() == ba.last());
                }
            }
            assert(sub.deep_view() != ex) by {
                if sub.deep_view() == ex {
                    assert(sub.deep_view().last() == ex.last());
                }
            }
            assert(sub.deep_view() != rv);
        }
    }
    let made_ix = write_file(fs, &sub, Vec::new());
    let ghost ix = sub.deep_view();
    proof {
        if creatable {
            assert(made_root && made_ch && made_ba && made_ex && made_ix);
            assert(fs.has_dir(rv) && fs.has_dir(ch) && fs.has_dir(ba) && fs.has_dir(ex));
        }
        assert forall|q: Seq<Seq<char>>| !scaffold_path(path@, q) implies #[trigger] fs.has(q)
            == old(fs).has(q) by {
            assert(q != rv && q != ch && q != ba && q != ex && q != ix);
            assert(f1.has(q) == old(fs).has(q));
            assert(f2.has(q) == f1.has(q));
            assert(f3.has(q) == f2.has(q));
            assert(f4.has(q) == f3.has(q));
            assert(fs.has(q) == f4.has(q));
        }
        assert forall|q: Seq<Seq<char>>| !scaffold_path(path@, q) && old(fs).has(
            q,
        ) implies #[trigger] fs.at(q) == old(fs).at(q) by {
            assert(q != rv && q != ch && q != ba && q != ex && q != ix);
            assert(f1.has(q) == old(fs).has(q) && f2.has(q) == f1.has(q) && f3.has(q) == f2.has(q)
                && f4.has(q) == f3.has(q));
            assert(f1.at(q) == old(fs).at(q));
            assert(f2.at(q) == f1.at(q));
            assert(f3.at(q) == f2.at(q));
            assert(f4.at(q) == f3.at(q));
            assert(fs.at(q) == f4.at(q));
        }
    }
}

/// Creates a fresh project at `path`: scaffolds the root with its
/// `Chapters`, `Backups` and `Exports` areas and an empty index
/// file, then loads the result.  On a root that could be created,
/// the freshly scanned project comes back: empty, with no active
/// chapter.
#[verifier::rlimit(100)]
#[verifier::spinoff_prover]
pub fn create_project(fs: &mut Vfs, path: &String) -> (r: Option<Project>)
    requires
        old(fs).wf(),
    ensures
        final(fs).wf(),
        final(fs).rename_supported == old(fs).rename_supported,
        old(fs).can_create(split_comps(path@)) ==> ({
            let rv = split_comps(path@);
            &&& final(fs).has_dir(rv)
            &&& final(fs).has_dir(rv.push("Chapters"@))
            &&& final(fs).has_dir(rv.push("Backups"@))
            &&& final(fs).has_dir(rv.push("Exports"@))
            &&& final(fs).has_file(rv.push(".papersmith.json"@))
            &&& r matches Some(p) && p.wf() && p.path@ == path@ && p.chapters@.len() == 0 && (
            p.active_chapter matches Option::<usize>::None)
        }),
{
    let ghost pre = *old(fs);
    let ghost rv = split_comps(path@);
    let ghost cd = crate::loader::chapters_dir(path@);
    let ghost ip = crate::loader::index_path(path@);
    proof {
        reveal_strlit("Chapters");
        reveal_strlit(".papersmith.json");
        if pre.can_create(rv) {
            assert forall|q: Seq<Seq<char>>| pre.has(q) implies !crate::vfs::under(rv, q) by {
                pre.lemma_no_orphans(rv, q);
            }
        }
    }
    create_project_dirs(fs, path);
    let ghost mid = *fs;
    let r = crate::loader::parse_project(fs, path);
    proof {
        if pre.can_create(rv) {
            assert(cd == rv.push("Chapters"@));
            assert(ip == rv.push(".papersmith.json"@));
            // the fresh index file is empty, so the loader falls back to the scan
            assert(mid.has_file(ip) && mid.file_text(ip) == Seq::<char>::empty());
            crate::index::lemma_empty_index_rejected();
            assert(!crate::index::index_accepts(mid.file_text(ip)));
            // the chapters area already exists, so the fallback leaves the tree alone
            assert(mid.has_dir(cd));
            assert(!mid.can_create(cd));
            assert(*fs == mid);
            // nothing sits inside the fresh chapters area
            assert forall|i: int|
                0 <= i < mid.entries@.len() implies !crate::vfs::is_child_dir(
                #[trigger] mid.entries@[i],
                cd,
            ) by {
                if crate::vfs::is_child_dir(mid.entries@[i], cd) {
                    let q = mid.entries@[i].path.deep_view();
                    mid.lemma_entry_at(i);
                    assert(mid.has(q));
                    assert(q.len() == cd.len() + 1);
                    assert(!scaffold_path(path@, q)) by {
                        assert(rv.len() < q.len() && rv.push("Chapters"@).len() < q.len()
                            && rv.push("Backups"@).len() < q.len() && rv.push("Exports"@).len()
                            < q.len() && rv.push(".papersmith.json"@).len() < q.len());
                    }
                    assert(pre.has(q));
                    assert(crate::vfs::under(rv, q)) by {
                        assert(crate::vfs::under(cd, q));
                        assert(q.take(rv.len() as int) =~= cd.take(rv.len() as int));
                        assert(cd.take(rv.len() as int) =~= rv);
                    }
                }
            }
            crate::vfs::lemma_filter_empty(
                mid.entries@,
                |e: crate::vfs::VfsEntry| crate::vfs::is_child_dir(e, cd),
            );
            assert(crate::vfs::child_dir_names(mid, cd) =~= Seq::<Seq<char>>::empty());
            assert(crate::loader::names_distinct(crate::vfs::child_dir_names(mid, cd)));
            assert(r is Some);
            let ghost pj = r->Some_0;
            assert(crate::loader::scanned_project(mid, path@, pj));
            assert(crate::project::chapter_names(pj.chapters@).len() == 0);
            assert(pj.chapters@.len() == 0);
        }
    }
    r
}

/// The name of the chapters directory.
pub fn chapters_name() -> (r: String)
    ensures
        r@ == "Chapters"@,
{
    "Chapters".to_owned()
}

/// The name of the backups directory.
pub fn backups_name() -> (r: String)
    ensures
        r@ == "Backups"@,
{
    "Backups".to_owned()
}

/// The name of the exports directory.
pub fn exports_name() -> (r: String)
    ensures
        r@ == "Exports"@,
{
    "Exports".to_owned()
}

/// The name of the hidden index file inside a project root.
pub fn index_name() -> (r: String)
    ensures
        r@ == ".papersmith.json"@,
{
    ".papersmith.json".to_owned()
}

/// The path of the directory of the chapter `name` under the
/// project root `path`.
pub open spec fn chapter_dir(path: Seq<char>, name: Seq<char>) -> Seq<Seq<char>> {
    split_comps(path).push("Chapters"@).push(name)
}

/// Creates the directory layout of a new chapter: its directory
/// under `Chapters`, `Notes` and `Extras` inside it, and an empty
/// `Content.md` placeholder.  When the chapter directory cannot be
/// created nothing changes and `false` comes back; the set of
/// chapter directories then grows by exactly the new name.
#[verifier::rlimit(100)]
#[verifier::spinoff_prover]
pub fn add_chapter(fs: &mut Vfs, path: &String, name: &String) -> (ok: bool)
    requires
        old(fs).wf(),
    ensures
        final(fs).wf(),
        final(fs).rename_supported == old(fs).rename_supported,
        ok == old(fs).can_create(chapter_dir(path@, name@)),
        !ok ==> *final(fs) == *old(fs),
        ok ==> final(fs).has_dir(chapter_dir(path@, name@)),
        ok ==> forall|q: Seq<Seq<char>>|
            !under(chapter_dir(path@, name@), q) ==> #[trigger] final(fs).has(q) == old(fs).has(
                q,
            ),
        ok ==> forall|q: Seq<Seq<char>>|
            !under(chapter_dir(path@, name@), q) && old(fs).has(q) ==> #[trigger] final(fs).at(q)
                == old(fs).at(q),
        ok ==> final(fs).has_dir(chapter_dir(path@, name@).push("Notes"@)),
        ok ==> final(fs).has_dir(chapter_dir(path@, name@).push("Extras"@)),
        ok ==> final(fs).has_file(chapter_dir(path@, name@).push("Content.md"@)),
        ok ==> forall|q: Seq<Seq<char>>|
            under(chapter_dir(path@, name@), q) ==> (#[trigger] final(fs).has(q) == (q
                == chapter_dir(path@, name@) || q == chapter_dir(path@, name@).push("Notes"@) || q
                == chapter_dir(path@, name@).push("Extras"@) || q == chapter_dir(
                path@,
                name@,
            ).push("Content.md"@))),
{
    let mut dir = split_path(path);
    dir.push(chapters_name());
    dir.push(name.clone());
    assert(dir.deep_view() =~= chapter_dir(path@, name@));
    let ghost cd = dir.deep_view();
    proof {
        if old(fs).can_create(cd) {
            assert forall|q: Seq<Seq<char>>| old(fs).has(q) implies !under(cd, q) by {
                old(fs).lemma_no_orphans(cd, q);
            }
        }
    }
    if !create_dir(fs, &dir) {
        return false;
    }
    proof {
        assert forall|q: Seq<Seq<char>>| under(cd, q) && q != cd implies !fs.has(q) by {
            assert(!old(fs).has(q));
        }
    }
    let ghost mid = *fs;
    fill_chapter_dir(fs, &dir);
    proof {
        assert forall|q: Seq<Seq<char>>| !under(cd, q) implies #[trigger] fs.has(q) == old(
            fs,
        ).has(q) by {
            assert(q != cd);
            assert(mid.has(q) == old(fs).has(q));
            assert(fs.has(q) == mid.has(q));
        }
        assert forall|q: Seq<Seq<char>>| !under(cd, q) && old(fs).has(q) implies #[trigger] fs.at(
            q,
        ) == old(fs).at(q) by {
            assert(q != cd);
            assert(mid.has(q) == old(fs).has(q));
            assert(mid.at(q) == old(fs).at(q));
            assert(fs.at(q) == mid.at(q));
        }
    }
    true
}

/// Fills a freshly created chapter directory, and nothing else, with
/// its `Notes` and `Extras` directories and an empty `Content.md`.
#[verifier::rlimit(100)]
#[verifier::spinoff_prover]
fn fill_chapter_dir(fs: &mut Vfs, dir: &Vec<String>)
    requires
        old(fs).wf(),
        dir@.len() >= 1,
        old(fs).has_dir(dir.deep_view()),
        old(fs).at(dir.deep_view()) == (NodeV::DirV { writable: true }),
        forall|q: Seq<Seq<char>>| under(dir.deep_view(), q) && q != dir.deep_view() ==> !old(fs).has(q),
    ensures
        final(fs).wf(),
        final(fs).rename_supported == old(fs).rename_supported,
        final(fs).has_dir(dir.deep_view()),
        final(fs).has_dir(dir.deep_view().push("Notes"@)),
        final(fs).has_dir(dir.deep_view().push("Extras"@)),
        final(fs).has_file(dir.deep_view().push("Content.md"@)),
        forall|q: Seq<Seq<char>>|
            !under(dir.deep_view(), q) ==> #[trigger] final(fs).has(q) == old(fs).has(q),
        forall|q: Seq<Seq<char>>|
            !under(dir.deep_view(), q) && old(fs).has(q) ==> #[trigger] final(fs).at(q) == old(
                fs,
            ).at(q),
        forall|q: Seq<Seq<char>>|
            under(dir.deep_view(), q) ==> (#[trigger] final(fs).has(q) == (q == dir.deep_view()
                || q == dir.deep_view().push("Notes"@) || q == dir.deep_view().push("Extras"@) || q
                == dir.deep_view().push("Content.md"@))),
{
    proof {
        reveal_strlit("Notes");
        reveal_strlit("Extras");
        reveal_strlit("Content.md");
        assert("Notes"@.len() == 5 && "Extras"@.len() == 6 && "Content.md"@.len() == 10);
    }
    let ghost cd = dir.deep_view();
    let mut sub = crate::vfs::clone_path(dir);
    sub.push("Notes".to_owned());
    assert(sub.deep_view() =~= cd.push("Notes"@));
    proof {
        assert(under(cd, sub.deep_view())) by {
            assert(sub.deep_view().take(cd.len() as int) =~= cd);
        }
        assert(sub.deep_view().drop_last() =~= cd);
    }
    let r1 = create_dir(fs, &sub);
    assert(r1);
    let ghost nt = sub.deep_view();
    let _ = sub.pop();
    sub.push("Extras".to_owned());
    assert(sub.deep_view() =~= cd.push("Extras"@));
    proof {
        assert(under(cd, sub.deep_view())) by {
            assert(sub.deep_view().take(cd.len() as int) =~= cd);
        }
        assert(sub.deep_view().drop_last() =~= cd);
        assert(sub.deep_view() != nt) by {
            if sub.deep_view() == nt {
                assert(sub.deep_view().last() == nt.last());
            }
        }
        assert(sub.deep_view() != cd);
    }
    let r2 = create_dir(fs, &sub);
    assert(r2);
    let ghost ex = sub.deep_view();
    let _ = sub.pop();
    sub.push("Content.md".to_owned());
    assert(sub.deep_view() =~= cd.push("Content.md"@));
    proof {
        assert(under(cd, sub.deep_view())) by {
            assert(sub.deep_view().take(cd.len() as int) =~= cd);
        }
        assert(sub.deep_view().drop_last() =~= cd);
        assert(sub.deep_view() != nt) by {
            if sub.deep_view() == nt {
                assert(sub.deep_view().last() == nt.last());
            }
        }
        assert(sub.deep_view() != ex) by {
            if sub.deep_view() == ex {
                assert(sub.deep_view().last() == ex.last());
            }
        }
        assert(sub.deep_view() != cd);
    }
    let r3 = write_file(fs, &sub, Vec::new());
    assert(r3);
    proof {
        assert forall|q: Seq<Seq<char>>|
            !under(cd, q) implies #[trigger] fs.has(q) == old(fs).has(q) && (old(fs).has(q)
                ==> fs.at(q) == old(fs).at(q)) by {
            assert(q != cd);
            assert(q != nt) by {
                if q == nt {
                    assert(q.take(cd.len() as int) =~= cd);
                }
            }
            assert(q != ex) by {
                if q == ex {
                    assert(q.take(cd.len() as int) =~= cd);
                }
            }
            assert(q != cd.push("Content.md"@)) by {
                if q == cd.push("Content.md"@) {
                    assert(q.take(cd.len() as int) =~= cd);
                }
            }
        }
        assert(fs.has_dir(cd)) by {
            assert(cd.len() < nt.len() && cd.len() < ex.len() && cd.len() < cd.push(
                "Content.md"@,
            ).len());
        }
        assert forall|q: Seq<Seq<char>>| under(cd, q) implies (#[trigger] fs.has(q) == (q == cd
            || q == nt || q == ex || q == cd.push("Content.md"@))) by {
            if q == cd || q == nt || q == ex || q == cd.push("Content.md"@) {
                assert(fs.has(q));
            } else {
                assert(!old(fs).has(q));
                assert(fs.has(q) == old(fs).has(q));
            }
        }
    }
}

/// Moves `base/old` to `base/new`.  The move preserves every nested
/// file and directory exactly; when the plain rename is unsupported
/// it copies the whole tree and removes the source.  A missing
/// source, an occupied or uncreatable target, or a target inside
/// the source leaves the tree untouched and reports why.
pub fn rename_path(fs: &mut Vfs, base: &String, old_name: &String, new_name: &String) -> (r:
    Result<(), MutateError>)
    requires
        old(fs).wf(),
    ensures
        final(fs).wf(),
        final(fs).rename_supported == old(fs).rename_supported,
        r is Err ==> *final(fs) == *old(fs),
        ({
            let ov = split_comps(base@).push(old_name@);
            let nv = split_comps(base@).push(new_name@);
            &&& (r matches Err(MutateError::SourceMissing) <==> !old(fs).has(ov))
            &&& (r matches Err(MutateError::TargetExists) <==> old(fs).has(ov) && old(fs).has(nv))
            &&& (r matches Err(MutateError::TargetInsideSource) <==> old(fs).has(ov) && !old(
                fs,
            ).has(nv) && under(ov, nv))
            &&& (r matches Err(MutateError::TargetNotCreatable) <==> old(fs).has(ov) && !old(
                fs,
            ).has(nv) && !under(ov, nv) && !old(fs).can_create(nv))
            &&& (r is Ok <==> old(fs).has(ov) && old(fs).can_create(nv) && !under(ov, nv))
            &&& (r is Ok ==> forall|q: Seq<Seq<char>>|
                old(fs).has(q) && under(ov, q) ==> final(fs).has(#[trigger] rewritten(q, ov, nv))
                    && final(fs).at(rewritten(q, ov, nv)) == old(fs).at(q))
            &&& (r is Ok ==> forall|q: Seq<Seq<char>>|
                old(fs).has(q) && !under(ov, q) ==> #[trigger] final(fs).has(q) && final(fs).at(q)
                    == old(fs).at(q))
            &&& (r is Ok ==> forall|q: Seq<Seq<char>>|
                #[trigger] final(fs).has(q) ==> (old(fs).has(q) && !under(ov, q)) || (under(nv, q)
                    && old(fs).has(ov + q.skip(nv.len() as int))))
        }),
{
    let mut oldp = split_path(base);
    oldp.push(old_name.clone());
    let mut newp = split_path(base);
    newp.push(new_name.clone());
    assert(oldp.deep_view() =~= split_comps(base@).push(old_name@));
    assert(newp.deep_view() =~= split_comps(base@).push(new_name@));
    if let None = crate::vfs::lookup(fs, &oldp) {
        return Err(MutateError::SourceMissing);
    }
    if let Some(_) = crate::vfs::lookup(fs, &newp) {
        return Err(MutateError::TargetExists);
    }
    if crate::vfs::path_starts_with(&newp, &oldp) {
        return Err(MutateError::TargetInsideSource);
    }
    if move_subtree(fs, &oldp, &newp) {
        Ok(())
    } else {
        Err(MutateError::TargetNotCreatable)
    }
}

/// Recursively removes the directory or file at `path` and
/// everything below it; a missing path reports why and removes
/// nothing.
pub fn delete_path(fs: &mut Vfs, path: &String) -> (r: Result<(), MutateError>)
    requires
        old(fs).wf(),
    ensures
        final(fs).wf(),
        final(fs).rename_supported == old(fs).rename_supported,
        r is Err ==> *final(fs) == *old(fs) && !old(fs).has(split_comps(path@)),
        r is Ok <==> old(fs).has(split_comps(path@)),
        r is Ok ==> forall|q: Seq<Seq<char>>|
            #[trigger] final(fs).has(q) == (old(fs).has(q) && !under(split_comps(path@), q)),
        r is Ok ==> forall|q: Seq<Seq<char>>|
            final(fs).has(q) ==> #[trigger] final(fs).at(q) == old(fs).at(q),
{
    let p = split_path(path);
    if p.len() == 0 {
        proof {
            assert(split_comps(path@).len() == 0);
            if old(fs).has(split_comps(path@)) {
                let i = old(fs).entry_index(split_comps(path@));
                assert(old(fs).entries@[i].path.deep_view() == split_comps(path@));
                assert(old(fs).entries@[i].path.deep_view().len() == old(fs).entries@[
                i].path@.len());
                assert(old(fs).entries@[i].path@.len() >= 1);
            }
        }
        return Err(MutateError::SourceMissing);
    }
    if let None = crate::vfs::lookup(fs, &p) {
        return Err(MutateError::SourceMissing);
    }
    let _ = remove_subtree(fs, &p);
    Ok(())
}

} // verus!
