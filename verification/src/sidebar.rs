//! The sidebar's model logic: reordering chapters by drag and drop,
//! deleting and appending chapters, and the status of each chapter
//! row, all as patches on the in-memory [`Project`].

use crate::project::{Chapter, Project};
use crate::digits::dec_digits;
use crate::digits::push_digits;
use crate::vfs::Vfs;
use vstd::pervasive::VecAdditionalExecFns;
use vstd::prelude::*;

verus! {

broadcast use vstd::seq_lib::group_to_multiset_ensures;

/// The visual state of a chapter row: not open, open, or open with
/// an edit buffer that diverges from disk.
#[derive(PartialEq, Eq, Structural, Clone, Copy, Debug)]
pub enum ChapterStatus {
    Normal,
    Active,
    ActiveChanges,
}

/// The status of the chapter at `index`: active when it is the open
/// chapter, with a mark when unsaved changes exist.
pub fn chapter_status(active_chapter: Option<usize>, changes: bool, index: usize) -> (s:
    ChapterStatus)
    ensures
        s == (if active_chapter == Some(index) {
            if changes {
                ChapterStatus::ActiveChanges
            } else {
                ChapterStatus::Active
            }
        } else {
            ChapterStatus::Normal
        }),
{
    match active_chapter {
        Some(i) => {
            if i == index {
                if changes {
                    ChapterStatus::ActiveChanges
                } else {
                    ChapterStatus::Active
                }
            } else {
                ChapterStatus::Normal
            }
        },
        None => ChapterStatus::Normal,
    }
}

/// The chapter order after dragging the chapter at `dragger` to the
/// slot `slot` (slot boundaries run between chapters, before the
/// first and after the last): the dragged chapter is removed and
/// reinserted at the slot, adjusted down by one when the original
/// index was before the insertion slot.
pub open spec fn reorder_target(dragger: int, slot: int) -> int {
    if dragger < slot {
        slot - 1
    } else {
        slot
    }
}

/// The active-chapter index after the drag: the slot the dragged
/// chapter landed in when the active chapter was dragged, the slot
/// it was displaced from when the dragged chapter landed on it, and
/// unchanged otherwise.
pub open spec fn reorder_active(active: Option<usize>, dragger: int, slot: int) -> Option<usize> {
    match active {
        None => None,
        Some(a) => {
            if a == dragger {
                Some(reorder_target(dragger, slot) as usize)
            } else if a == reorder_target(dragger, slot) {
                Some(dragger as usize)
            } else {
                Some(a)
            }
        },
    }
}

/// Moves the chapter at index `dragger` to slot `slot` and remaps
/// the active chapter so that it keeps pointing at the chapter the
/// remap rule names.  The multiset of chapters is preserved.
pub fn reorder_chapters(project: &mut Project, dragger: usize, slot: usize)
    requires
        old(project).wf(),
        dragger < old(project).chapters@.len(),
        slot <= old(project).chapters@.len(),
    ensures
        final(project).wf(),
        final(project).path == old(project).path,
        final(project).chapters@ == old(project).chapters@.remove(dragger as int).insert(
            reorder_target(dragger as int, slot as int),
            old(project).chapters@[dragger as int],
        ),
        final(project).active_chapter == reorder_active(
            old(project).active_chapter,
            dragger as int,
            slot as int,
        ),
        final(project).chapters@.to_multiset() == old(project).chapters@.to_multiset(),
{
    let ghost pre = *project;
    let adjusted: usize = if dragger < slot {
        slot - 1
    } else {
        slot
    };
    let chapter = project.chapters.remove(dragger);
    project.chapters.insert(adjusted, chapter);
    match project.active_chapter {
        None => {},
        Some(a) => {
            if a == adjusted {
                project.active_chapter = Some(dragger);
            }
            if a == dragger {
                project.active_chapter = Some(adjusted);
            }
        },
    }
    proof {
        let d = dragger as int;
        let t = adjusted as int;
        let s0 = pre.chapters@;
        let s1 = s0.remove(d);
        let s2 = s1.insert(t, s0[d]);
        assert(project.chapters@ == s2);
        lemma_remove_insert_multiset(s0, d, t);
        assert forall|i: int, j: int|
            0 <= i < j < s2.len() implies (#[trigger] s2[i]).name@ != (
        #[trigger] s2[j]).name@ by {
            let oi = reorder_source(i, d, t);
            let oj = reorder_source(j, d, t);
            assert(s2[i] == s0[oi]);
            assert(s2[j] == s0[oj]);
            assert(oi != oj);
            if oi < oj {
                assert(s0[oi].name@ != s0[oj].name@);
            } else {
                assert(s0[oj].name@ != s0[oi].name@);
            }
        }
        assert(project.wf());
    }
}

/// The index in the order before a drag of the chapter that stands
/// at `i` after a drag that moved index `d` to resting place `t`.
pub open spec fn reorder_source(i: int, d: int, t: int) -> int {
    if i == t {
        d
    } else if d <= i < t {
        i + 1
    } else if t < i <= d {
        i - 1
    } else {
        i
    }
}

/// Removing index `d` and reinserting the removed element at `t`
/// leaves the multiset of elements unchanged.
proof fn lemma_remove_insert_multiset(s: Seq<Chapter>, d: int, t: int)
    requires
        0 <= d < s.len(),
        0 <= t <= s.len() - 1,
    ensures
        s.remove(d).insert(t, s[d]).to_multiset() == s.to_multiset(),
{
    broadcast use vstd::multiset::group_multiset_axioms;

    let a = s[d];
    let r = s.remove(d);
    s.to_multiset_ensures();
    let s0 = r.subrange(0, t);
    let s1 = r.subrange(t, r.len() as int);
    assert(r =~= s0 + s1);
    vstd::seq_lib::lemma_multiset_commutative(s0, s1);
    vstd::seq_lib::lemma_multiset_commutative(s0.push(a), s1);
    s0.to_multiset_ensures();
    assert(r.insert(t, a) == s0.push(a) + s1);
    assert(r.insert(t, a).to_multiset() =~= r.to_multiset().insert(a));
    assert(s.contains(a));
    assert(r.to_multiset() =~= s.to_multiset().remove(a));
    assert(s.to_multiset().remove(a).insert(a) =~= s.to_multiset());
    assert(r.insert(t, a).to_multiset() =~= s.to_multiset());
}

/// Law of the drag remap: when the active chapter is the dragged
/// chapter itself, or the chapter displaced by a drag over one
/// position, the remapped active index names the same chapter after
/// the drag as before it.
pub proof fn lemma_reorder_keeps_active_chapter(
    p0: Project,
    p1: Project,
    dragger: usize,
    slot: usize,
    a: usize,
)
    requires
        p0.wf(),
        dragger < p0.chapters@.len(),
        slot <= p0.chapters@.len(),
        p0.active_chapter == Some(a),
        a == dragger || (a as int == reorder_target(dragger as int, slot as int) && (
        reorder_target(dragger as int, slot as int) == dragger + 1 || reorder_target(
            dragger as int,
            slot as int,
        ) + 1 == dragger)),
        p1.chapters@ == p0.chapters@.remove(dragger as int).insert(
            reorder_target(dragger as int, slot as int),
            p0.chapters@[dragger as int],
        ),
        p1.active_chapter == reorder_active(p0.active_chapter, dragger as int, slot as int),
    ensures
        p1.active_chapter matches Some(a1) && p1.chapters@[a1 as int] == p0.chapters@[a as int],
{
    let d = dragger as int;
    let t = reorder_target(d, slot as int);
    let s0 = p0.chapters@;
    let s1 = s0.remove(d);
    let s2 = s1.insert(t, s0[d]);
    assert(s2.len() == s0.len());
    if a == dragger {
        assert(p1.active_chapter == Some(t as usize));
        assert(s2[t] == s0[d]);
    } else {
        assert(a as int == t);
        assert(p1.active_chapter == Some(dragger));
        assert(s2[d] == s0[a as int]) by {
            if d < t {
                assert(t == d + 1);
                assert(s2[d] == s1[d]);
                assert(s1[d] == s0[d + 1]);
            } else {
                assert(t + 1 == d);
                assert(s2[d] == s1[d - 1]);
                assert(s1[d - 1] == s0[d - 1]);
            }
        }
    }
}

/// Opens the chapter at `index`, as the row state machine asks:
/// while the open chapter has unsaved changes, switching needs an
/// explicit confirmation, and a refused switch leaves the model
/// alone.  On success the chapter becomes the active one.
pub fn select_chapter(
    project: &mut Project,
    index: usize,
    unsaved_changes: bool,
    confirmed: bool,
) -> (ok: bool)
    requires
        old(project).wf(),
        index < old(project).chapters@.len(),
    ensures
        final(project).wf(),
        ok == (!unsaved_changes || confirmed),
        !ok ==> *final(project) == *old(project),
        ok ==> final(project).chapters == old(project).chapters && final(project).path == old(
            project,
        ).path && final(project).active_chapter == Some(index),
{
    if unsaved_changes && !confirmed {
        return false;
    }
    project.active_chapter = Some(index);
    true
}

/// The active-chapter index after removing the chapter at `removed`:
/// cleared when the removed chapter was active, shifted down by one
/// when a later chapter was active, unchanged otherwise.
pub open spec fn delete_active(active: Option<usize>, removed: int) -> Option<usize> {
    match active {
        None => None,
        Some(a) => {
            if a == removed {
                None
            } else if a > removed {
                Some((a - 1) as usize)
            } else {
                Some(a)
            }
        },
    }
}

/// Removes the chapter named `name` from the model, remapping the
/// active chapter; a name not in the project removes nothing.
pub fn delete_chapter(project: &mut Project, name: &String) -> (removed: bool)
    requires
        old(project).wf(),
    ensures
        final(project).wf(),
        final(project).path == old(project).path,
        removed == old(project).names().contains(name@),
        !removed ==> *final(project) == *old(project),
        removed ==> ({
            let i = old(project).names().index_of(name@);
            &&& final(project).chapters@ == old(project).chapters@.remove(i)
            &&& final(project).active_chapter == delete_active(old(project).active_chapter, i)
        }),
{
    let ghost pre = *project;
    let n = project.chapters.len();
    let mut idx: usize = 0;
    let mut found = false;
    for j in 0..n
        invariant
            *project == pre,
            pre.wf(),
            n == pre.chapters@.len(),
            !found ==> idx == 0 && forall|k: int| 0 <= k < j ==> pre.names()[k] != name@,
            found ==> idx < n && idx < j && pre.names()[idx as int] == name@ && forall|k: int|
                0 <= k < idx ==> pre.names()[k] != name@,
            found ==> forall|k: int| 0 <= k < j && k != idx ==> pre.names()[k] != name@,
    {
        if !found && project.chapters[j].name == *name {
            idx = j;
            found = true;
        } else {
            proof {
                if project.chapters@[j as int].name@ == name@ {
                    assert(found);
                    assert(j != idx);
                    assert(pre.names()[idx as int] == name@);
                    if idx < j {
                        assert(pre.chapters@[idx as int].name@ != pre.chapters@[j as int].name@);
                    }
                    assert(false);
                }
            }
        }
    }
    if !found {
        proof {
            assert forall|k: int| 0 <= k < pre.names().len() implies pre.names()[k] != name@ by {}
            if pre.names().contains(name@) {
                let k = choose|k: int| 0 <= k < pre.names().len() && pre.names()[k] == name@;
            }
        }
        return false;
    }
    proof {
        assert(pre.names()[idx as int] == name@);
        assert(pre.names().contains(name@));
        let i0 = pre.names().index_of(name@);
        assert(pre.names()[i0] == name@);
        if i0 != idx as int {
            if i0 < idx as int {
                assert(pre.chapters@[i0].name@ != pre.chapters@[idx as int].name@);
            } else {
                assert(pre.chapters@[idx as int].name@ != pre.chapters@[i0].name@);
            }
            assert(false);
        }
    }
    let _ = project.chapters.remove(idx);
    match project.active_chapter {
        None => {},
        Some(a) => {
            if a == idx {
                project.active_chapter = None;
            } else if a > idx {
                project.active_chapter = Some(a - 1);
            }
        },
    }
    proof {
        let i = idx as int;
        let s2 = project.chapters@;
        assert forall|x: int, y: int|
            0 <= x < y < s2.len() implies (#[trigger] s2[x]).name@ != (#[trigger] s2[y]).name@ by {
            let ox: int = if x < i {
                x
            } else {
                x + 1
            };
            let oy: int = if y < i {
                y
            } else {
                y + 1
            };
            assert(s2[x] == pre.chapters@[ox]);
            assert(s2[y] == pre.chapters@[oy]);
            assert(pre.chapters@[ox].name@ != pre.chapters@[oy].name@);
        }
        assert(project.wf());
    }
    true
}

/// Appends a chapter with the given fresh name and no notes or
/// extras; the active chapter is unchanged.
pub fn push_chapter(project: &mut Project, name: String)
    requires
        old(project).wf(),
        !old(project).names().contains(name@),
    ensures
        final(project).wf(),
        final(project).path == old(project).path,
        final(project).active_chapter == old(project).active_chapter,
        final(project).chapters@.len() == old(project).chapters@.len() + 1,
        final(project).chapters@.last().name@ == name@,
        final(project).chapters@.last().notes@.len() == 0,
        final(project).chapters@.last().extras@.len() == 0,
        final(project).chapters@.drop_last() == old(project).chapters@,
        final(project).names().to_set() == old(project).names().to_set().insert(name@),
{
    let ghost pre = *project;
    let chapter = Chapter { name, notes: Vec::new(), extras: Vec::new() };
    let ghost nm = chapter.name@;
    project.chapters.push(chapter);
    proof {
        let s2 = project.chapters@;
        assert(s2.drop_last() =~= pre.chapters@);
        assert forall|x: int, y: int|
            0 <= x < y < s2.len() implies (#[trigger] s2[x]).name@ != (#[trigger] s2[y]).name@ by {
            if y == s2.len() - 1 {
                assert(s2[x] == pre.chapters@[x]);
                if pre.names()[x] == nm {
                    assert(pre.names().contains(nm));
                }
            }
        }
        assert(project.wf());
        assert(final(project).names().to_set() =~= old(project).names().to_set().insert(nm)) by {
            let ns2 = project.names();
            let ns0 = pre.names();
            assert forall|q: Seq<char>| ns2.to_set().contains(q) implies ns0.to_set().insert(
                nm,
            ).contains(q) by {
                let k = choose|k: int| 0 <= k < ns2.len() && ns2[k] == q;
                if k < ns0.len() {
                    assert(ns0[k] == q);
                    assert(ns0.contains(q));
                }
            }
            assert forall|q: Seq<char>| ns0.to_set().insert(nm).contains(q) implies
                ns2.to_set().contains(q) by {
                if q == nm {
                    assert(ns2[ns2.len() - 1] == q);
                    assert(ns2.contains(q));
                } else {
                    let k = choose|k: int| 0 <= k < ns0.len() && ns0[k] == q;
                    assert(ns2[k] == q);
                    assert(ns2.contains(q));
                }
            }
        }
    }
}

/// Renames every chapter called `old_name` to `new_name` in the
/// model, leaving positions, notes and extras alone.  The new name
/// must not collide with another chapter.
pub fn rename_chapter(project: &mut Project, old_name: &String, new_name: &String)
    requires
        old(project).wf(),
        old(project).names().contains(new_name@) ==> new_name@ == old_name@,
    ensures
        final(project).wf(),
        final(project).path == old(project).path,
        final(project).active_chapter == old(project).active_chapter,
        final(project).chapters@.len() == old(project).chapters@.len(),
        forall|i: int|
            0 <= i < old(project).chapters@.len() ==> {
                let c0 = old(project).chapters@[i];
                let c1 = #[trigger] final(project).chapters@[i];
                &&& c1.name@ == (if c0.name@ == old_name@ {
                    new_name@
                } else {
                    c0.name@
                })
                &&& c1.notes@ == c0.notes@
                &&& c1.extras@ == c0.extras@
            },
{
    let ghost pre = *project;
    let n = project.chapters.len();
    for j in 0..n
        invariant
            n == project.chapters@.len() == pre.chapters@.len(),
            project.path == pre.path,
            project.active_chapter == pre.active_chapter,
            pre.wf(),
            pre.names().contains(new_name@) ==> new_name@ == old_name@,
            forall|i: int| j <= i < n ==> #[trigger] project.chapters@[i] == pre.chapters@[i],
            forall|i: int|
                0 <= i < j ==> {
                    let c0 = pre.chapters@[i];
                    let c1 = #[trigger] project.chapters@[i];
                    &&& c1.name@ == (if c0.name@ == old_name@ {
                        new_name@
                    } else {
                        c0.name@
                    })
                    &&& c1.notes@ == c0.notes@
                    &&& c1.extras@ == c0.extras@
                },
    {
        if project.chapters[j].name == *old_name {
            let notes = take_strings(&project.chapters[j].notes);
            let extras = take_strings(&project.chapters[j].extras);
            project.chapters.set(
                j,
                Chapter { name: new_name.clone(), notes, extras },
            );
        }
    }
    proof {
        let s0 = pre.chapters@;
        let s2 = project.chapters@;
        assert forall|x: int, y: int|
            0 <= x < y < s2.len() implies (#[trigger] s2[x]).name@ != (#[trigger] s2[y]).name@ by {
            assert(s0[x].name@ != s0[y].name@);
            if s2[x].name@ == s2[y].name@ {
                if s0[x].name@ == old_name@ {
                    assert(s2[x].name@ == new_name@);
                    assert(s0[y].name@ == new_name@);
                    assert(pre.names()[y] == new_name@);
                    assert(pre.names().contains(new_name@));
                } else if s0[y].name@ == old_name@ {
                    assert(s2[y].name@ == new_name@);
                    assert(s0[x].name@ == new_name@);
                    assert(pre.names()[x] == new_name@);
                    assert(pre.names().contains(new_name@));
                }
            }
        }
        assert(project.wf());
    }
}

/// Removes every note called `title` from the chapter at
/// `chapter_index`, leaving everything else alone.
pub fn remove_note(project: &mut Project, chapter_index: usize, title: &String)
    requires
        old(project).wf(),
        chapter_index < old(project).chapters@.len(),
    ensures
        final(project).wf(),
        final(project).path == old(project).path,
        final(project).active_chapter == old(project).active_chapter,
        final(project).chapters@.len() == old(project).chapters@.len(),
        forall|i: int|
            0 <= i < old(project).chapters@.len() && i != chapter_index
                ==> #[trigger] final(project).chapters@[i] == old(project).chapters@[i],
        ({
            let c0 = old(project).chapters@[chapter_index as int];
            let c1 = final(project).chapters@[chapter_index as int];
            &&& c1.name@ == c0.name@
            &&& c1.extras@ == c0.extras@
            &&& c1.notes@ == c0.notes@.filter(|s: String| s@ != title@)
        }),
{
    let ghost pre = *project;
    let ghost keep = |s: String| s@ != title@;
    let n = project.chapters[chapter_index].notes.len();
    let mut kept: Vec<String> = Vec::new();
    for j in 0..n
        invariant
            *project == pre,
            chapter_index < pre.chapters@.len(),
            n == pre.chapters@[chapter_index as int].notes@.len(),
            keep == (|s: String| s@ != title@),
            kept@ == pre.chapters@[chapter_index as int].notes@.take(j as int).filter(keep),
    {
        let ghost notes0 = pre.chapters@[chapter_index as int].notes@;
        proof {
            assert(notes0.take(j + 1).drop_last() =~= notes0.take(j as int));
            assert(notes0.take(j + 1).last() == notes0[j as int]);
        }
        if project.chapters[chapter_index].notes[j] != *title {
            kept.push(project.chapters[chapter_index].notes[j].clone());
        }
        proof {
            reveal_with_fuel(Seq::<String>::filter, 2);
            assert(kept@ =~= notes0.take(j + 1).filter(keep));
        }
    }
    proof {
        let notes0 = pre.chapters@[chapter_index as int].notes@;
        assert(notes0.take(n as int) =~= notes0);
    }
    let name = project.chapters[chapter_index].name.clone();
    let extras = take_strings(&project.chapters[chapter_index].extras);
    project.chapters.set(chapter_index, Chapter { name, notes: kept, extras });
    proof {
        let s0 = pre.chapters@;
        let s2 = project.chapters@;
        assert forall|x: int, y: int|
            0 <= x < y < s2.len() implies (#[trigger] s2[x]).name@ != (#[trigger] s2[y]).name@ by {
            assert(s0[x].name@ != s0[y].name@);
        }
        assert(project.wf());
    }
}

/// A copy of a list of strings, value for value.
fn take_strings(v: &Vec<String>) -> (r: Vec<String>)
    ensures
        r@ == v@,
{
    let mut r: Vec<String> = Vec::new();
    let n = v.len();
    for i in 0..n
        invariant
            n == v.len(),
            r@.len() == i,
            forall|k: int| 0 <= k < i ==> r@[k] == v@[k],
    {
        r.push(v[i].clone());
    }
    assert(r@ =~= v@);
    r
}


/// The chapter name tried at attempt `i` of the collision probe:
/// `Untitled` first, then `Untitled1`, `Untitled2`, and so on.
pub open spec fn untitled_name(i: nat) -> Seq<char> {
    if i == 0 {
        "Untitled"@
    } else {
        "Untitled"@ + dec_digits(i)
    }
}

/// The chapter name of attempt `i`, executably.
fn untitled_candidate(i: usize) -> (r: String)
    ensures
        r@ == untitled_name(i as nat),
{
    let mut s = "Untitled".to_owned();
    if i > 0 {
        push_digits(&mut s, i);
    }
    s
}

/// Different attempts of the collision probe carry different
/// names.
pub proof fn lemma_untitled_inj(i: nat, j: nat)
    requires
        untitled_name(i) == untitled_name(j),
    ensures
        i == j,
{
    reveal_strlit("Untitled");
    assert("Untitled"@.len() == 8);
    if i == 0 && j != 0 {
        crate::digits::lemma_dec_digits_len(j);
        assert(untitled_name(j).len() >= 9);
    } else if i != 0 && j == 0 {
        crate::digits::lemma_dec_digits_len(i);
        assert(untitled_name(i).len() >= 9);
    } else if i != 0 && j != 0 {
        assert(dec_digits(i) =~= untitled_name(i).skip(8));
        assert(dec_digits(j) =~= untitled_name(j).skip(8));
        crate::digits::lemma_dec_digits_inj(i, j);
    }
}

/// The positions of the entries holding the first `m` probed
/// chapter directories.
spec fn probed_indices(fs: Vfs, cb: Seq<Seq<char>>, m: int) -> Set<int> {
    Set::new(
        |x: int|
            exists|j: int|
                0 <= j < m && x == fs.entry_index(cb.push(#[trigger] untitled_name(j as nat))),
    )
}

/// When the first `m` probed chapter directories all exist, they
/// occupy `m` distinct entries of the tree.
proof fn lemma_untitled_set_len(fs: Vfs, cb: Seq<Seq<char>>, m: int)
    requires
        fs.wf(),
        0 <= m,
        forall|j: int| 0 <= j < m ==> fs.has(cb.push(#[trigger] untitled_name(j as nat))),
    ensures
        probed_indices(fs, cb, m).finite(),
        probed_indices(fs, cb, m).len() == m,
        probed_indices(fs, cb, m).subset_of(
            vstd::set_lib::set_int_range(0, fs.entries@.len() as int),
        ),
    decreases m,
{
    broadcast use vstd::set::group_set_axioms;

    let S = probed_indices(fs, cb, m);
    if m == 0 {
        assert(S =~= Set::<int>::empty());
        assert(S.subset_of(vstd::set_lib::set_int_range(0, fs.entries@.len() as int)));
    } else {
        lemma_untitled_set_len(fs, cb, m - 1);
        let S0 = probed_indices(fs, cb, m - 1);
        let q = cb.push(untitled_name((m - 1) as nat));
        let x = fs.entry_index(q);
        assert(fs.has(q));
        assert(0 <= x < fs.entries@.len() && fs.entries@[x].path.deep_view() == q);
        assert(S =~= S0.insert(x)) by {
            assert forall|y: int| S.contains(y) implies S0.insert(x).contains(y) by {
                let j = choose|j: int|
                    0 <= j < m && y == fs.entry_index(cb.push(#[trigger] untitled_name(j as nat)));
                if j < m - 1 {
                    assert(S0.contains(y));
                }
            }
            assert forall|y: int| S0.insert(x).contains(y) implies S.contains(y) by {
                if S0.contains(y) {
                    let j = choose|j: int|
                        0 <= j < m - 1 && y == fs.entry_index(
                            cb.push(#[trigger] untitled_name(j as nat)),
                        );
                    assert(y == fs.entry_index(cb.push(untitled_name(j as nat))));
                } else {
                    assert(y == fs.entry_index(cb.push(untitled_name((m - 1) as nat))));
                }
            }
        }
        assert(!S0.contains(x)) by {
            if S0.contains(x) {
                let j = choose|j: int|
                    0 <= j < m - 1 && x == fs.entry_index(cb.push(#[trigger] untitled_name(j as nat)));
                let qj = cb.push(untitled_name(j as nat));
                assert(fs.has(qj));
                assert(fs.entries@[fs.entry_index(qj)].path.deep_view() == qj);
                assert(qj == q);
                assert(qj.last() == q.last());
                lemma_untitled_inj(j as nat, (m - 1) as nat);
            }
        }
        assert(S.finite() && S.len() == m);
        assert(S.subset_of(vstd::set_lib::set_int_range(0, fs.entries@.len() as int)));
    }
}

/// Probes `Untitled`, `Untitled1`, ... in order against the path
/// validator and returns the first name whose chapter directory can
/// be created, so that adding a chapter under that name cannot
/// collide.  A live chapters area — present as a writable directory
/// — always yields a name: the tree is finite, so some name among
/// the first `fs.entries@.len() + 1` is free.
#[verifier::rlimit(100)]
#[verifier::spinoff_prover]
pub fn resolve_untitled_name(fs: &Vfs, path: &String) -> (r: Option<String>)
    requires
        fs.wf(),
    ensures
        r matches Some(nm) ==> fs.can_create(crate::saving::chapter_dir(path@, nm@)) && (
        exists|i: nat|
            nm@ == untitled_name(i) && (forall|j: nat|
                j < i ==> !fs.can_create(
                    crate::saving::chapter_dir(path@, #[trigger] untitled_name(j)),
                ))),
        fs.has_dir(crate::loader::chapters_dir(path@)) && fs.at(crate::loader::chapters_dir(path@))
            == (crate::vfs::NodeV::DirV { writable: true }) ==> r is Some,
{
    let mut base = crate::paths::split_path(path);
    base.push(crate::saving::chapters_name());
    let ghost cb = base.deep_view();
    assert(cb =~= crate::paths::split_comps(path@).push("Chapters"@));
    assert(cb == crate::loader::chapters_dir(path@));
    let n = fs.entries.len();
    let mut i: usize = 0;
    while i <= n
        invariant
            fs.wf(),
            i <= n,
            n == fs.entries@.len(),
            cb == base.deep_view(),
            cb == crate::paths::split_comps(path@).push("Chapters"@),
            cb == crate::loader::chapters_dir(path@),
            forall|j: nat|
                j < i ==> !fs.can_create(
                    crate::saving::chapter_dir(path@, #[trigger] untitled_name(j)),
                ),
        decreases n - i + 1,
    {
        let name = untitled_candidate(i);
        let mut cand = crate::vfs::clone_path(&base);
        cand.push(name.clone());
        assert(cand.deep_view() =~= crate::saving::chapter_dir(path@, name@));
        if crate::vfs::check_can_create(fs, &cand) {
            proof {
                assert(name@ == untitled_name(i as nat));
                assert(fs.can_create(crate::saving::chapter_dir(path@, untitled_name(i as nat))));
            }
            return Some(name);
        }
        if i == n {
            proof {
                assert(!fs.can_create(crate::saving::chapter_dir(path@, untitled_name(n as nat))));
                assert(!(fs.has_dir(cb) && fs.at(cb) == (crate::vfs::NodeV::DirV {
                    writable: true,
                }))) by {
                    if fs.has_dir(cb) && fs.at(cb) == (crate::vfs::NodeV::DirV {
                        writable: true,
                    }) {
                        assert forall|j: int| 0 <= j < n + 1 implies fs.has(
                            cb.push(#[trigger] untitled_name(j as nat)),
                        ) by {
                            let q = cb.push(untitled_name(j as nat));
                            assert(q == crate::saving::chapter_dir(path@, untitled_name(j as nat)));
                            if j < n {
                                assert((j as nat) < i);
                            }
                            assert(!fs.can_create(q));
                            assert(q.drop_last() =~= cb);
                            assert(q.len() >= 1);
                            assert(fs.parent_ready(q) && fs.parent_writable(q));
                        }
                        lemma_untitled_set_len(*fs, cb, n as int + 1);
                        vstd::set_lib::lemma_int_range(0, n as int);
                        vstd::set_lib::lemma_len_subset(
                            probed_indices(*fs, cb, n as int + 1),
                            vstd::set_lib::set_int_range(0, n as int),
                        );
                        assert(n + 1 <= n);
                    }
                }
            }
            return None;
        }
        i += 1;
    }
    vstd::pervasive::unreached()
}

} // verus!
