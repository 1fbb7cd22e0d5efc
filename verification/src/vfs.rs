//! In-memory model of the directory tree that holds a project.
//!
//! The tree is kept flat: a set of entries, each an absolute path (a
//! sequence of name components) together with a node, either a file
//! with its text or a directory.  Specifications speak about the tree
//! through [`Vfs::has`] and [`Vfs::at`], which treat it as a map from
//! paths to nodes.  The interactive surface mirrors this model from
//! and to the real disk; every structural operation of the engine is
//! defined, and verified, against it.

use vstd::pervasive::VecAdditionalExecFns;
use vstd::prelude::*;

verus! {

/// One node of the tree: a file with its text, or a directory.  A
/// directory records whether the process may create entries in it.
pub enum VfsNode {
    File { content: Vec<char> },
    Dir { writable: bool },
}

/// One entry: an absolute path (never empty) and its node.
pub struct VfsEntry {
    pub path: Vec<String>,
    pub node: VfsNode,
}

/// The whole tree.  `rename_supported` models whether a plain rename
/// is available between the paths involved in a move; it is false
/// when source and destination lie on different filesystems, in
/// which case a move must fall back to copying.
pub struct Vfs {
    pub entries: Vec<VfsEntry>,
    pub rename_supported: bool,
}

/// The mathematical value of a node.
pub enum NodeV {
    FileV { content: Seq<char> },
    DirV { writable: bool },
}

/// The mathematical value of an executable node.
pub open spec fn node_v(n: VfsNode) -> NodeV {
    match n {
        VfsNode::File { content } => NodeV::FileV { content: content@ },
        VfsNode::Dir { writable } => NodeV::DirV { writable },
    }
}

/// The text of a file node; the empty sequence on a directory.
pub open spec fn node_text(n: NodeV) -> Seq<char> {
    match n {
        NodeV::FileV { content } => content,
        NodeV::DirV { writable } => Seq::empty(),
    }
}

/// Whether a path lies in the subtree rooted at `root` (the root
/// itself included).
pub open spec fn under(root: Seq<Seq<char>>, p: Seq<Seq<char>>) -> bool {
    root.is_prefix_of(p)
}

/// Whether no two entries of `s` carry the same path.
pub open spec fn paths_unique(s: Seq<VfsEntry>) -> bool {
    forall|i: int, j: int|
        0 <= i < j < s.len() ==> (#[trigger] s[i]).path.deep_view() != (
        #[trigger] s[j]).path.deep_view()
}

impl Vfs {
    /// An empty tree on a filesystem where plain renames work.
    pub fn new() -> (fs: Vfs)
        ensures
            fs.wf(),
            fs.entries@.len() == 0,
            fs.rename_supported,
    {
        Vfs { entries: Vec::new(), rename_supported: true }
    }

    /// Whether some entry has path `p`.
    pub open spec fn has(self, p: Seq<Seq<char>>) -> bool {
        exists|i: int|
            0 <= i < self.entries@.len() && (#[trigger] self.entries@[i]).path.deep_view() == p
    }

    /// The position of the entry with path `p`, when one exists.
    pub open spec fn entry_index(self, p: Seq<Seq<char>>) -> int {
        choose|i: int|
            0 <= i < self.entries@.len() && (#[trigger] self.entries@[i]).path.deep_view() == p
    }

    /// The node at path `p`, when one exists.
    pub open spec fn at(self, p: Seq<Seq<char>>) -> NodeV {
        node_v(self.entries@[self.entry_index(p)].node)
    }

    /// Whether `p` names a directory of the tree.
    pub open spec fn has_dir(self, p: Seq<Seq<char>>) -> bool {
        self.has(p) && self.at(p) is DirV
    }

    /// Whether `p` names a file of the tree.
    pub open spec fn has_file(self, p: Seq<Seq<char>>) -> bool {
        self.has(p) && self.at(p) is FileV
    }

    /// The text of the file at `p`.
    pub open spec fn file_text(self, p: Seq<Seq<char>>) -> Seq<char> {
        node_text(self.at(p))
    }

    /// Whether the parent of `p` exists as a directory; a path of one
    /// component sits in the root of the tree, which always exists.
    pub open spec fn parent_ready(self, p: Seq<Seq<char>>) -> bool {
        p.len() == 1 || self.has_dir(p.drop_last())
    }

    /// Whether entries may be created in the parent of `p`.  The root
    /// of the tree is always writable.
    pub open spec fn parent_writable(self, p: Seq<Seq<char>>) -> bool {
        p.len() == 1 || self.at(p.drop_last()) == (NodeV::DirV { writable: true })
    }

    /// Structural invariant: paths are unique and non-empty, and
    /// every entry below the root hangs from a directory entry.
    pub open spec fn wf(self) -> bool {
        &&& paths_unique(self.entries@)
        &&& forall|i: int|
            0 <= i < self.entries@.len() ==> (#[trigger] self.entries@[i]).path@.len() >= 1
        &&& forall|i: int|
            0 <= i < self.entries@.len() && (#[trigger] self.entries@[i]).path@.len() >= 2
                ==> self.has_dir(self.entries@[i].path.deep_view().drop_last())
    }

    /// Whether a node could be created at `p`: nothing is there yet
    /// and the parent is a directory that may be written.
    pub open spec fn can_create(self, p: Seq<Seq<char>>) -> bool {
        &&& p.len() >= 1
        &&& !self.has(p)
        &&& self.parent_ready(p)
        &&& self.parent_writable(p)
    }

    /// When paths are unique, entry `i` is the only entry with its
    /// path, so [`Vfs::at`] describes exactly that entry.
    pub proof fn lemma_entry_at(self, i: int)
        requires
            paths_unique(self.entries@),
            0 <= i < self.entries@.len(),
        ensures
            self.has(self.entries@[i].path.deep_view()),
            self.entry_index(self.entries@[i].path.deep_view()) == i,
            self.at(self.entries@[i].path.deep_view()) == node_v(self.entries@[i].node),
    {
        let p = self.entries@[i].path.deep_view();
        assert(self.has(p));
        let j = self.entry_index(p);
        if j != i {
            if j < i {
                assert(self.entries@[j].path.deep_view() != self.entries@[i].path.deep_view());
            } else {
                assert(self.entries@[i].path.deep_view() != self.entries@[j].path.deep_view());
            }
        }
    }

    /// In a well-formed tree, every proper, non-empty prefix of an
    /// existing path is a directory of the tree.
    pub proof fn lemma_ancestor_dirs(self, q: Seq<Seq<char>>, n: int)
        requires
            self.wf(),
            self.has(q),
            1 <= n < q.len(),
        ensures
            self.has_dir(q.take(n)),
        decreases q.len(),
    {
        let i = self.entry_index(q);
        assert(self.entries@[i].path.deep_view() == q);
        assert(self.entries@[i].path@.len() == q.len());
        assert(self.has_dir(q.drop_last()));
        if n == q.len() - 1 {
            assert(q.take(n) =~= q.drop_last());
        } else {
            let parent = q.drop_last();
            self.lemma_ancestor_dirs(parent, n);
            assert(parent.take(n) =~= q.take(n));
        }
    }

    /// Nothing exists at or below a missing path.
    pub proof fn lemma_no_orphans(self, p: Seq<Seq<char>>, q: Seq<Seq<char>>)
        requires
            self.wf(),
            !self.has(p),
            p.len() >= 1,
            self.has(q),
        ensures
            !under(p, q),
    {
        if under(p, q) {
            if q.len() == p.len() {
                assert(q =~= p);
            } else {
                self.lemma_ancestor_dirs(q, p.len() as int);
                assert(q.take(p.len() as int) =~= p);
            }
        }
    }
}

/// Whether two paths hold the same components.
pub fn path_eq(a: &Vec<String>, b: &Vec<String>) -> (r: bool)
    ensures
        r == (a.deep_view() == b.deep_view()),
{
    if a.len() != b.len() {
        assert(a.deep_view().len() != b.deep_view().len());
        return false;
    }
    let n = a.len();
    for i in 0..n
        invariant
            n == a.len() == b.len(),
            forall|k: int| 0 <= k < i ==> a.deep_view()[k] == b.deep_view()[k],
    {
        if a[i] != b[i] {
            assert(a.deep_view()[i as int] != b.deep_view()[i as int]);
            return false;
        }
    }
    assert(a.deep_view() =~= b.deep_view());
    true
}

/// Whether the first `n` components of `p` are exactly `pre`.
pub fn path_starts_with(p: &Vec<String>, pre: &Vec<String>) -> (r: bool)
    ensures
        r == under(pre.deep_view(), p.deep_view()),
{
    if p.len() < pre.len() {
        assert(!pre.deep_view().is_prefix_of(p.deep_view()));
        return false;
    }
    let n = pre.len();
    for i in 0..n
        invariant
            n == pre.len() <= p.len(),
            forall|k: int| 0 <= k < i ==> p.deep_view()[k] == pre.deep_view()[k],
    {
        if p[i] != pre[i] {
            assert(p.deep_view()[i as int] != pre.deep_view()[i as int]);
            return false;
        }
    }
    assert(pre.deep_view() =~= p.deep_view().take(n as int));
    true
}

/// A copy of a path, component for component.
pub fn clone_path(p: &Vec<String>) -> (r: Vec<String>)
    ensures
        r@ == p@,
{
    let mut r: Vec<String> = Vec::new();
    let n = p.len();
    for i in 0..n
        invariant
            n == p.len(),
            r@.len() == i,
            forall|k: int| 0 <= k < i ==> r@[k] == p@[k],
    {
        r.push(p[i].clone());
    }
    assert(r@ =~= p@);
    r
}

/// A copy of a file's text, character for character.
pub fn clone_text(c: &Vec<char>) -> (r: Vec<char>)
    ensures
        r@ == c@,
{
    let mut r: Vec<char> = Vec::new();
    let n = c.len();
    for i in 0..n
        invariant
            n == c.len(),
            r@.len() == i,
            forall|k: int| 0 <= k < i ==> r@[k] == c@[k],
    {
        r.push(c[i]);
    }
    assert(r@ =~= c@);
    r
}

/// Whether something could be created at `p`, deciding
/// [`Vfs::can_create`] executably.
pub fn check_can_create(fs: &Vfs, p: &Vec<String>) -> (r: bool)
    requires
        fs.wf(),
    ensures
        r == fs.can_create(p.deep_view()),
{
    if p.len() == 0 {
        return false;
    }
    if let Some(_) = lookup(fs, p) {
        return false;
    }
    if p.len() == 1 {
        return true;
    }
    let mut parent = clone_path(p);
    let _ = parent.pop();
    assert(parent.deep_view() =~= p.deep_view().drop_last());
    match lookup(fs, &parent) {
        None => false,
        Some(i) => {
            proof {
                fs.lemma_entry_at(i as int);
            }
            match &fs.entries[i].node {
                VfsNode::Dir { writable } => *writable,
                VfsNode::File { .. } => false,
            }
        },
    }
}

/// Creates a writable directory at `p` when nothing is there and the
/// parent is a writable directory; otherwise leaves the tree alone.
pub fn create_dir(fs: &mut Vfs, p: &Vec<String>) -> (ok: bool)
    requires
        old(fs).wf(),
    ensures
        final(fs).wf(),
        final(fs).rename_supported == old(fs).rename_supported,
        ok == old(fs).can_create(p.deep_view()),
        !ok ==> *final(fs) == *old(fs),
        ok ==> final(fs).has_dir(p.deep_view()) && final(fs).at(p.deep_view()) == (NodeV::DirV {
            writable: true,
        }),
        forall|q: Seq<Seq<char>>|
            q != p.deep_view() ==> #[trigger] final(fs).has(q) == old(fs).has(q),
        forall|q: Seq<Seq<char>>|
            q != p.deep_view() && old(fs).has(q) ==> #[trigger] final(fs).at(q) == old(fs).at(q),
{
    if !check_can_create(fs, p) {
        return false;
    }
    let entry = VfsEntry { path: clone_path(p), node: VfsNode::Dir { writable: true } };
    push_entry(fs, entry);
    true
}

/// Writes a file at `p`: replaces the text of an existing file, or
/// creates the file when nothing is there and the parent is a
/// writable directory; otherwise leaves the tree alone.
pub fn write_file(fs: &mut Vfs, p: &Vec<String>, content: Vec<char>) -> (ok: bool)
    requires
        old(fs).wf(),
    ensures
        final(fs).wf(),
        final(fs).rename_supported == old(fs).rename_supported,
        ok == (old(fs).has_file(p.deep_view()) || old(fs).can_create(p.deep_view())),
        !ok ==> *final(fs) == *old(fs),
        ok ==> final(fs).has_file(p.deep_view()) && final(fs).file_text(p.deep_view())
            == content@,
        forall|q: Seq<Seq<char>>|
            q != p.deep_view() ==> #[trigger] final(fs).has(q) == old(fs).has(q),
        forall|q: Seq<Seq<char>>|
            q != p.deep_view() && old(fs).has(q) ==> #[trigger] final(fs).at(q) == old(fs).at(q),
{
    match lookup(fs, p) {
        Some(i) => {
            proof {
                fs.lemma_entry_at(i as int);
            }
            match &fs.entries[i].node {
                VfsNode::Dir { .. } => false,
                VfsNode::File { .. } => {
                    replace_entry_node(fs, i, VfsNode::File { content });
                    true
                },
            }
        },
        None => {
            if !check_can_create(fs, p) {
                return false;
            }
            let entry = VfsEntry { path: clone_path(p), node: VfsNode::File { content } };
            push_entry(fs, entry);
            true
        },
    }
}

/// The text of the file at `p`, if the tree has one.
pub fn read_file(fs: &Vfs, p: &Vec<String>) -> (r: Option<Vec<char>>)
    requires
        fs.wf(),
    ensures
        match r {
            Some(text) => fs.has_file(p.deep_view()) && text@ == fs.file_text(p.deep_view()),
            None => !fs.has_file(p.deep_view()),
        },
{
    match lookup(fs, p) {
        None => None,
        Some(i) => {
            proof {
                fs.lemma_entry_at(i as int);
            }
            match &fs.entries[i].node {
                VfsNode::Dir { .. } => None,
                VfsNode::File { content } => Some(clone_text(content)),
            }
        },
    }
}

/// Adds an entry whose path is not yet in a well-formed tree and
/// whose parent is an existing directory.
fn push_entry(fs: &mut Vfs, entry: VfsEntry)
    requires
        old(fs).wf(),
        !old(fs).has(entry.path.deep_view()),
        entry.path@.len() >= 1,
        entry.path@.len() >= 2 ==> old(fs).has_dir(entry.path.deep_view().drop_last()),
    ensures
        final(fs).wf(),
        final(fs).rename_supported == old(fs).rename_supported,
        final(fs).entries@ == old(fs).entries@.push(entry),
        final(fs).has(entry.path.deep_view()),
        final(fs).at(entry.path.deep_view()) == node_v(entry.node),
        forall|q: Seq<Seq<char>>|
            q != entry.path.deep_view() ==> #[trigger] final(fs).has(q) == old(fs).has(q),
        forall|q: Seq<Seq<char>>|
            q != entry.path.deep_view() && old(fs).has(q) ==> #[trigger] final(fs).at(q) == old(
                fs,
            ).at(q),
{
    let ghost pre = *fs;
    let ghost pv = entry.path.deep_view();
    fs.entries.push(entry);
    proof {
        let n = pre.entries@.len() as int;
        assert(fs.entries@ =~= pre.entries@.push(entry));
        assert forall|i: int| 0 <= i < n implies (#[trigger] fs.entries@[i]) == pre.entries@[i] by {}
        assert(paths_unique(fs.entries@));
        assert forall|q: Seq<Seq<char>>| q != pv implies #[trigger] fs.has(q) == pre.has(q) by {
            if pre.has(q) {
                let i = pre.entry_index(q);
                assert(fs.entries@[i].path.deep_view() == q);
            }
            if fs.has(q) {
                let i = fs.entry_index(q);
                assert(fs.entries@[i].path.deep_view() == q);
                assert(i != n);
                assert(pre.entries@[i].path.deep_view() == q);
                assert(pre.has(q));
            }
        }
        assert forall|q: Seq<Seq<char>>| q != pv && pre.has(q) implies #[trigger] fs.at(q)
            == pre.at(q) by {
            let i = pre.entry_index(q);
            pre.lemma_entry_at(i);
            fs.lemma_entry_at(i);
        }
        fs.lemma_entry_at(n);
        assert forall|i: int|
            0 <= i < fs.entries@.len() && (#[trigger] fs.entries@[i]).path@.len()
                >= 2 implies fs.has_dir(fs.entries@[i].path.deep_view().drop_last()) by {
            let par = fs.entries@[i].path.deep_view().drop_last();
            if i < n {
                assert(pre.has_dir(par));
                assert(par != pv) by {
                    if par == pv {
                        assert(pre.has(pv));
                    }
                }
            } else {
                assert(fs.entries@[i] == entry);
                if pv.len() >= 2 {
                    assert(pre.has_dir(par));
                    assert(par != pv) by {
                        if par == pv {
                            assert(pre.has(pv));
                        }
                    }
                }
            }
        }
        assert(fs.wf());
    }
}

/// Replaces the node of a file entry `i` by another file node,
/// keeping its path.
fn replace_entry_node(fs: &mut Vfs, i: usize, node: VfsNode)
    requires
        old(fs).wf(),
        i < old(fs).entries@.len(),
        old(fs).entries@[i as int].node is File,
        node is File,
    ensures
        final(fs).wf(),
        final(fs).rename_supported == old(fs).rename_supported,
        final(fs).entries@.len() == old(fs).entries@.len(),
        ({
            let pv = old(fs).entries@[i as int].path.deep_view();
            &&& final(fs).has(pv)
            &&& final(fs).at(pv) == node_v(node)
            &&& forall|q: Seq<Seq<char>>| q != pv ==> #[trigger] final(fs).has(q) == old(fs).has(q)
            &&& forall|q: Seq<Seq<char>>|
                q != pv && old(fs).has(q) ==> #[trigger] final(fs).at(q) == old(fs).at(q)
        }),
{
    let ghost pre = *fs;
    let ghost pv = pre.entries@[i as int].path.deep_view();
    let path = clone_path(&fs.entries[i].path);
    fs.entries.set(i, VfsEntry { path, node });
    proof {
        assert forall|j: int|
            0 <= j < fs.entries@.len() implies (#[trigger] fs.entries@[j]).path.deep_view()
            == pre.entries@[j].path.deep_view() by {}
        assert(paths_unique(fs.entries@));
        assert forall|q: Seq<Seq<char>>| #[trigger] fs.has(q) == pre.has(q) by {
            if pre.has(q) {
                let k = pre.entry_index(q);
                assert(fs.entries@[k].path.deep_view() == q);
            }
            if fs.has(q) {
                let k = fs.entry_index(q);
                assert(pre.entries@[k].path.deep_view() == q);
            }
        }
        assert forall|q: Seq<Seq<char>>| q != pv && pre.has(q) implies #[trigger] fs.at(q)
            == pre.at(q) by {
            let k = pre.entry_index(q);
            pre.lemma_entry_at(k);
            fs.lemma_entry_at(k);
            assert(k != i);
        }
        fs.lemma_entry_at(i as int);
        assert forall|j: int|
            0 <= j < fs.entries@.len() && (#[trigger] fs.entries@[j]).path@.len()
                >= 2 implies fs.has_dir(fs.entries@[j].path.deep_view().drop_last()) by {
            let par = fs.entries@[j].path.deep_view().drop_last();
            assert(pre.has_dir(par));
            if par == pv {
                pre.lemma_entry_at(i as int);
            } else {
                let k = pre.entry_index(par);
                pre.lemma_entry_at(k);
                fs.lemma_entry_at(k);
            }
        }
        assert(fs.wf());
    }
}

/// A copy of an entry: same path, same node value.
fn clone_entry(e: &VfsEntry) -> (r: VfsEntry)
    ensures
        r.path@ == e.path@,
        r.path.deep_view() == e.path.deep_view(),
        node_v(r.node) == node_v(e.node),
{
    let path = clone_path(&e.path);
    let node = match &e.node {
        VfsNode::File { content } => VfsNode::File { content: clone_text(content) },
        VfsNode::Dir { writable } => VfsNode::Dir { writable: *writable },
    };
    VfsEntry { path, node }
}

/// Whether two entries carry the same path and the same node value.
pub open spec fn entry_matches(a: VfsEntry, b: VfsEntry) -> bool {
    &&& a.path.deep_view() == b.path.deep_view()
    &&& a.path@.len() == b.path@.len()
    &&& node_v(a.node) == node_v(b.node)
}

/// Whether some entry among the first `m` of `s` matches `e`.
pub open spec fn matched_in(s: Seq<VfsEntry>, m: int, e: VfsEntry) -> bool {
    exists|j: int| 0 <= j < m && entry_matches(e, #[trigger] s[j])
}

/// Removes the entry at `p` and everything below it; a missing path
/// removes nothing.
#[verifier::rlimit(60)]
pub fn remove_subtree(fs: &mut Vfs, p: &Vec<String>) -> (removed: bool)
    requires
        old(fs).wf(),
        p@.len() >= 1,
    ensures
        final(fs).wf(),
        final(fs).rename_supported == old(fs).rename_supported,
        removed == old(fs).has(p.deep_view()),
        forall|q: Seq<Seq<char>>|
            #[trigger] final(fs).has(q) == (old(fs).has(q) && !under(p.deep_view(), q)),
        forall|q: Seq<Seq<char>>|
            final(fs).has(q) ==> #[trigger] final(fs).at(q) == old(fs).at(q),
{
    let ghost pre = *fs;
    let ghost pv = p.deep_view();
    let removed = lookup(fs, p).is_some();
    let mut kept: Vec<VfsEntry> = Vec::new();
    let n = fs.entries.len();
    for j in 0..n
        invariant
            *fs == pre,
            pre.wf(),
            n == pre.entries@.len(),
            pv == p.deep_view(),
            forall|k: int| 0 <= k < kept@.len() ==> matched_in(pre.entries@, j as int, #[trigger] kept@[k]),
            forall|j2: int|
                0 <= j2 < j && !under(pv, (#[trigger] pre.entries@[j2]).path.deep_view())
                    ==> matched_in(kept@, kept@.len() as int, pre.entries@[j2]),
            forall|k: int|
                0 <= k < kept@.len() ==> !under(pv, (#[trigger] kept@[k]).path.deep_view()),
            paths_unique(kept@),
    {
        if !path_starts_with(&fs.entries[j].path, p) {
            let e = clone_entry(&fs.entries[j]);
            let ghost kept0 = kept@;
            kept.push(e);
            proof {
                let kl = kept@.len() - 1;
                assert(kept@ == kept0.push(e));
                assert(entry_matches(kept@[kl], pre.entries@[j as int]));
                assert(entry_matches(pre.entries@[j as int], kept@[kl]));
                assert forall|k: int| 0 <= k < kept@.len() implies matched_in(
                    pre.entries@,
                    j as int + 1,
                    #[trigger] kept@[k],
                ) by {
                    if k < kl {
                        assert(kept@[k] == kept0[k]);
                        assert(matched_in(pre.entries@, j as int, kept0[k]));
                        let j2 = choose|j2: int|
                            0 <= j2 < j && entry_matches(kept0[k], #[trigger] pre.entries@[j2]);
                        assert(entry_matches(kept@[k], pre.entries@[j2]));
                    }
                }
                assert forall|j2: int|
                    0 <= j2 < j + 1 && !under(pv, (#[trigger] pre.entries@[j2]).path.deep_view())
                        implies matched_in(kept@, kept@.len() as int, pre.entries@[j2]) by {
                    if j2 < j {
                        let k = choose|k: int|
                            0 <= k < kept0.len() && entry_matches(
                                pre.entries@[j2],
                                #[trigger] kept0[k],
                            );
                        assert(kept@[k] == kept0[k]);
                        assert(entry_matches(pre.entries@[j2], kept@[k]));
                    } else {
                        assert(entry_matches(pre.entries@[j2], kept@[kl]));
                    }
                }
                assert forall|k1: int, k2: int| 0 <= k1 < k2 < kept@.len() implies (
                #[trigger] kept@[k1]).path.deep_view() != (
                #[trigger] kept@[k2]).path.deep_view() by {
                    if k2 == kl {
                        assert(kept@[k1] == kept0[k1]);
                        assert(matched_in(pre.entries@, j as int, kept0[k1]));
                        let j2 = choose|j2: int|
                            0 <= j2 < j && entry_matches(kept0[k1], #[trigger] pre.entries@[j2]);
                        assert(pre.entries@[j2].path.deep_view() != pre.entries@[
                        j as int].path.deep_view());
                    } else {
                        assert(kept@[k1] == kept0[k1]);
                        assert(kept@[k2] == kept0[k2]);
                    }
                }
            }
        }
    }
    let ghost kseq = kept@;
    fs.entries = kept;
    proof {
        assert(fs.entries@ == kseq);
        assert forall|i: int| 0 <= i < fs.entries@.len() implies matched_in(
            pre.entries@,
            n as int,
            #[trigger] fs.entries@[i],
        ) && !under(pv, fs.entries@[i].path.deep_view()) by {
            assert(fs.entries@[i] == kseq[i]);
            assert(matched_in(pre.entries@, n as int, kseq[i]));
        }
        assert forall|q: Seq<Seq<char>>| #[trigger] fs.has(q) == (pre.has(q) && !under(pv, q)) by {
            if fs.has(q) {
                let k = fs.entry_index(q);
                let j2 = choose|j2: int|
                    0 <= j2 < n && entry_matches(fs.entries@[k], #[trigger] pre.entries@[j2]);
                assert(pre.entries@[j2].path.deep_view() == q);
                assert(pre.has(q));
            }
            if pre.has(q) && !under(pv, q) {
                let j2 = pre.entry_index(q);
                assert(matched_in(kseq, kseq.len() as int, pre.entries@[j2]));
                let k = choose|k: int|
                    0 <= k < kseq.len() && entry_matches(pre.entries@[j2], #[trigger] kseq[k]);
                assert(fs.entries@[k] == kseq[k]);
                assert(fs.entries@[k].path.deep_view() == q);
                assert(fs.has(q));
            }
        }
        assert forall|q: Seq<Seq<char>>| fs.has(q) implies #[trigger] fs.at(q) == pre.at(q) by {
            let k = fs.entry_index(q);
            fs.lemma_entry_at(k);
            let j2 = choose|j2: int|
                0 <= j2 < n && entry_matches(fs.entries@[k], #[trigger] pre.entries@[j2]);
            pre.lemma_entry_at(j2);
        }
        assert forall|i: int|
            0 <= i < fs.entries@.len() implies (#[trigger] fs.entries@[i]).path@.len() >= 1 by {
            let j2 = choose|j2: int|
                0 <= j2 < n && entry_matches(fs.entries@[i], #[trigger] pre.entries@[j2]);
        }
        assert forall|i: int|
            0 <= i < fs.entries@.len() && (#[trigger] fs.entries@[i]).path@.len()
                >= 2 implies fs.has_dir(fs.entries@[i].path.deep_view().drop_last()) by {
            let j2 = choose|j2: int|
                0 <= j2 < n && entry_matches(fs.entries@[i], #[trigger] pre.entries@[j2]);
            let q = fs.entries@[i].path.deep_view();
            let par = q.drop_last();
            pre.lemma_entry_at(j2);
            assert(pre.has_dir(par));
            assert(!under(pv, par)) by {
                if under(pv, par) {
                    assert(under(pv, q)) by {
                        assert(pv.is_prefix_of(par));
                        assert(par.is_prefix_of(q));
                        assert(q.take(pv.len() as int) =~= pv);
                    }
                    assert(!under(pv, q));
                }
            }
            assert(fs.has(par) && fs.at(par) == pre.at(par));
        }
        assert(fs.wf());
        if removed {
            assert(under(pv, pv));
            assert(pre.has(pv));
        } else {
            assert(!pre.has(pv));
        }
    }
    removed
}

/// The path `q`, lying under `oldp`, transplanted under `newp`.
pub open spec fn rewritten(
    q: Seq<Seq<char>>,
    oldp: Seq<Seq<char>>,
    newp: Seq<Seq<char>>,
) -> Seq<Seq<char>> {
    newp + q.skip(oldp.len() as int)
}

/// How an entry `a` of the tree after a move relates to the entry
/// `b` it came from: transplanted if `b` lay under `oldp`, untouched
/// otherwise.
pub open spec fn moved_or_kept(
    a: VfsEntry,
    b: VfsEntry,
    oldp: Seq<Seq<char>>,
    newp: Seq<Seq<char>>,
) -> bool {
    if under(oldp, b.path.deep_view()) {
        &&& a.path.deep_view() == rewritten(b.path.deep_view(), oldp, newp)
        &&& a.path@.len() == newp.len() + b.path@.len() - oldp.len()
        &&& node_v(a.node) == node_v(b.node)
    } else {
        entry_matches(a, b)
    }
}

/// The components of `path` with the leading `oldp` components
/// replaced by those of `newp`.
fn rewrite_path(path: &Vec<String>, oldp: &Vec<String>, newp: &Vec<String>) -> (r: Vec<String>)
    requires
        oldp@.len() <= path@.len(),
    ensures
        r.deep_view() == rewritten(path.deep_view(), oldp.deep_view(), newp.deep_view()),
        r@.len() == newp@.len() + path@.len() - oldp@.len(),
{
    let mut r = clone_path(newp);
    let n = path.len();
    let mut k = oldp.len();
    while k < n
        invariant
            oldp@.len() <= k <= n == path@.len(),
            r@.len() == newp@.len() + k - oldp@.len(),
            forall|i: int| 0 <= i < newp@.len() ==> r@[i] == newp@[i],
            forall|i: int|
                newp@.len() <= i < r@.len() ==> r@[i] == path@[i - newp@.len() + oldp@.len()],
        decreases n - k,
    {
        r.push(path[k].clone());
        k += 1;
    }
    assert(r.deep_view() =~= rewritten(path.deep_view(), oldp.deep_view(), newp.deep_view()));
    r
}

/// The transplanted image of a path under the source tree never lies
/// back under the source tree.
proof fn lemma_rewritten_not_under(
    pre: Vfs,
    ov: Seq<Seq<char>>,
    nv: Seq<Seq<char>>,
    q: Seq<Seq<char>>,
)
    requires
        pre.wf(),
        pre.has(ov),
        !pre.has(nv),
        ov.len() >= 1,
        nv.len() >= 1,
        !under(ov, nv),
        under(ov, q),
    ensures
        !under(ov, rewritten(q, ov, nv)),
        under(nv, rewritten(q, ov, nv)),
{
    let r = rewritten(q, ov, nv);
    assert(under(nv, r)) by {
        assert(r.take(nv.len() as int) =~= nv);
    }
    if under(ov, r) {
        if ov.len() <= nv.len() {
            assert(under(ov, nv)) by {
                assert(nv.take(ov.len() as int) =~= r.take(ov.len() as int));
            }
        } else {
            assert(under(nv, ov)) by {
                assert(ov.take(nv.len() as int) =~= r.take(nv.len() as int));
            }
            pre.lemma_no_orphans(nv, ov);
        }
    }
}

/// The hypotheses of a move: a well-formed tree, an existing
/// source, a creatable destination, and a destination that does not
/// lie inside the source.
pub open spec fn move_pre(pre: Vfs, ov: Seq<Seq<char>>, nv: Seq<Seq<char>>) -> bool {
    &&& pre.wf()
    &&& pre.has(ov)
    &&& pre.can_create(nv)
    &&& !under(ov, nv)
    &&& ov.len() >= 1
    &&& nv.len() >= 1
}

/// The entry-by-entry picture of an in-place move from `pre` to
/// `post`: same number of entries, each transplanted or untouched.
pub open spec fn move_positional(
    pre: Vfs,
    post: Vfs,
    ov: Seq<Seq<char>>,
    nv: Seq<Seq<char>>,
) -> bool {
    &&& post.entries@.len() == pre.entries@.len()
    &&& forall|i: int|
        0 <= i < pre.entries@.len() ==> moved_or_kept(
            #[trigger] post.entries@[i],
            pre.entries@[i],
            ov,
            nv,
        )
}

/// An in-place move keeps the entry paths pairwise distinct.
#[verifier::rlimit(100)]
#[verifier::spinoff_prover]
proof fn lemma_move_unique(pre: Vfs, post: Vfs, ov: Seq<Seq<char>>, nv: Seq<Seq<char>>)
    requires
        move_pre(pre, ov, nv),
        move_positional(pre, post, ov, nv),
    ensures
        paths_unique(post.entries@),
{
    let n = pre.entries@.len() as int;
    assert forall|i: int, j: int| 0 <= i < j < n implies (
    #[trigger] post.entries@[i]).path.deep_view() != (
    #[trigger] post.entries@[j]).path.deep_view() by {
        let bi = pre.entries@[i].path.deep_view();
        let bj = pre.entries@[j].path.deep_view();
        pre.lemma_entry_at(i);
        pre.lemma_entry_at(j);
        if post.entries@[i].path.deep_view() == post.entries@[j].path.deep_view() {
            if under(ov, bi) && under(ov, bj) {
                assert(bi.skip(ov.len() as int) =~= rewritten(bi, ov, nv).skip(nv.len() as int));
                assert(bj.skip(ov.len() as int) =~= rewritten(bj, ov, nv).skip(nv.len() as int));
                assert(bi =~= ov + bi.skip(ov.len() as int));
                assert(bj =~= ov + bj.skip(ov.len() as int));
            } else if under(ov, bi) && !under(ov, bj) {
                lemma_rewritten_not_under(pre, ov, nv, bi);
                pre.lemma_no_orphans(nv, bj);
            } else if !under(ov, bi) && under(ov, bj) {
                lemma_rewritten_not_under(pre, ov, nv, bj);
                pre.lemma_no_orphans(nv, bi);
            }
        }
    }
}

/// An in-place move, seen as a map: sources transplanted, the rest
/// untouched, nothing else present.
#[verifier::rlimit(100)]
#[verifier::spinoff_prover]
proof fn lemma_move_maps(pre: Vfs, post: Vfs, ov: Seq<Seq<char>>, nv: Seq<Seq<char>>)
    requires
        move_pre(pre, ov, nv),
        move_positional(pre, post, ov, nv),
    ensures
        paths_unique(post.entries@),
        forall|q: Seq<Seq<char>>|
            pre.has(q) && under(ov, q) ==> post.has(#[trigger] rewritten(q, ov, nv)) && post.at(
                rewritten(q, ov, nv),
            ) == pre.at(q),
        forall|q: Seq<Seq<char>>|
            pre.has(q) && !under(ov, q) ==> #[trigger] post.has(q) && post.at(q) == pre.at(q),
        forall|q: Seq<Seq<char>>|
            #[trigger] post.has(q) ==> (pre.has(q) && !under(ov, q)) || (under(nv, q) && pre.has(
                ov + q.skip(nv.len() as int),
            )),
{
    lemma_move_unique(pre, post, ov, nv);
    assert forall|q: Seq<Seq<char>>| pre.has(q) && under(ov, q) implies post.has(
        #[trigger] rewritten(q, ov, nv),
    ) && post.at(rewritten(q, ov, nv)) == pre.at(q) by {
        let i = pre.entry_index(q);
        pre.lemma_entry_at(i);
        assert(post.entries@[i].path.deep_view() == rewritten(q, ov, nv));
        post.lemma_entry_at(i);
    }
    assert forall|q: Seq<Seq<char>>| pre.has(q) && !under(ov, q) implies #[trigger] post.has(q)
        && post.at(q) == pre.at(q) by {
        let i = pre.entry_index(q);
        pre.lemma_entry_at(i);
        assert(post.entries@[i].path.deep_view() == q);
        post.lemma_entry_at(i);
    }
    assert forall|q: Seq<Seq<char>>| #[trigger] post.has(q) implies (pre.has(q) && !under(ov, q))
        || (under(nv, q) && pre.has(ov + q.skip(nv.len() as int))) by {
        let i = post.entry_index(q);
        pre.lemma_entry_at(i);
        let b = pre.entries@[i].path.deep_view();
        if under(ov, b) {
            assert(q == rewritten(b, ov, nv));
            lemma_rewritten_not_under(pre, ov, nv, b);
            assert(b.skip(ov.len() as int) =~= q.skip(nv.len() as int));
            assert(ov + q.skip(nv.len() as int) =~= b);
        } else {
            pre.lemma_no_orphans(nv, b);
        }
    }
}

/// From the positional picture of an in-place move, the map-level
/// facts of the move and the well-formedness of the result.
#[verifier::rlimit(100)]
#[verifier::spinoff_prover]
proof fn lemma_move_result(pre: Vfs, post: Vfs, ov: Seq<Seq<char>>, nv: Seq<Seq<char>>)
    requires
        move_pre(pre, ov, nv),
        move_positional(pre, post, ov, nv),
    ensures
        post.wf(),
        forall|q: Seq<Seq<char>>|
            pre.has(q) && under(ov, q) ==> post.has(#[trigger] rewritten(q, ov, nv)) && post.at(
                rewritten(q, ov, nv),
            ) == pre.at(q),
        forall|q: Seq<Seq<char>>|
            pre.has(q) && !under(ov, q) ==> #[trigger] post.has(q) && post.at(q) == pre.at(q),
        forall|q: Seq<Seq<char>>|
            #[trigger] post.has(q) ==> (pre.has(q) && !under(ov, q)) || (under(nv, q) && pre.has(
                ov + q.skip(nv.len() as int),
            )),
{
    lemma_move_maps(pre, post, ov, nv);
    assert forall|i: int|
        0 <= i < post.entries@.len() implies (#[trigger] post.entries@[i]).path@.len() >= 1 by {}
    assert forall|i: int|
        0 <= i < post.entries@.len() && (#[trigger] post.entries@[i]).path@.len()
            >= 2 implies post.has_dir(post.entries@[i].path.deep_view().drop_last()) by {
        let b = pre.entries@[i].path.deep_view();
        let a = post.entries@[i].path.deep_view();
        pre.lemma_entry_at(i);
        if under(ov, b) {
            if b.len() == ov.len() {
                assert(b =~= ov);
                assert(a =~= nv);
                if nv.len() >= 2 {
                    let par = nv.drop_last();
                    assert(pre.has_dir(par));
                    assert(!under(ov, par)) by {
                        if under(ov, par) {
                            assert(under(ov, nv)) by {
                                assert(nv.take(ov.len() as int) =~= par.take(ov.len() as int));
                            }
                        }
                    }
                    let k = pre.entry_index(par);
                    pre.lemma_entry_at(k);
                    assert(post.entries@[k].path.deep_view() == par);
                    post.lemma_entry_at(k);
                    assert(post.has(par) && post.at(par) == pre.at(par));
                    assert(a.drop_last() =~= par);
                }
            } else {
                let bpar = b.drop_last();
                assert(pre.has_dir(bpar));
                assert(under(ov, bpar)) by {
                    assert(bpar.take(ov.len() as int) =~= b.take(ov.len() as int));
                }
                let k = pre.entry_index(bpar);
                pre.lemma_entry_at(k);
                assert(post.entries@[k].path.deep_view() == rewritten(bpar, ov, nv));
                post.lemma_entry_at(k);
                assert(post.has(rewritten(bpar, ov, nv)) && post.at(rewritten(bpar, ov, nv))
                    == pre.at(bpar));
                assert(a.drop_last() =~= rewritten(bpar, ov, nv));
            }
        } else {
            let par = b.drop_last();
            assert(pre.has_dir(par));
            assert(!under(ov, par)) by {
                if under(ov, par) {
                    assert(under(ov, b)) by {
                        assert(b.take(ov.len() as int) =~= par.take(ov.len() as int));
                    }
                }
            }
            let k = pre.entry_index(par);
            pre.lemma_entry_at(k);
            assert(post.entries@[k].path.deep_view() == par);
            post.lemma_entry_at(k);
            assert(post.has(par) && post.at(par) == pre.at(par));
            assert(a == b);
        }
    }
    assert(post.wf());
}


/// Moves the subtree at `oldp` to `newp` when the source exists, the
/// destination can be created, and the destination does not lie
/// inside the source; otherwise leaves the tree alone.  When a plain
/// rename is not supported, the move copies every node and then
/// removes the source tree; either way the result is the same.
#[verifier::rlimit(100)]
#[verifier::spinoff_prover]
pub fn move_subtree(fs: &mut Vfs, oldp: &Vec<String>, newp: &Vec<String>) -> (ok: bool)
    requires
        old(fs).wf(),
        oldp@.len() >= 1,
    ensures
        final(fs).wf(),
        final(fs).rename_supported == old(fs).rename_supported,
        ok == (old(fs).has(oldp.deep_view()) && old(fs).can_create(newp.deep_view()) && !under(
            oldp.deep_view(),
            newp.deep_view(),
        )),
        !ok ==> *final(fs) == *old(fs),
        ok ==> forall|q: Seq<Seq<char>>|
            old(fs).has(q) && under(oldp.deep_view(), q) ==> final(fs).has(
                #[trigger] rewritten(q, oldp.deep_view(), newp.deep_view()),
            ) && final(fs).at(rewritten(q, oldp.deep_view(), newp.deep_view())) == old(fs).at(q),
        ok ==> forall|q: Seq<Seq<char>>|
            old(fs).has(q) && !under(oldp.deep_view(), q) ==> #[trigger] final(fs).has(q)
                && final(fs).at(q) == old(fs).at(q),
        ok ==> forall|q: Seq<Seq<char>>|
            #[trigger] final(fs).has(q) ==> (old(fs).has(q) && !under(oldp.deep_view(), q)) || (
            under(newp.deep_view(), q) && old(fs).has(
                oldp.deep_view() + q.skip(newp.deep_view().len() as int),
            )),
{
    let ghost pre = *fs;
    let ghost ov = oldp.deep_view();
    let ghost nv = newp.deep_view();
    let src_ok = lookup(fs, oldp).is_some();
    let dst_ok = check_can_create(fs, newp);
    let not_nested = !path_starts_with(newp, oldp);
    if !(src_ok && dst_ok && not_nested) {
        return false;
    }
    assert(move_pre(pre, ov, nv));
    if fs.rename_supported {
        let n = fs.entries.len();
        for j in 0..n
            invariant
                n == fs.entries@.len() == pre.entries@.len(),
                fs.rename_supported == pre.rename_supported,
                ov == oldp.deep_view(),
                nv == newp.deep_view(),
                move_pre(pre, ov, nv),
                forall|i: int| j <= i < n ==> #[trigger] fs.entries@[i] == pre.entries@[i],
                forall|i: int|
                    0 <= i < j ==> moved_or_kept(#[trigger] fs.entries@[i], pre.entries@[i], ov, nv),
        {
            let moved = path_starts_with(&fs.entries[j].path, oldp);
            if moved {
                let e = clone_entry(&fs.entries[j]);
                assert(e.path@.len() >= oldp@.len()) by {
                    assert(under(ov, e.path.deep_view()));
                }
                let np = rewrite_path(&e.path, oldp, newp);
                fs.entries.set(j, VfsEntry { path: np, node: e.node });
                assert(moved_or_kept(fs.entries@[j as int], pre.entries@[j as int], ov, nv));
            } else {
                assert(moved_or_kept(fs.entries@[j as int], pre.entries@[j as int], ov, nv));
            }
        }
        proof {
            lemma_move_result(pre, *fs, ov, nv);
        }
        true
    } else {
        let mut rebuilt: Vec<VfsEntry> = Vec::new();
        let n = fs.entries.len();
        for j in 0..n
            invariant
                *fs == pre,
                n == pre.entries@.len(),
                rebuilt@.len() == j,
                ov == oldp.deep_view(),
                nv == newp.deep_view(),
                move_pre(pre, ov, nv),
                forall|i: int|
                    0 <= i < j ==> moved_or_kept(#[trigger] rebuilt@[i], pre.entries@[i], ov, nv),
        {
            let e = clone_entry(&fs.entries[j]);
            if path_starts_with(&fs.entries[j].path, oldp) {
                assert(e.path@.len() >= oldp@.len()) by {
                    assert(under(ov, e.path.deep_view()));
                }
                let np = rewrite_path(&e.path, oldp, newp);
                rebuilt.push(VfsEntry { path: np, node: e.node });
            } else {
                rebuilt.push(e);
            }
            assert(moved_or_kept(rebuilt@[j as int], pre.entries@[j as int], ov, nv));
        }
        fs.entries = rebuilt;
        proof {
            lemma_move_result(pre, *fs, ov, nv);
        }
        true
    }
}

pub fn lookup(fs: &Vfs, p: &Vec<String>) -> (r: Option<usize>)
    ensures
        match r {
            Some(i) => i < fs.entries@.len() && fs.entries@[i as int].path.deep_view()
                == p.deep_view(),
            None => !fs.has(p.deep_view()),
        },
{
    let n = fs.entries.len();
    for i in 0..n
        invariant
            n == fs.entries@.len(),
            forall|k: int|
                0 <= k < i ==> (#[trigger] fs.entries@[k]).path.deep_view() != p.deep_view(),
    {
        if path_eq(&fs.entries[i].path, p) {
            return Some(i);
        }
    }
    assert(!fs.has(p.deep_view()));
    None
}


/// A filter that holds of no entry yields nothing.
pub proof fn lemma_filter_empty(s: Seq<VfsEntry>, pred: spec_fn(VfsEntry) -> bool)
    requires
        forall|i: int| 0 <= i < s.len() ==> !pred(#[trigger] s[i]),
    ensures
        s.filter(pred) == Seq::<VfsEntry>::empty(),
    decreases s.len(),
{
    reveal_with_fuel(Seq::<VfsEntry>::filter, 2);
    if s.len() > 0 {
        assert forall|i: int| 0 <= i < s.drop_last().len() implies !pred(
            #[trigger] s.drop_last()[i],
        ) by {
            assert(s.drop_last()[i] == s[i]);
        }
        lemma_filter_empty(s.drop_last(), pred);
        assert(!pred(s[s.len() - 1]));
        assert(s.last() == s[s.len() - 1]);
        assert(s.filter(pred) =~= Seq::<VfsEntry>::empty());
    }
}

/// Whether the entry is a directory sitting directly in `p`.
pub open spec fn is_child_dir(e: VfsEntry, p: Seq<Seq<char>>) -> bool {
    &&& e.path.deep_view().len() == p.len() + 1
    &&& under(p, e.path.deep_view())
    &&& e.node is Dir
}

/// Whether the entry is a file sitting directly in `p`.
pub open spec fn is_child_file(e: VfsEntry, p: Seq<Seq<char>>) -> bool {
    &&& e.path.deep_view().len() == p.len() + 1
    &&& under(p, e.path.deep_view())
    &&& e.node is File
}

/// The names of the directories sitting directly in `p`, in the
/// order the tree yields them.
pub open spec fn child_dir_names(fs: Vfs, p: Seq<Seq<char>>) -> Seq<Seq<char>> {
    fs.entries@.filter(|e: VfsEntry| is_child_dir(e, p)).map_values(
        |e: VfsEntry| e.path.deep_view().last(),
    )
}

/// The names of the files sitting directly in `p`, in the order the
/// tree yields them.
pub open spec fn child_file_names(fs: Vfs, p: Seq<Seq<char>>) -> Seq<Seq<char>> {
    fs.entries@.filter(|e: VfsEntry| is_child_file(e, p)).map_values(
        |e: VfsEntry| e.path.deep_view().last(),
    )
}

/// Lists the names of the directories sitting directly in `p`.
pub fn list_child_dirs(fs: &Vfs, p: &Vec<String>) -> (r: Vec<String>)
    ensures
        r.deep_view() == child_dir_names(*fs, p.deep_view()),
{
    let ghost pv = p.deep_view();
    let ghost pred = |e: VfsEntry| is_child_dir(e, pv);
    let mut r: Vec<String> = Vec::new();
    let n = fs.entries.len();
    for j in 0..n
        invariant
            n == fs.entries@.len(),
            pv == p.deep_view(),
            pred == (|e: VfsEntry| is_child_dir(e, pv)),
            r.deep_view() == fs.entries@.take(j as int).filter(pred).map_values(
                |e: VfsEntry| e.path.deep_view().last(),
            ),
    {
        let ghost taken = fs.entries@.take(j as int);
        proof {
            assert(fs.entries@.take(j + 1).drop_last() =~= taken);
            assert(fs.entries@.take(j + 1).last() == fs.entries@[j as int]);
            reveal_with_fuel(Seq::<VfsEntry>::filter, 2);
        }
        let is_dir = match &fs.entries[j].node {
            VfsNode::Dir { .. } => true,
            VfsNode::File { .. } => false,
        };
        if is_dir && fs.entries[j].path.len() >= 1 && fs.entries[j].path.len() - 1 == p.len()
            && path_starts_with(&fs.entries[j].path, p) {
            let name = fs.entries[j].path[p.len()].clone();
            let ghost r0 = r.deep_view();
            r.push(name);
            proof {
                assert(is_child_dir(fs.entries@[j as int], pv));
                assert(fs.entries@[j as int].path.deep_view().last() == name@);
                assert(r.deep_view() =~= r0.push(name@));
                assert(fs.entries@.take(j + 1).filter(pred) =~= taken.filter(pred).push(
                    fs.entries@[j as int],
                ));
                assert(r.deep_view() =~= fs.entries@.take(j + 1).filter(pred).map_values(
                    |e: VfsEntry| e.path.deep_view().last(),
                ));
            }
        } else {
            proof {
                assert(!is_child_dir(fs.entries@[j as int], pv));
                assert(fs.entries@.take(j + 1).filter(pred) =~= taken.filter(pred));
            }
        }
    }
    proof {
        assert(fs.entries@.take(n as int) =~= fs.entries@);
    }
    r
}

/// Lists the names of the files sitting directly in `p`.
pub fn list_child_files(fs: &Vfs, p: &Vec<String>) -> (r: Vec<String>)
    ensures
        r.deep_view() == child_file_names(*fs, p.deep_view()),
{
    let ghost pv = p.deep_view();
    let ghost pred = |e: VfsEntry| is_child_file(e, pv);
    let mut r: Vec<String> = Vec::new();
    let n = fs.entries.len();
    for j in 0..n
        invariant
            n == fs.entries@.len(),
            pv == p.deep_view(),
            pred == (|e: VfsEntry| is_child_file(e, pv)),
            r.deep_view() == fs.entries@.take(j as int).filter(pred).map_values(
                |e: VfsEntry| e.path.deep_view().last(),
            ),
    {
        let ghost taken = fs.entries@.take(j as int);
        proof {
            assert(fs.entries@.take(j + 1).drop_last() =~= taken);
            assert(fs.entries@.take(j + 1).last() == fs.entries@[j as int]);
            reveal_with_fuel(Seq::<VfsEntry>::filter, 2);
        }
        let is_file = match &fs.entries[j].node {
            VfsNode::Dir { .. } => false,
            VfsNode::File { .. } => true,
        };
        if is_file && fs.entries[j].path.len() >= 1 && fs.entries[j].path.len() - 1 == p.len()
            && path_starts_with(&fs.entries[j].path, p) {
            let name = fs.entries[j].path[p.len()].clone();
            let ghost r0 = r.deep_view();
            r.push(name);
            proof {
                assert(is_child_file(fs.entries@[j as int], pv));
                assert(fs.entries@[j as int].path.deep_view().last() == name@);
                assert(r.deep_view() =~= r0.push(name@));
                assert(fs.entries@.take(j + 1).filter(pred) =~= taken.filter(pred).push(
                    fs.entries@[j as int],
                ));
                assert(r.deep_view() =~= fs.entries@.take(j + 1).filter(pred).map_values(
                    |e: VfsEntry| e.path.deep_view().last(),
                ));
            }
        } else {
            proof {
                assert(!is_child_file(fs.entries@[j as int], pv));
                assert(fs.entries@.take(j + 1).filter(pred) =~= taken.filter(pred));
            }
        }
    }
    proof {
        assert(fs.entries@.take(n as int) =~= fs.entries@);
    }
    r
}

} // verus!
