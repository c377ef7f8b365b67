//! The in-memory tree model of a walked directory subtree.
//!
//! A tree is built once from a sequence of `(relative path, is-directory)`
//! entries that an external directory walker has already filtered, and is
//! read-only afterwards. Each directory keeps its children sorted by name;
//! path segments and names are plain byte strings.

use vstd::prelude::*;

use crate::order::ByteOrder;
use crate::order::lemma_lex_trans;
use crate::order::lemma_lex_trichotomy;
use crate::order::lex_cmp;
use crate::order::lex_lt;

verus! {

broadcast use vstd::std_specs::vec::group_vec_axioms, vstd::seq::group_seq_axioms;

/// One child of a directory node: its name (a single path segment) and the
/// subtree behind it.
pub struct ChildEntry {
    pub name: Vec<u8>,
    pub node: FileTree,
}

/// A directory subtree: either a directory with named children, kept in
/// ascending lexicographic order of name, or a file leaf.
pub enum FileTree {
    Node(Vec<ChildEntry>),
    Leaf,
}

/// What a path refers to inside a tree.
pub enum EntryKind {
    Directory,
    File,
}

/// One record handed over by the external walker: the relative path of the
/// walked item, split into segments, and its classification.
pub struct WalkEntry {
    pub segments: Vec<Vec<u8>>,
    pub is_directory: bool,
}

/// The children names are in strictly ascending lexicographic order.
pub open spec fn sorted_names(cs: Seq<ChildEntry>) -> bool {
    forall|i: int, j: int|
        #![trigger cs[i], cs[j]]
        0 <= i < j < cs.len() ==> lex_lt(cs[i].name@, cs[j].name@)
}

/// Every child subtree is well formed.
pub open spec fn all_wf(cs: Seq<ChildEntry>) -> bool
    decreases cs,
{
    forall|i: int| 0 <= i < cs.len() ==> (#[trigger] cs[i].node).wf()
}

/// Some child carries the given name.
pub open spec fn has_child(cs: Seq<ChildEntry>, name: Seq<u8>) -> bool {
    exists|i: int| 0 <= i < cs.len() && (#[trigger] cs[i]).name@ == name
}

/// Resolves a non-empty path against a children list: descends into the
/// first child whose name matches the leading segment.
pub open spec fn children_entry_at(cs: Seq<ChildEntry>, p: Seq<Seq<u8>>) -> Option<EntryKind>
    recommends
        p.len() > 0,
    decreases cs, p.len(),
{
    if p.len() == 0 || cs.len() == 0 {
        None
    } else if cs[0].name@ == p[0] {
        cs[0].node.entry_at(p.drop_first())
    } else {
        children_entry_at(cs.drop_first(), p)
    }
}

/// The number of file leaves under a children list.
pub open spec fn count_children(cs: Seq<ChildEntry>) -> nat
    decreases cs, 0int,
{
    if cs.len() == 0 {
        0
    } else {
        cs[0].node.spec_file_count() + count_children(cs.drop_first())
    }
}

impl FileTree {
    /// The children list of a directory node; empty for a leaf.
    pub open spec fn children(self) -> Seq<ChildEntry> {
        match self {
            FileTree::Node(cs) => cs@,
            FileTree::Leaf => Seq::empty(),
        }
    }

    /// Directory or file.
    pub open spec fn kind(self) -> EntryKind {
        match self {
            FileTree::Node(_) => EntryKind::Directory,
            FileTree::Leaf => EntryKind::File,
        }
    }

    /// Well-formedness: in every directory, the children are sorted
    /// strictly ascending by name, so each name appears at most once.
    pub open spec fn wf(self) -> bool
        decreases self, 0int,
    {
        match self {
            FileTree::Leaf => true,
            FileTree::Node(cs) => sorted_names(cs@) && all_wf(cs@),
        }
    }

    /// What the given path refers to in this tree: the root itself for the
    /// empty path, otherwise the entry reached by descending one segment at
    /// a time, or nothing if the descent leaves the tree.
    pub open spec fn entry_at(self, p: Seq<Seq<u8>>) -> Option<EntryKind>
        decreases self, p.len(),
    {
        if p.len() == 0 {
            Some(self.kind())
        } else {
            match self {
                FileTree::Leaf => None,
                FileTree::Node(cs) => children_entry_at(cs@, p),
            }
        }
    }

    /// A strictly shorter prefix of the path is a file, so an insertion of
    /// the path would stop its descent there and drop the entry.
    pub open spec fn blocked(self, p: Seq<Seq<u8>>) -> bool {
        exists|j: int|
            1 <= j < p.len() && self.entry_at(#[trigger] p.take(j)) == Some(EntryKind::File)
    }

    /// An insertion of path `p` changes the tree only when no strict prefix
    /// of `p` is a file and `p` itself is not present yet.
    pub open spec fn insert_changes(self, p: Seq<Seq<u8>>) -> bool {
        !self.blocked(p) && self.entry_at(p) is None
    }

    /// The number of file leaves in the tree.
    pub open spec fn spec_file_count(self) -> nat
        decreases self, 0int,
    {
        match self {
            FileTree::Leaf => 1,
            FileTree::Node(cs) => count_children(cs@),
        }
    }
}

/// What inserting `p` makes `q` refer to, given the tree before the
/// insertion: `p` itself gets the inserted kind, missing intermediate
/// directories appear, everything else keeps its old meaning.
pub open spec fn inserted_entry(
    t: FileTree,
    p: Seq<Seq<u8>>,
    is_directory: bool,
    q: Seq<Seq<u8>>,
) -> Option<EntryKind> {
    if q == p {
        Some(
            if is_directory {
                EntryKind::Directory
            } else {
                EntryKind::File
            },
        )
    } else if is_strict_prefix_of(q, p) && t.entry_at(q) is None {
        Some(EntryKind::Directory)
    } else {
        t.entry_at(q)
    }
}

/// `q` is a (possibly equal) prefix of `p`.
pub open spec fn is_prefix_of(q: Seq<Seq<u8>>, p: Seq<Seq<u8>>) -> bool {
    q.len() <= p.len() && q == p.take(q.len() as int)
}

/// `q` is a strictly shorter prefix of `p`.
pub open spec fn is_strict_prefix_of(q: Seq<Seq<u8>>, p: Seq<Seq<u8>>) -> bool {
    q.len() < p.len() && q == p.take(q.len() as int)
}

/// The path formed by the segment views from position `idx` on.
pub open spec fn path_from(segments: Seq<Vec<u8>>, idx: int) -> Seq<Seq<u8>>
    recommends
        0 <= idx <= segments.len(),
{
    Seq::new((segments.len() - idx) as nat, |k: int| segments[idx + k]@)
}

/// Dropping the first child keeps the names sorted.
proof fn lemma_sorted_drop(cs: Seq<ChildEntry>)
    requires
        sorted_names(cs),
        cs.len() > 0,
    ensures
        sorted_names(cs.drop_first()),
{
    let d = cs.drop_first();
    assert forall|i: int, j: int|
        #![trigger d[i], d[j]]
        0 <= i < j < d.len() implies lex_lt(d[i].name@, d[j].name@) by {
        assert(d[i] == cs[i + 1]);
        assert(d[j] == cs[j + 1]);
    }
}

/// In a sorted children list, resolving a path that starts with the name of
/// child `i` descends into exactly that child.
pub proof fn lemma_entry_at_index(cs: Seq<ChildEntry>, p: Seq<Seq<u8>>, i: int)
    requires
        sorted_names(cs),
        p.len() > 0,
        0 <= i < cs.len(),
        cs[i].name@ == p[0],
    ensures
        children_entry_at(cs, p) == cs[i].node.entry_at(p.drop_first()),
    decreases i,
{
    if i > 0 {
        assert(lex_lt(cs[0].name@, cs[i].name@));
        lemma_lex_trichotomy(cs[0].name@, cs[i].name@);
        lemma_sorted_drop(cs);
        lemma_entry_at_index(cs.drop_first(), p, i - 1);
        assert(cs.drop_first()[i - 1] == cs[i]);
    }
}

/// Resolving a path whose leading segment no child carries gives nothing.
pub proof fn lemma_entry_at_absent(cs: Seq<ChildEntry>, p: Seq<Seq<u8>>)
    requires
        p.len() > 0,
        !has_child(cs, p[0]),
    ensures
        children_entry_at(cs, p) is None,
    decreases cs.len(),
{
    if cs.len() > 0 {
        assert(cs[0].name@ != p[0]);
        assert(!has_child(cs.drop_first(), p[0])) by {
            if has_child(cs.drop_first(), p[0]) {
                let w = choose|w: int|
                    0 <= w < cs.drop_first().len() && (#[trigger] cs.drop_first()[w]).name@ == p[0];
                assert(cs[w + 1] == cs.drop_first()[w]);
            }
        }
        lemma_entry_at_absent(cs.drop_first(), p);
    }
}

/// Updating a child in place, keeping its name, keeps the names sorted.
proof fn lemma_sorted_update(cs: Seq<ChildEntry>, j: int, c: ChildEntry)
    requires
        sorted_names(cs),
        0 <= j < cs.len(),
        c.name@ == cs[j].name@,
    ensures
        sorted_names(cs.update(j, c)),
{
    let u = cs.update(j, c);
    assert forall|i: int, k: int|
        #![trigger u[i], u[k]]
        0 <= i < k < u.len() implies lex_lt(u[i].name@, u[k].name@) by {
        assert(u[i].name@ == cs[i].name@) by {
            if i != j {
                assert(u[i] == cs[i]);
            }
        }
        assert(u[k].name@ == cs[k].name@) by {
            if k != j {
                assert(u[k] == cs[k]);
            }
        }
    }
}

/// Inserting a child whose name fits strictly between its neighbours keeps
/// the names sorted.
proof fn lemma_sorted_insert(cs: Seq<ChildEntry>, j: int, c: ChildEntry)
    requires
        sorted_names(cs),
        0 <= j <= cs.len(),
        forall|k: int| 0 <= k < j ==> lex_lt((#[trigger] cs[k]).name@, c.name@),
        forall|k: int| j <= k < cs.len() ==> lex_lt(c.name@, (#[trigger] cs[k]).name@),
    ensures
        sorted_names(cs.insert(j, c)),
{
    let u = cs.insert(j, c);
    assert forall|i: int, k: int|
        #![trigger u[i], u[k]]
        0 <= i < k < u.len() implies lex_lt(u[i].name@, u[k].name@) by {
        if i < j {
            assert(u[i] == cs[i]);
        } else if i > j {
            assert(u[i] == cs[i - 1]);
        }
        if k < j {
            assert(u[k] == cs[k]);
        } else if k > j {
            assert(u[k] == cs[k - 1]);
        }
    }
}

/// How resolving a path behaves after a child is replaced in place: paths
/// entering the replaced child see the new subtree, all others are
/// untouched.
proof fn lemma_entry_update(cs: Seq<ChildEntry>, j: int, c: ChildEntry, q: Seq<Seq<u8>>)
    requires
        sorted_names(cs),
        0 <= j < cs.len(),
        c.name@ == cs[j].name@,
        q.len() > 0,
    ensures
        q[0] == c.name@ ==> children_entry_at(cs.update(j, c), q) == c.node.entry_at(
            q.drop_first(),
        ),
        q[0] != c.name@ ==> children_entry_at(cs.update(j, c), q) == children_entry_at(cs, q),
{
    let u = cs.update(j, c);
    lemma_sorted_update(cs, j, c);
    if q[0] == c.name@ {
        lemma_entry_at_index(u, q, j);
    } else {
        if has_child(cs, q[0]) {
            let i = choose|i: int| 0 <= i < cs.len() && (#[trigger] cs[i]).name@ == q[0];
            lemma_entry_at_index(cs, q, i);
            assert(u[i] == cs[i]);
            lemma_entry_at_index(u, q, i);
        } else {
            lemma_entry_at_absent(cs, q);
            assert(!has_child(u, q[0])) by {
                if has_child(u, q[0]) {
                    let w = choose|w: int| 0 <= w < u.len() && (#[trigger] u[w]).name@ == q[0];
                    assert(cs[w].name@ == q[0]) by {
                        if w != j {
                            assert(u[w] == cs[w]);
                        }
                    }
                }
            }
            lemma_entry_at_absent(u, q);
        }
    }
}

/// How resolving a path behaves after a fresh child is inserted: paths
/// entering the new child see its subtree, all others are untouched.
proof fn lemma_entry_insert(cs: Seq<ChildEntry>, j: int, c: ChildEntry, q: Seq<Seq<u8>>)
    requires
        sorted_names(cs),
        0 <= j <= cs.len(),
        forall|k: int| 0 <= k < j ==> lex_lt((#[trigger] cs[k]).name@, c.name@),
        forall|k: int| j <= k < cs.len() ==> lex_lt(c.name@, (#[trigger] cs[k]).name@),
        q.len() > 0,
    ensures
        q[0] == c.name@ ==> children_entry_at(cs.insert(j, c), q) == c.node.entry_at(
            q.drop_first(),
        ),
        q[0] != c.name@ ==> children_entry_at(cs.insert(j, c), q) == children_entry_at(cs, q),
{
    let u = cs.insert(j, c);
    lemma_sorted_insert(cs, j, c);
    if q[0] == c.name@ {
        assert(u[j] == c);
        lemma_entry_at_index(u, q, j);
    } else {
        if has_child(cs, q[0]) {
            let i = choose|i: int| 0 <= i < cs.len() && (#[trigger] cs[i]).name@ == q[0];
            lemma_entry_at_index(cs, q, i);
            if i < j {
                assert(u[i] == cs[i]);
                lemma_entry_at_index(u, q, i);
            } else {
                assert(u[i + 1] == cs[i]);
                lemma_entry_at_index(u, q, i + 1);
            }
        } else {
            lemma_entry_at_absent(cs, q);
            assert(!has_child(u, q[0])) by {
                if has_child(u, q[0]) {
                    let w = choose|w: int| 0 <= w < u.len() && (#[trigger] u[w]).name@ == q[0];
                    if w < j {
                        assert(cs[w] == u[w]);
                    } else if w > j {
                        assert(cs[w - 1] == u[w]);
                    }
                }
            }
            lemma_entry_at_absent(u, q);
        }
    }
}

/// A tree is blocked for a path exactly when the child the path enters is a
/// file, or the child subtree is itself blocked for the rest of the path.
proof fn lemma_blocked_via_child(t: FileTree, p: Seq<Seq<u8>>, i: int)
    requires
        t is Node,
        sorted_names(t.children()),
        p.len() >= 2,
        0 <= i < t.children().len(),
        t.children()[i].name@ == p[0],
    ensures
        t.blocked(p) <==> (t.children()[i].node is Leaf || t.children()[i].node.blocked(
            p.drop_first(),
        )),
{
    let cs = t.children();
    let child = cs[i].node;
    let p2 = p.drop_first();
    assert forall|j: int| 1 <= j < p.len() implies t.entry_at(#[trigger] p.take(j))
        == child.entry_at(p2.take(j - 1)) by {
        assert(p.take(j)[0] == p[0]);
        lemma_entry_at_index(cs, p.take(j), i);
        assert(p.take(j).drop_first() =~= p2.take(j - 1));
    }
    if t.blocked(p) {
        let j = choose|j: int|
            1 <= j < p.len() && t.entry_at(#[trigger] p.take(j)) == Some(EntryKind::File);
        if j == 1 {
            assert(child.entry_at(p2.take(0)) == Some(EntryKind::File));
            assert(p2.take(0).len() == 0);
            assert(child.kind() == EntryKind::File);
        } else {
            assert(child.entry_at(p2.take(j - 1)) == Some(EntryKind::File));
            assert(child.blocked(p2));
        }
    }
    if child is Leaf {
        assert(child.entry_at(p2.take(0)) == Some(EntryKind::File));
        assert(t.entry_at(p.take(1)) == Some(EntryKind::File));
        assert(t.blocked(p));
    } else if child.blocked(p2) {
        let j2 = choose|j2: int|
            1 <= j2 < p2.len() && child.entry_at(#[trigger] p2.take(j2)) == Some(EntryKind::File);
        assert(t.entry_at(p.take(j2 + 1)) == Some(EntryKind::File));
        assert(t.blocked(p));
    }
}

/// File count after replacing a child in place.
proof fn lemma_count_update(cs: Seq<ChildEntry>, j: int, c: ChildEntry)
    requires
        0 <= j < cs.len(),
    ensures
        count_children(cs.update(j, c)) + cs[j].node.spec_file_count() == count_children(cs)
            + c.node.spec_file_count(),
    decreases j,
{
    let u = cs.update(j, c);
    if j == 0 {
        assert(u.drop_first() =~= cs.drop_first());
    } else {
        assert(u.drop_first() =~= cs.drop_first().update(j - 1, c));
        lemma_count_update(cs.drop_first(), j - 1, c);
        assert(cs.drop_first()[j - 1] == cs[j]);
    }
}

/// File count after inserting a child.
proof fn lemma_count_insert(cs: Seq<ChildEntry>, j: int, c: ChildEntry)
    requires
        0 <= j <= cs.len(),
    ensures
        count_children(cs.insert(j, c)) == count_children(cs) + c.node.spec_file_count(),
    decreases j,
{
    let u = cs.insert(j, c);
    if j == 0 {
        assert(u[0] == c);
        assert(u.drop_first() =~= cs);
    } else {
        assert(u[0] == cs[0]);
        assert(u.drop_first() =~= cs.drop_first().insert(j - 1, c));
        lemma_count_insert(cs.drop_first(), j - 1, c);
    }
}

/// Finds the first position at or after `i` whose child name does not sort
/// before `name`: the position where `name` belongs.
fn find_pos(children: &Vec<ChildEntry>, name: &Vec<u8>, i: usize) -> (r: usize)
    requires
        i <= children.len(),
        forall|k: int| 0 <= k < i ==> lex_lt((#[trigger] children@[k]).name@, name@),
    ensures
        i <= r <= children.len(),
        forall|k: int| 0 <= k < r ==> lex_lt((#[trigger] children@[k]).name@, name@),
        r < children.len() ==> !lex_lt(children@[r as int].name@, name@),
    decreases children.len() - i,
{
    if i == children.len() {
        i
    } else {
        match lex_cmp(&children[i].name, name) {
            ByteOrder::Before => find_pos(children, name, i + 1),
            _ => i,
        }
    }
}

impl FileTree {
    /// Inserts the path formed by `segments[idx..]` as a directory or a
    /// file. A present path leaves the tree as it is (idempotent for files,
    /// merging for directories); a path whose descent runs into a file leaf
    /// is dropped; missing intermediate directories are created. The tree
    /// stays well formed, and every path afterwards refers to what
    /// `inserted_entry` says.
    pub fn insert_from(self, segments: &Vec<Vec<u8>>, idx: usize, is_directory: bool) -> (r:
        FileTree)
        requires
            self.wf(),
            idx < segments.len(),
        ensures
            r.wf(),
            r.kind() == self.kind(),
            self is Leaf ==> r == self,
            ({
                let p = path_from(segments@, idx as int);
                &&& (!self.insert_changes(p) ==> (forall|q: Seq<Seq<u8>>|
                    r.entry_at(q) == self.entry_at(q)))
                &&& ((self is Node && self.insert_changes(p)) ==> (forall|q: Seq<Seq<u8>>|
                    r.entry_at(q) == inserted_entry(self, p, is_directory, q)))
                &&& r.spec_file_count() == self.spec_file_count() + (if self is Node
                    && self.insert_changes(p) && !is_directory {
                    1nat
                } else {
                    0nat
                })
            }),
        decreases segments.len() - idx,
    {
        let ghost old_self = self;
        let ghost p = path_from(segments@, idx as int);
        proof {
            assert(p.len() == segments@.len() - idx);
            assert(p[0] == segments@[idx as int]@);
        }
        match self {
            FileTree::Leaf => FileTree::Leaf,
            FileTree::Node(mut children) => {
                let ghost cs0 = children@;
                let j = find_pos(&children, &segments[idx], 0);
                let is_match = if j < children.len() {
                    matches!(lex_cmp(&children[j].name, &segments[idx]), ByteOrder::Same)
                } else {
                    false
                };
                if is_match {
                    if idx + 1 == segments.len() {
                        // the path is already present: keep the tree as it is
                        proof {
                            lemma_entry_at_index(cs0, p, j as int);
                            assert(p.drop_first().len() == 0);
                            assert(old_self.entry_at(p) is Some);
                            assert(!old_self.insert_changes(p));
                            assert forall|q: Seq<Seq<u8>>|
                                FileTree::Node(children).entry_at(q) == old_self.entry_at(
                                q,
                            ) by {}
                        }
                        FileTree::Node(children)
                    } else {
                        let removed = children.remove(j);
                        let ghost c_old = removed.name;
                        let ghost child = removed.node;
                        let ghost p2 = path_from(segments@, idx as int + 1);
                        proof {
                            assert(removed == cs0[j as int]);
                            assert(cs0[j as int].node.wf());
                            assert(p.drop_first() =~= p2);
                            assert(p.len() >= 2);
                            lemma_entry_at_index(cs0, p, j as int);
                            lemma_blocked_via_child(old_self, p, j as int);
                        }
                        let new_node = removed.node.insert_from(segments, idx + 1, is_directory);
                        let new_child = ChildEntry { name: removed.name, node: new_node };
                        children.insert(j, new_child);
                        let ghost u = children@;
                        proof {
                            assert(u =~= cs0.update(j as int, new_child));
                            lemma_sorted_update(cs0, j as int, new_child);
                            assert forall|k: int| 0 <= k < u.len() implies (#[trigger] u[k]).node.wf() by {
                                if k != j {
                                    assert(u[k] == cs0[k]);
                                    assert(cs0[k].node.wf());
                                }
                            }
                            lemma_count_update(cs0, j as int, new_child);
                            if child is Leaf {
                                // the descent runs into a file: nothing changes
                                assert(new_node == child);
                                assert(new_child == cs0[j as int]);
                                assert(u =~= cs0);
                                assert(old_self.blocked(p));
                                assert forall|q: Seq<Seq<u8>>|
                                    FileTree::Node(children).entry_at(q) == old_self.entry_at(
                                    q,
                                ) by {}
                            } else {
                                assert(old_self.blocked(p) <==> child.blocked(p2));
                                assert(old_self.entry_at(p) == child.entry_at(p2));
                                assert(old_self.insert_changes(p) <==> child.insert_changes(p2));
                                if child.insert_changes(p2) {
                                    assert forall|q: Seq<Seq<u8>>|
                                        FileTree::Node(children).entry_at(q) == inserted_entry(
                                        old_self,
                                        p,
                                        is_directory,
                                        q,
                                    ) by {
                                        lemma_lift_inserted(
                                            old_self,
                                            cs0,
                                            u,
                                            j as int,
                                            child,
                                            new_node,
                                            p,
                                            p2,
                                            is_directory,
                                            q,
                                        );
                                    }
                                } else {
                                    assert forall|q: Seq<Seq<u8>>|
                                        FileTree::Node(children).entry_at(q) == old_self.entry_at(
                                        q,
                                    ) by {
                                        if q.len() > 0 {
                                            lemma_entry_update(cs0, j as int, new_child, q);
                                            if q[0] == c_old@ {
                                                lemma_entry_at_index(cs0, q, j as int);
                                            }
                                        }
                                    }
                                }
                            }
                        }
                        FileTree::Node(children)
                    }
                } else {
                    let ghost n = segments@[idx as int]@;
                    proof {
                        if j < children.len() {
                            assert(!lex_lt(cs0[j as int].name@, n));
                            lemma_lex_trichotomy(cs0[j as int].name@, n);
                            assert(lex_lt(n, cs0[j as int].name@));
                        }
                        assert forall|k: int| j <= k < cs0.len() implies lex_lt(
                            n,
                            (#[trigger] cs0[k]).name@,
                        ) by {
                            if k > j {
                                lemma_lex_trans(n, cs0[j as int].name@, cs0[k].name@);
                            }
                        }
                        assert(!has_child(cs0, n)) by {
                            if has_child(cs0, n) {
                                let w = choose|w: int|
                                    0 <= w < cs0.len() && (#[trigger] cs0[w]).name@ == n;
                                lemma_lex_trichotomy(cs0[w].name@, n);
                            }
                        }
                        assert forall|j2: int| 1 <= j2 < p.len() implies old_self.entry_at(
                            #[trigger] p.take(j2),
                        ) is None by {
                            assert(p.take(j2)[0] == n);
                            lemma_entry_at_absent(cs0, p.take(j2));
                        }
                        assert(!old_self.blocked(p));
                        lemma_entry_at_absent(cs0, p);
                        assert(old_self.insert_changes(p));
                    }
                    let ghost mut e0 = FileTree::Leaf;
                    let ghost p2 = path_from(segments@, idx as int + 1);
                    let node = if idx + 1 == segments.len() {
                        if is_directory {
                            FileTree::Node(Vec::new())
                        } else {
                            FileTree::Leaf
                        }
                    } else {
                        let empty = FileTree::Node(Vec::new());
                        proof {
                            e0 = empty;
                            assert(e0.children() =~= Seq::<ChildEntry>::empty());
                            assert(e0.wf());
                            assert forall|j2: int| 1 <= j2 < p2.len() implies e0.entry_at(
                                #[trigger] p2.take(j2),
                            ) is None by {
                                assert(p2.take(j2).len() == j2);
                            }
                            assert(e0.entry_at(p2) is None);
                            assert(e0.insert_changes(p2));
                        }
                        empty.insert_from(segments, idx + 1, is_directory)
                    };
                    let name_copy = vstd::slice::slice_to_vec(segments[idx].as_slice());
                    let c = ChildEntry { name: name_copy, node };
                    proof {
                        assert(c.name@ == n);
                    }
                    children.insert(j, c);
                    let ghost u = children@;
                    proof {
                        assert(u == cs0.insert(j as int, c));
                        lemma_sorted_insert(cs0, j as int, c);
                        assert forall|k: int| 0 <= k < u.len() implies (#[trigger] u[k]).node.wf() by {
                            if k < j {
                                assert(u[k] == cs0[k]);
                            } else if k > j {
                                assert(u[k] == cs0[k - 1]);
                            }
                        }
                        lemma_count_insert(cs0, j as int, c);
                        assert(p.drop_first() =~= p2);
                        assert forall|q: Seq<Seq<u8>>|
                            FileTree::Node(children).entry_at(q) == inserted_entry(
                            old_self,
                            p,
                            is_directory,
                            q,
                        ) by {
                            lemma_fresh_inserted(
                                old_self,
                                cs0,
                                u,
                                j as int,
                                c,
                                e0,
                                p,
                                is_directory,
                                q,
                            );
                        }
                    }
                    FileTree::Node(children)
                }
            },
        }
    }
}

/// Two non-empty paths with equal heads and equal tails are equal.
proof fn lemma_cons_eq(q: Seq<Seq<u8>>, p: Seq<Seq<u8>>)
    requires
        q.len() >= 1,
        p.len() >= 1,
        q[0] == p[0],
        q.drop_first() == p.drop_first(),
    ensures
        q =~= p,
{
    assert(q.drop_first().len() == q.len() - 1);
    assert(p.drop_first().len() == p.len() - 1);
    assert(q.len() == p.len());
    assert forall|k: int| 0 <= k < q.len() implies q[k] == p[k] by {
        if k >= 1 {
            assert(q.drop_first()[k - 1] == q[k]);
            assert(p.drop_first()[k - 1] == p[k]);
            assert(q.drop_first()[k - 1] == p.drop_first()[k - 1]);
        }
    }
}

/// A path whose head matches and whose tail is a prefix of the other tail
/// is itself a prefix.
proof fn lemma_cons_prefix(q: Seq<Seq<u8>>, p: Seq<Seq<u8>>)
    requires
        q.len() >= 1,
        q.len() <= p.len(),
        q[0] == p[0],
        q.drop_first() == p.drop_first().take(q.len() - 1),
    ensures
        q =~= p.take(q.len() as int),
{
    assert forall|k: int| 0 <= k < q.len() implies q[k] == p.take(q.len() as int)[k] by {
        if k >= 1 {
            assert(q.drop_first()[k - 1] == p.drop_first().take(q.len() - 1)[k - 1]);
        }
    }
}

/// Dropping the head of a prefix gives a prefix of the dropped other path.
proof fn lemma_drop_prefix(q: Seq<Seq<u8>>, p: Seq<Seq<u8>>)
    requires
        q.len() >= 1,
        q.len() <= p.len(),
        q == p.take(q.len() as int),
    ensures
        q.drop_first() =~= p.drop_first().take(q.len() - 1),
{
    assert forall|k: int| 0 <= k < q.len() - 1 implies q.drop_first()[k] == p.drop_first().take(
        q.len() - 1,
    )[k] by {
        assert(q[k + 1] == p.take(q.len() as int)[k + 1]);
    }
}

/// Lifts the contract of a recursive insertion one level up, for the case
/// where the insertion descended into an existing child and changed it.
proof fn lemma_lift_inserted(
    t: FileTree,
    cs0: Seq<ChildEntry>,
    u: Seq<ChildEntry>,
    j: int,
    child: FileTree,
    new_node: FileTree,
    p: Seq<Seq<u8>>,
    p2: Seq<Seq<u8>>,
    is_directory: bool,
    q: Seq<Seq<u8>>,
)
    requires
        t is Node,
        t.children() == cs0,
        sorted_names(cs0),
        0 <= j < cs0.len(),
        child == cs0[j].node,
        child is Node,
        p.len() >= 2,
        p2 == p.drop_first(),
        p[0] == cs0[j].name@,
        u == cs0.update(j, ChildEntry { name: cs0[j].name, node: new_node }),
        new_node.kind() == child.kind(),
        forall|q2: Seq<Seq<u8>>| new_node.entry_at(q2) == inserted_entry(
            child,
            p2,
            is_directory,
            q2,
        ),
    ensures
        children_entry_at_root(u, q) == inserted_entry(t, p, is_directory, q),
{
    let c = ChildEntry { name: cs0[j].name, node: new_node };
    if q.len() == 0 {
        assert(q =~= p.take(0));
        assert(is_strict_prefix_of(q, p));
        assert(t.entry_at(q) == Some(EntryKind::Directory));
    } else {
        lemma_entry_update(cs0, j, c, q);
        if q[0] == p[0] {
            let q2 = q.drop_first();
            lemma_entry_at_index(cs0, q, j);
            assert(t.entry_at(q) == child.entry_at(q2));
            assert(new_node.entry_at(q2) == inserted_entry(child, p2, is_directory, q2));
            if q2 == p2 {
                lemma_cons_eq(q, p);
            } else {
                assert(q != p) by {
                    if q == p {
                        assert(q2 =~= p2);
                    }
                }
                if is_strict_prefix_of(q2, p2) && child.entry_at(q2) is None {
                    lemma_cons_prefix(q, p);
                    assert(is_strict_prefix_of(q, p));
                } else {
                    if is_strict_prefix_of(q, p) && t.entry_at(q) is None {
                        lemma_drop_prefix(q, p);
                        assert(is_strict_prefix_of(q2, p2));
                        assert(false);
                    }
                }
            }
        } else {
            assert(q != p);
            if is_strict_prefix_of(q, p) {
                assert(q[0] == p.take(q.len() as int)[0]);
                assert(false);
            }
        }
    }
}

/// Lifts the contract of an insertion one level up, for the case where a
/// fresh child (a leaf, an empty directory, or a newly built chain) was
/// inserted among the children.
proof fn lemma_fresh_inserted(
    t: FileTree,
    cs0: Seq<ChildEntry>,
    u: Seq<ChildEntry>,
    j: int,
    c: ChildEntry,
    e: FileTree,
    p: Seq<Seq<u8>>,
    is_directory: bool,
    q: Seq<Seq<u8>>,
)
    requires
        t is Node,
        t.children() == cs0,
        sorted_names(cs0),
        0 <= j <= cs0.len(),
        forall|k: int| 0 <= k < j ==> lex_lt((#[trigger] cs0[k]).name@, c.name@),
        forall|k: int| j <= k < cs0.len() ==> lex_lt(c.name@, (#[trigger] cs0[k]).name@),
        !has_child(cs0, c.name@),
        p.len() >= 1,
        p[0] == c.name@,
        u == cs0.insert(j, c),
        p.len() == 1 ==> c.node.kind() == (if is_directory {
            EntryKind::Directory
        } else {
            EntryKind::File
        }),
        p.len() == 1 ==> c.node.children().len() == 0,
        p.len() >= 2 ==> (e is Node && e.children().len() == 0),
        p.len() >= 2 ==> (forall|q2: Seq<Seq<u8>>| c.node.entry_at(q2) == inserted_entry(
            e,
            p.drop_first(),
            is_directory,
            q2,
        )),
    ensures
        children_entry_at_root(u, q) == inserted_entry(t, p, is_directory, q),
{
    let p2 = p.drop_first();
    if q.len() == 0 {
        assert(q =~= p.take(0));
        if p.len() == 0 {
            assert(false);
        }
        assert(is_strict_prefix_of(q, p));
        assert(t.entry_at(q) == Some(EntryKind::Directory));
    } else {
        lemma_entry_insert(cs0, j, c, q);
        if q[0] == p[0] {
            let q2 = q.drop_first();
            lemma_entry_at_absent(cs0, q);
            assert(t.entry_at(q) is None);
            if q2.len() == 0 {
                // q names the new child itself
                if p.len() == 1 {
                    assert(q =~= p);
                    assert(c.node.entry_at(q2) == Some(c.node.kind()));
                } else {
                    assert(q != p);
                    assert(q =~= p.take(1));
                    assert(is_strict_prefix_of(q, p));
                    assert(c.node.entry_at(q2) == Some(c.node.kind()));
                    assert(inserted_entry(e, p2, is_directory, q2) == Some(EntryKind::Directory));
                }
            } else {
                if p.len() == 1 {
                    // below the new leaf or empty directory: nothing there
                    assert(q != p);
                    if is_strict_prefix_of(q, p) {
                        assert(false);
                    }
                    assert(c.node.entry_at(q2) is None) by {
                        if c.node is Node {
                            assert(c.node.children().len() == 0);
                        }
                    }
                } else {
                    assert(c.node.entry_at(q2) == inserted_entry(e, p2, is_directory, q2));
                    if q2 == p2 {
                        lemma_cons_eq(q, p);
                    } else {
                        assert(q != p) by {
                            if q == p {
                                assert(q2 =~= p2);
                            }
                        }
                        if is_strict_prefix_of(q2, p2) {
                            lemma_cons_prefix(q, p);
                            assert(is_strict_prefix_of(q, p));
                            assert(e.entry_at(q2) is None);
                        } else {
                            if is_strict_prefix_of(q, p) {
                                lemma_drop_prefix(q, p);
                                assert(is_strict_prefix_of(q2, p2));
                                assert(false);
                            }
                            assert(e.entry_at(q2) is None);
                        }
                    }
                }
            }
        } else {
            assert(q != p);
            if is_strict_prefix_of(q, p) {
                assert(q[0] == p.take(q.len() as int)[0]);
                assert(false);
            }
        }
    }
}

/// Resolving a path against a directory with the given children.
pub open spec fn children_entry_at_root(cs: Seq<ChildEntry>, q: Seq<Seq<u8>>) -> Option<
    EntryKind,
> {
    if q.len() == 0 {
        Some(EntryKind::Directory)
    } else {
        children_entry_at(cs, q)
    }
}

/// Inserting a path is idempotent: once an insertion has made the path
/// present, inserting it again changes nothing, whatever kind it carries.
pub proof fn lemma_insert_idempotent(
    t: FileTree,
    p: Seq<Seq<u8>>,
    is_directory: bool,
    t2: FileTree,
)
    requires
        p.len() > 0,
        t.insert_changes(p),
        forall|q: Seq<Seq<u8>>| t2.entry_at(q) == inserted_entry(t, p, is_directory, q),
    ensures
        !t2.insert_changes(p),
{
    assert(t2.entry_at(p) == inserted_entry(t, p, is_directory, p));
}

/// The relative path of a walk entry, as a sequence of segment views.
pub open spec fn entry_path(e: WalkEntry) -> Seq<Seq<u8>> {
    path_from(e.segments@, 0)
}

/// A walk sequence is coherent: every entry has a non-empty path, and no
/// file entry's path is a prefix of any other entry's path. So no path is
/// walked both as a file and as a directory, no file path repeats, and
/// files only ever stand at the end of their paths.
pub open spec fn walk_ok(entries: Seq<WalkEntry>) -> bool {
    &&& (forall|k: int|
        0 <= k < entries.len() ==> (#[trigger] entries[k]).segments@.len() > 0)
    &&& (forall|k: int, l: int|
        #![trigger entries[k], entries[l]]
        0 <= k < entries.len() && 0 <= l < entries.len() && k != l && !entries[k].is_directory
            ==> !is_prefix_of(entry_path(entries[k]), entry_path(entries[l])))
}

/// The number of file entries among the first `i` walk entries.
pub open spec fn file_entry_count(entries: Seq<WalkEntry>, i: int) -> nat
    decreases i,
{
    if i <= 0 {
        0
    } else {
        file_entry_count(entries, i - 1) + if !entries[i - 1].is_directory {
            1nat
        } else {
            0nat
        }
    }
}

/// What a path refers to in the tree built from a coherent walk sequence:
/// a file for each walked file path, a directory for the root, for each
/// walked directory path and for each strict prefix of a walked path, and
/// nothing otherwise.
pub open spec fn built_entry(entries: Seq<WalkEntry>, q: Seq<Seq<u8>>) -> Option<EntryKind> {
    if q.len() == 0 {
        Some(EntryKind::Directory)
    } else if exists|k: int|
        0 <= k < entries.len() && !(#[trigger] entries[k]).is_directory && entry_path(entries[k])
            == q {
        Some(EntryKind::File)
    } else if exists|k: int|
        0 <= k < entries.len() && is_prefix_of(q, entry_path(#[trigger] entries[k])) {
        Some(EntryKind::Directory)
    } else {
        None
    }
}

/// Prefixes compose.
proof fn lemma_prefix_trans(a: Seq<Seq<u8>>, b: Seq<Seq<u8>>, c: Seq<Seq<u8>>)
    requires
        is_prefix_of(a, b),
        is_prefix_of(b, c),
    ensures
        is_prefix_of(a, c),
{
    assert(a =~= c.take(a.len() as int)) by {
        assert forall|k: int| 0 <= k < a.len() implies a[k] == c.take(a.len() as int)[k] by {
            assert(a[k] == b.take(a.len() as int)[k]);
            assert(b[k] == c.take(b.len() as int)[k]);
        }
    }
}

/// One step of building the tree: inserting entry `i` moves the tree from
/// the meaning of the first `i` entries to that of the first `i + 1`.
proof fn lemma_new_step(entries: Seq<WalkEntry>, i: int, t_old: FileTree, t_new: FileTree)
    requires
        walk_ok(entries),
        0 <= i < entries.len(),
        t_old is Node,
        t_new is Node,
        forall|q: Seq<Seq<u8>>| t_old.entry_at(q) == built_entry(entries.take(i), q),
        ({
            let p = entry_path(entries[i]);
            &&& (!t_old.insert_changes(p) ==> (forall|q: Seq<Seq<u8>>|
                t_new.entry_at(q) == t_old.entry_at(q)))
            &&& (t_old.insert_changes(p) ==> (forall|q: Seq<Seq<u8>>|
                t_new.entry_at(q) == inserted_entry(t_old, p, entries[i].is_directory, q)))
            &&& t_new.spec_file_count() == t_old.spec_file_count() + (if t_old.insert_changes(p)
                && !entries[i].is_directory {
                1nat
            } else {
                0nat
            })
        }),
        t_old.spec_file_count() == file_entry_count(entries, i),
    ensures
        forall|q: Seq<Seq<u8>>| t_new.entry_at(q) == built_entry(entries.take(i + 1), q),
        t_new.spec_file_count() == file_entry_count(entries, i + 1),
{
    let e = entries[i];
    let p = entry_path(e);
    let d = e.is_directory;
    let ti = entries.take(i);
    let tj = entries.take(i + 1);
    assert(p.len() > 0);
    assert(is_prefix_of(p, p)) by {
        assert(p =~= p.take(p.len() as int));
    }

    // a coherent walk never runs an insertion into a file leaf
    assert(!t_old.blocked(p)) by {
        if t_old.blocked(p) {
            let j = choose|j: int|
                1 <= j < p.len() && t_old.entry_at(#[trigger] p.take(j)) == Some(EntryKind::File);
            assert(built_entry(ti, p.take(j)) == Some(EntryKind::File));
            let l = choose|l: int|
                0 <= l < ti.len() && !(#[trigger] ti[l]).is_directory && entry_path(ti[l])
                    == p.take(j);
            assert(ti[l] == entries[l]);
            assert(is_prefix_of(p.take(j), p)) by {
                assert(p.take(j) =~= p.take(p.take(j).len() as int));
            }
            assert(!is_prefix_of(entry_path(entries[l]), entry_path(entries[i])));
            assert(false);
        }
    }

    // a file entry of a coherent walk is never already present
    if !d && t_old.entry_at(p) is Some {
        assert(built_entry(ti, p) is Some);
        if built_entry(ti, p) == Some(EntryKind::File) {
            let l = choose|l: int|
                0 <= l < ti.len() && !(#[trigger] ti[l]).is_directory && entry_path(ti[l]) == p;
            assert(ti[l] == entries[l]);
            assert(!is_prefix_of(entry_path(entries[l]), entry_path(entries[i])));
            assert(false);
        } else {
            let l = choose|l: int|
                0 <= l < ti.len() && is_prefix_of(p, entry_path(#[trigger] ti[l]));
            assert(ti[l] == entries[l]);
            assert(!is_prefix_of(entry_path(entries[i]), entry_path(entries[l])));
            assert(false);
        }
    }
    let changes = t_old.insert_changes(p);
    assert(!d ==> changes);

    // if the path is already present it can only be as a directory, and all
    // its prefixes are already covered by an older entry
    if !changes {
        assert(t_old.entry_at(p) is Some);
        assert(built_entry(ti, p) is Some);
        if built_entry(ti, p) == Some(EntryKind::File) {
            let l = choose|l: int|
                0 <= l < ti.len() && !(#[trigger] ti[l]).is_directory && entry_path(ti[l]) == p;
            assert(ti[l] == entries[l]);
            assert(!is_prefix_of(entry_path(entries[l]), entry_path(entries[i])));
            assert(false);
        }
    }

    assert forall|q: Seq<Seq<u8>>| t_new.entry_at(q) == built_entry(tj, q) by {
        if q.len() == 0 {
            assert(t_new.entry_at(q) == Some(EntryKind::Directory));
        } else {
            // how the two exists clauses of `built_entry` move from `ti` to `tj`
            let file_old = exists|k: int|
                0 <= k < ti.len() && !(#[trigger] ti[k]).is_directory && entry_path(ti[k]) == q;
            let file_new = exists|k: int|
                0 <= k < tj.len() && !(#[trigger] tj[k]).is_directory && entry_path(tj[k]) == q;
            let dir_old = exists|k: int|
                0 <= k < ti.len() && is_prefix_of(q, entry_path(#[trigger] ti[k]));
            let dir_new = exists|k: int|
                0 <= k < tj.len() && is_prefix_of(q, entry_path(#[trigger] tj[k]));
            assert(file_old ==> file_new) by {
                if file_old {
                    let l = choose|l: int|
                        0 <= l < ti.len() && !(#[trigger] ti[l]).is_directory && entry_path(ti[l])
                            == q;
                    assert(0 <= l < tj.len() && !tj[l].is_directory && entry_path(tj[l]) == q);
                }
            }
            assert(dir_old ==> dir_new) by {
                if dir_old {
                    let l = choose|l: int|
                        0 <= l < ti.len() && is_prefix_of(q, entry_path(#[trigger] ti[l]));
                    assert(0 <= l < tj.len() && is_prefix_of(q, entry_path(tj[l])));
                }
            }
            assert(file_new ==> (file_old || (!d && q == p))) by {
                if file_new {
                    let l = choose|l: int|
                        0 <= l < tj.len() && !(#[trigger] tj[l]).is_directory && entry_path(tj[l])
                            == q;
                    if l < i {
                        assert(0 <= l < ti.len() && !ti[l].is_directory && entry_path(ti[l]) == q);
                    } else {
                        assert(tj[l] == e);
                    }
                }
            }
            assert(dir_new ==> (dir_old || is_prefix_of(q, p))) by {
                if dir_new {
                    let l = choose|l: int|
                        0 <= l < tj.len() && is_prefix_of(q, entry_path(#[trigger] tj[l]));
                    if l < i {
                        assert(0 <= l < ti.len() && is_prefix_of(q, entry_path(ti[l])));
                    } else {
                        assert(tj[l] == e);
                    }
                }
            }
            if changes {
                assert(t_new.entry_at(q) == inserted_entry(t_old, p, d, q));
                if q == p {
                    if d {
                        assert(!file_new) by {
                            if file_new {
                                let l = choose|l: int|
                                    0 <= l < tj.len() && !(#[trigger] tj[l]).is_directory
                                        && entry_path(tj[l]) == q;
                                assert(l < i);
                                assert(0 <= l < ti.len() && !ti[l].is_directory && entry_path(
                                    ti[l],
                                ) == q);
                                assert(built_entry(ti, p) == Some(EntryKind::File));
                            }
                        }
                        assert(0 <= i < tj.len() && is_prefix_of(q, entry_path(tj[i])));
                        assert(dir_new);
                    } else {
                        assert(0 <= i < tj.len() && !tj[i].is_directory && entry_path(tj[i]) == q);
                        assert(file_new);
                    }
                } else if is_strict_prefix_of(q, p) && t_old.entry_at(q) is None {
                    assert(!file_new) by {
                        if file_new {
                            let l = choose|l: int|
                                0 <= l < tj.len() && !(#[trigger] tj[l]).is_directory
                                    && entry_path(tj[l]) == q;
                            assert(l < i);
                            assert(0 <= l < ti.len() && !ti[l].is_directory && entry_path(ti[l])
                                == q);
                            assert(built_entry(ti, q) == Some(EntryKind::File));
                        }
                    }
                    assert(is_prefix_of(q, p));
                    assert(0 <= i < tj.len() && is_prefix_of(q, entry_path(tj[i])));
                    assert(dir_new);
                } else {
                    assert(t_new.entry_at(q) == t_old.entry_at(q));
                    assert(!(!d && q == p));
                    assert(file_new == file_old);
                    if dir_new && !dir_old {
                        assert(is_prefix_of(q, p));
                        if q.len() == p.len() {
                            assert(q =~= p);
                            assert(false);
                        }
                        assert(is_strict_prefix_of(q, p));
                        assert(t_old.entry_at(q) is Some);
                        assert(built_entry(ti, q) is Some);
                        assert(file_old || dir_old);
                        assert(false);
                    }
                    assert(dir_new == dir_old);
                }
            } else {
                assert(t_new.entry_at(q) == t_old.entry_at(q));
                assert(d);
                assert(file_new == file_old) by {
                    if file_new && !file_old {
                        let l = choose|l: int|
                            0 <= l < tj.len() && !(#[trigger] tj[l]).is_directory && entry_path(
                                tj[l],
                            ) == q;
                        if l < i {
                            assert(0 <= l < ti.len() && !ti[l].is_directory && entry_path(ti[l])
                                == q);
                        } else {
                            assert(tj[l] == e);
                        }
                    }
                }
                if dir_new && !dir_old {
                    assert(is_prefix_of(q, p));
                    // the present path is a directory covered by an older
                    // entry, so its prefixes already were
                    assert(built_entry(ti, p) == Some(EntryKind::Directory));
                    let l = choose|l: int|
                        0 <= l < ti.len() && is_prefix_of(p, entry_path(#[trigger] ti[l]));
                    lemma_prefix_trans(q, p, entry_path(ti[l]));
                    assert(0 <= l < ti.len() && is_prefix_of(q, entry_path(ti[l])));
                    assert(false);
                }
                assert(dir_new == dir_old);
            }
        }
    }
}

impl FileTree {
    /// Builds the tree from the filtered walk sequence.
    ///
    /// When the walked target is itself a single file, the tree is the one
    /// leaf standing for the root. Otherwise the root is a directory and
    /// every entry is inserted in turn; for a coherent walk sequence the
    /// tree holds exactly the walked paths, with one file leaf per file
    /// entry.
    pub fn new(entries: &Vec<WalkEntry>, root_is_file: bool) -> (t: FileTree)
        requires
            forall|k: int|
                0 <= k < entries@.len() ==> (#[trigger] entries@[k]).segments@.len() > 0,
        ensures
            t.wf(),
            root_is_file ==> t == FileTree::Leaf,
            !root_is_file ==> t is Node,
            (!root_is_file && walk_ok(entries@)) ==> {
                &&& (forall|q: Seq<Seq<u8>>| t.entry_at(q) == built_entry(entries@, q))
                &&& t.spec_file_count() == file_entry_count(entries@, entries@.len() as int)
            },
    {
        if root_is_file {
            return FileTree::Leaf;
        }
        let mut t = FileTree::Node(Vec::new());
        proof {
            assert(t.children() =~= Seq::<ChildEntry>::empty());
            assert(t.wf());
            assert forall|q: Seq<Seq<u8>>| t.entry_at(q) == built_entry(entries@.take(0), q) by {
                assert(entries@.take(0).len() == 0);
            }
        }
        let mut i: usize = 0;
        while i < entries.len()
            invariant
                i <= entries.len(),
                forall|k: int|
                    0 <= k < entries@.len() ==> (#[trigger] entries@[k]).segments@.len() > 0,
                t.wf(),
                t is Node,
                walk_ok(entries@) ==> {
                    &&& (forall|q: Seq<Seq<u8>>|
                        t.entry_at(q) == built_entry(entries@.take(i as int), q))
                    &&& t.spec_file_count() == file_entry_count(entries@, i as int)
                },
            decreases entries.len() - i,
        {
            let ghost t_old = t;
            let e = &entries[i];
            t = t.insert_from(&e.segments, 0, e.is_directory);
            proof {
                if walk_ok(entries@) {
                    assert(entry_path(entries@[i as int]) == path_from(e.segments@, 0));
                    lemma_new_step(entries@, i as int, t_old, t);
                }
            }
            i = i + 1;
        }
        proof {
            assert(entries@.take(entries@.len() as int) =~= entries@);
        }
        t
    }
}

/// One path segment appended to a path under construction, joined with a
/// forward slash unless the path is still empty.
pub open spec fn join_path(cur: Seq<u8>, name: Seq<u8>) -> Seq<u8> {
    if cur.len() == 0 {
        name
    } else {
        cur + seq![47u8] + name
    }
}

/// The relative paths of all file leaves, in depth-first order with
/// children in ascending name order.
pub open spec fn spec_paths(t: FileTree, cur: Seq<u8>) -> Seq<Seq<u8>>
    decreases t, 0int,
{
    match t {
        FileTree::Leaf => seq![cur],
        FileTree::Node(cs) => child_paths(cs@, 0, cur),
    }
}

/// The file paths contributed by the children from position `i` on.
pub open spec fn child_paths(cs: Seq<ChildEntry>, i: int, cur: Seq<u8>) -> Seq<Seq<u8>>
    decreases cs, cs.len() - i,
{
    if i < 0 || i >= cs.len() {
        Seq::empty()
    } else {
        spec_paths(cs[i].node, join_path(cur, cs[i].name@)) + child_paths(cs, i + 1, cur)
    }
}

impl FileTree {
    /// The number of file leaves in the tree.
    #[verifier::loop_isolation(false)]
    pub fn file_count(&self) -> (n: usize)
        requires
            self.spec_file_count() <= usize::MAX,
        ensures
            n == self.spec_file_count(),
        decreases *self,
    {
        match self {
            FileTree::Leaf => 1,
            FileTree::Node(children) => {
                proof {
                    assert(children@.skip(0) =~= children@);
                }
                let mut total: usize = 0;
                let mut i: usize = 0;
                while i < children.len()
                    invariant
                        i <= children.len(),
                        count_children(children@) <= usize::MAX,
                        total + count_children(children@.skip(i as int)) == count_children(
                            children@,
                        ),
                    decreases children.len() - i,
                {
                    proof {
                        assert(children@.skip(i as int)[0] == children@[i as int]);
                        assert(children@.skip(i as int).drop_first() =~= children@.skip(
                            i as int + 1,
                        ));
                        assert(count_children(children@.skip(i as int))
                            == children@[i as int].node.spec_file_count() + count_children(
                            children@.skip(i as int + 1),
                        ));
                        assert(children@[i as int].node.spec_file_count() + total
                            <= usize::MAX);
                    }
                    let c = children[i].node.file_count();
                    total = total + c;
                    i = i + 1;
                }
                proof {
                    assert(children@.skip(children@.len() as int) =~= Seq::<ChildEntry>::empty());
                }
                total
            },
        }
    }

    /// Collects the relative paths of all file leaves, depth first with
    /// children visited in ascending name order, segments joined by a
    /// forward slash. A leaf root yields one empty path: the root itself.
    pub fn visit_files(&self) -> (paths: Vec<Vec<u8>>)
        ensures
            crate::bytebuf::views_of(paths@) == spec_paths(*self, Seq::<u8>::empty()),
    {
        let mut out: Vec<Vec<u8>> = Vec::new();
        let cur: Vec<u8> = Vec::new();
        self.visit_files_from(&cur, &mut out);
        proof {
            assert(crate::bytebuf::views_of(out@) =~= Seq::<Seq<u8>>::empty() + spec_paths(
                *self,
                Seq::<u8>::empty(),
            )) by {
                assert(crate::bytebuf::views_of(Seq::<Vec<u8>>::empty())
                    =~= Seq::<Seq<u8>>::empty());
            }
            assert(Seq::<Seq<u8>>::empty() + spec_paths(*self, Seq::<u8>::empty()) =~= spec_paths(
                *self,
                Seq::<u8>::empty(),
            ));
        }
        out
    }

    #[verifier::loop_isolation(false)]
    fn visit_files_from(&self, cur: &Vec<u8>, out: &mut Vec<Vec<u8>>)
        ensures
            crate::bytebuf::views_of(final(out)@) == crate::bytebuf::views_of(old(out)@)
                + spec_paths(*self, cur@),
        decreases *self,
    {
        match self {
            FileTree::Leaf => {
                let copy = crate::bytebuf::copy_bytes(cur);
                out.push(copy);
                proof {
                    assert(crate::bytebuf::views_of(out@) =~= crate::bytebuf::views_of(old(out)@)
                        + seq![cur@]);
                }
            },
            FileTree::Node(children) => {
                let ghost out0 = out@;
                let mut i: usize = 0;
                while i < children.len()
                    invariant
                        i <= children.len(),
                        crate::bytebuf::views_of(out@) == crate::bytebuf::views_of(out0)
                            + child_paths(children@, 0, cur@).take(
                            child_paths(children@, 0, cur@).len() - child_paths(
                                children@,
                                i as int,
                                cur@,
                            ).len(),
                        ),
                        child_paths(children@, 0, cur@) == child_paths(children@, 0, cur@).take(
                            child_paths(children@, 0, cur@).len() - child_paths(
                                children@,
                                i as int,
                                cur@,
                            ).len(),
                        ) + child_paths(children@, i as int, cur@),
                    decreases children.len() - i,
                {
                    let name = &children[i].name;
                    let joined: Vec<u8>;
                    if cur.len() == 0 {
                        joined = crate::bytebuf::copy_bytes(name);
                    } else {
                        let mut j = crate::bytebuf::copy_bytes(cur);
                        j.push(47u8);
                        crate::bytebuf::push_bytes(&mut j, name);
                        proof {
                            assert(j@ =~= cur@ + seq![47u8] + name@);
                        }
                        joined = j;
                    }
                    proof {
                        assert(joined@ == join_path(cur@, children@[i as int].name@));
                    }
                    children[i].node.visit_files_from(&joined, out);
                    proof {
                        let cp0 = child_paths(children@, 0, cur@);
                        let cpi = child_paths(children@, i as int, cur@);
                        let cpn = child_paths(children@, i as int + 1, cur@);
                        let sub = spec_paths(children@[i as int].node, joined@);
                        assert(cpi == sub + cpn);
                        assert(crate::bytebuf::views_of(out@) =~= crate::bytebuf::views_of(out0)
                            + cp0.take(cp0.len() - cpn.len())) by {
                            assert(cp0 == cp0.take(cp0.len() - cpi.len()) + cpi);
                            assert(cp0.take(cp0.len() - cpn.len()) =~= cp0.take(
                                cp0.len() - cpi.len(),
                            ) + sub);
                        }
                        assert(cp0 =~= cp0.take(cp0.len() - cpn.len()) + cpn) by {
                            assert(cp0 == cp0.take(cp0.len() - cpi.len()) + cpi);
                        }
                    }
                    i = i + 1;
                }
                proof {
                    let cp0 = child_paths(children@, 0, cur@);
                    assert(child_paths(children@, children@.len() as int, cur@)
                        =~= Seq::<Seq<u8>>::empty());
                    assert(cp0.take(cp0.len() - 0) =~= cp0);
                }
            },
        }
    }
}

} // verus!
