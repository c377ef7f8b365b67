//! Rendering of the tree as a chain-compressed diagram.
//!
//! Children are printed depth first in ascending name order, with the usual
//! box-drawing connectors. A directory whose only child is again a
//! directory is compressed: the chain of names is joined with slashes into
//! one line, so the diagram grows with branching, not with depth. At the
//! end of a chain, an empty directory prints with a trailing slash, a
//! directory holding a single file collapses into one leaf line, and a
//! directory with several children prints with a trailing slash and then
//! its children one level deeper.

use vstd::prelude::*;
use vstd::string::StringSliceAdditionalSpecFns;

use crate::bytebuf::copy_bytes;
use crate::bytebuf::push_bytes;
use crate::bytebuf::views_of;
use crate::filetree::ChildEntry;
use crate::filetree::FileTree;

verus! {

broadcast use vstd::std_specs::vec::group_vec_axioms, vstd::seq::group_seq_axioms;

/// The connector before an entry: the last child gets a closing corner, an
/// earlier child a tee.
pub open spec fn connector_bytes(last: bool) -> Seq<u8> {
    if last {
        "\u{2514}\u{2500}\u{2500} ".spec_bytes()
    } else {
        "\u{251c}\u{2500}\u{2500} ".spec_bytes()
    }
}

/// The continuation marker for deeper levels: blank padding under a last
/// child, a vertical bar where an ancestor has later siblings.
pub open spec fn continuation_bytes(last: bool) -> Seq<u8> {
    if last {
        "    ".spec_bytes()
    } else {
        "\u{2502}   ".spec_bytes()
    }
}

fn connector(last: bool) -> (v: Vec<u8>)
    ensures
        v@ == connector_bytes(last),
{
    if last {
        vstd::slice::slice_to_vec("\u{2514}\u{2500}\u{2500} ".as_bytes())
    } else {
        vstd::slice::slice_to_vec("\u{251c}\u{2500}\u{2500} ".as_bytes())
    }
}

fn continuation(last: bool) -> (v: Vec<u8>)
    ensures
        v@ == continuation_bytes(last),
{
    if last {
        vstd::slice::slice_to_vec("    ".as_bytes())
    } else {
        vstd::slice::slice_to_vec("\u{2502}   ".as_bytes())
    }
}

/// The diagram lines for one directory reached under the accumulated
/// slash-joined `path`: follows single-directory chains, then prints the
/// chain's end as the three cases require.
pub open spec fn render_node(path: Seq<u8>, t: FileTree, prefix: Seq<u8>, last: bool) -> Seq<
    Seq<u8>,
>
    recommends
        t is Node,
    decreases t, 0int,
{
    let cs = t.children();
    if cs.len() == 1 && cs[0].node is Node {
        render_node(path + seq![47u8] + cs[0].name@, cs[0].node, prefix, last)
    } else if cs.len() == 0 {
        seq![prefix + connector_bytes(last) + path + seq![47u8]]
    } else if cs.len() == 1 {
        seq![prefix + connector_bytes(last) + path + seq![47u8] + cs[0].name@]
    } else {
        seq![prefix + connector_bytes(last) + path + seq![47u8]] + render_children(
            cs,
            0,
            prefix + continuation_bytes(last),
        )
    }
}

/// The diagram lines of the children from position `i` on: a file child is
/// one leaf line, a directory child renders through `render_node`.
pub open spec fn render_children(cs: Seq<ChildEntry>, i: int, prefix: Seq<u8>) -> Seq<Seq<u8>>
    decreases cs, cs.len() - i,
{
    if i < 0 || i >= cs.len() {
        Seq::empty()
    } else {
        (match cs[i].node {
            FileTree::Leaf => seq![prefix + connector_bytes(i == cs.len() - 1) + cs[i].name@],
            FileTree::Node(_) => render_node(cs[i].name@, cs[i].node, prefix, i == cs.len() - 1),
        }) + render_children(cs, i + 1, prefix)
    }
}

fn render_node_exec(path: Vec<u8>, t: &FileTree, prefix: &Vec<u8>, last: bool, out: &mut Vec<
    Vec<u8>,
>)
    requires
        *t is Node,
    ensures
        views_of(final(out)@) == views_of(old(out)@) + render_node(path@, *t, prefix@, last),
    decreases *t, 0int,
{
    match t {
        FileTree::Leaf => {
            proof {
                assert(false);
            }
        },
        FileTree::Node(children) => {
            let chain = if children.len() == 1 {
                children[0].node.is_node()
            } else {
                false
            };
            if chain {
                let mut path2 = path;
                path2.push(47u8);
                push_bytes(&mut path2, &children[0].name);
                proof {
                    assert(path2@ =~= path@ + seq![47u8] + children@[0].name@);
                }
                render_node_exec(path2, &children[0].node, prefix, last, out);
            } else if children.len() == 0 {
                let mut line = copy_bytes(prefix);
                let conn = connector(last);
                push_bytes(&mut line, &conn);
                push_bytes(&mut line, &path);
                line.push(47u8);
                proof {
                    assert(line@ =~= prefix@ + connector_bytes(last) + path@ + seq![47u8]);
                }
                out.push(line);
                proof {
                    assert(views_of(out@) =~= views_of(old(out)@) + render_node(
                        path@,
                        *t,
                        prefix@,
                        last,
                    ));
                }
            } else if children.len() == 1 {
                let mut line = copy_bytes(prefix);
                let conn = connector(last);
                push_bytes(&mut line, &conn);
                push_bytes(&mut line, &path);
                line.push(47u8);
                push_bytes(&mut line, &children[0].name);
                proof {
                    assert(line@ =~= prefix@ + connector_bytes(last) + path@ + seq![47u8]
                        + children@[0].name@);
                }
                out.push(line);
                proof {
                    assert(views_of(out@) =~= views_of(old(out)@) + render_node(
                        path@,
                        *t,
                        prefix@,
                        last,
                    ));
                }
            } else {
                let mut line = copy_bytes(prefix);
                let conn = connector(last);
                push_bytes(&mut line, &conn);
                push_bytes(&mut line, &path);
                line.push(47u8);
                proof {
                    assert(line@ =~= prefix@ + connector_bytes(last) + path@ + seq![47u8]);
                }
                out.push(line);
                let mut new_prefix = copy_bytes(prefix);
                let cont = continuation(last);
                push_bytes(&mut new_prefix, &cont);
                proof {
                    assert(new_prefix@ == prefix@ + continuation_bytes(last));
                }
                let ghost mid = out@;
                render_children_exec(children, &new_prefix, out);
                proof {
                    assert(views_of(mid) =~= views_of(old(out)@) + seq![line@]);
                    assert(views_of(out@) =~= views_of(old(out)@) + render_node(
                        path@,
                        *t,
                        prefix@,
                        last,
                    ));
                }
            }
        },
    }
}

#[verifier::loop_isolation(false)]
fn render_children_exec(children: &Vec<ChildEntry>, prefix: &Vec<u8>, out: &mut Vec<Vec<u8>>)
    ensures
        views_of(final(out)@) == views_of(old(out)@) + render_children(children@, 0, prefix@),
    decreases children@, 0int,
{
    let ghost out0 = out@;
    let ghost whole = render_children(children@, 0, prefix@);
    let mut i: usize = 0;
    while i < children.len()
        invariant
            i <= children.len(),
            whole == render_children(children@, 0, prefix@),
            out0 == old(out)@,
            views_of(out@) == views_of(out0) + whole.take(
                whole.len() - render_children(children@, i as int, prefix@).len(),
            ),
            whole == whole.take(
                whole.len() - render_children(children@, i as int, prefix@).len(),
            ) + render_children(children@, i as int, prefix@),
        decreases children.len() - i,
    {
        let last = i + 1 == children.len();
        let ghost cpi = render_children(children@, i as int, prefix@);
        let ghost cpn = render_children(children@, i as int + 1, prefix@);
        let ghost before = out@;
        match &children[i].node {
            FileTree::Leaf => {
                let mut line = copy_bytes(prefix);
                let conn = connector(last);
                push_bytes(&mut line, &conn);
                push_bytes(&mut line, &children[i].name);
                proof {
                    assert(line@ =~= prefix@ + connector_bytes(last) + children@[i as int].name@);
                }
                out.push(line);
                proof {
                    assert(views_of(out@) =~= views_of(before) + seq![line@]);
                    assert(cpi == seq![prefix@ + connector_bytes(last)
                        + children@[i as int].name@] + cpn);
                }
            },
            FileTree::Node(_) => {
                let name_copy = copy_bytes(&children[i].name);
                render_node_exec(name_copy, &children[i].node, prefix, last, out);
                proof {
                    assert(cpi == render_node(
                        children@[i as int].name@,
                        children@[i as int].node,
                        prefix@,
                        last,
                    ) + cpn);
                }
            },
        }
        proof {
            let sub = cpi.take(cpi.len() - cpn.len());
            assert(cpi =~= sub + cpn);
            assert(views_of(out@) =~= views_of(before) + sub);
            assert(views_of(out@) =~= views_of(out0) + whole.take(whole.len() - cpn.len())) by {
                assert(whole == whole.take(whole.len() - cpi.len()) + cpi);
                assert(whole.take(whole.len() - cpn.len()) =~= whole.take(whole.len() - cpi.len())
                    + sub);
            }
            assert(whole =~= whole.take(whole.len() - cpn.len()) + cpn) by {
                assert(whole == whole.take(whole.len() - cpi.len()) + cpi);
            }
        }
        i = i + 1;
    }
    proof {
        assert(render_children(children@, children@.len() as int, prefix@)
            =~= Seq::<Seq<u8>>::empty());
        assert(whole.take(whole.len() - 0) =~= whole);
    }
}

/// A tree whose root is a single file holds exactly one file leaf and
/// renders as one line: the root's display name alone.
pub proof fn lemma_single_file_root(root_name: Seq<u8>)
    ensures
        FileTree::Leaf.spec_file_count() == 1,
        FileTree::Leaf.spec_display(root_name) == seq![root_name],
{
}

impl FileTree {
    /// True for a directory node.
    pub fn is_node(&self) -> (b: bool)
        ensures
            b == (*self is Node),
    {
        match self {
            FileTree::Node(_) => true,
            FileTree::Leaf => false,
        }
    }

    /// The diagram: the root's display name on its own line, then the
    /// compressed tree, one entry per line. A leaf root is just the name.
    pub open spec fn spec_display(self, root_name: Seq<u8>) -> Seq<Seq<u8>> {
        match self {
            FileTree::Leaf => seq![root_name],
            FileTree::Node(cs) => seq![root_name] + render_children(cs@, 0, Seq::empty()),
        }
    }

    /// Renders the diagram as a list of lines.
    pub fn display(&self, root_name: &Vec<u8>) -> (lines: Vec<Vec<u8>>)
        ensures
            views_of(lines@) == self.spec_display(root_name@),
    {
        let mut out: Vec<Vec<u8>> = Vec::new();
        let name_copy = copy_bytes(root_name);
        out.push(name_copy);
        match self {
            FileTree::Leaf => {
                proof {
                    assert(views_of(out@) =~= seq![root_name@]);
                }
            },
            FileTree::Node(children) => {
                let empty_prefix: Vec<u8> = Vec::new();
                let ghost mid = out@;
                render_children_exec(children, &empty_prefix, &mut out);
                proof {
                    assert(views_of(mid) =~= seq![root_name@]);
                    assert(views_of(out@) =~= self.spec_display(root_name@));
                }
            },
        }
        out
    }
}

} // verus!
