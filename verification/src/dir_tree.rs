//! The plain directory tree: each node knows its path, a directory also what
//! it holds. Nothing is numbered or classified here; for that see
//! `database::dir`.

use crate::database::dir::{join, join_path, views_of, Entry, EntryView};
use crate::error::Error;
use vstd::prelude::*;
use vstd::string::*;

verus! {

#[derive(Debug)]
pub enum Node {
    Directory { path: String, children: Vec<Node> },
    File { path: String },
}

/// A `Node` as plain values.
pub enum NodeView {
    Directory { path: Seq<char>, children: Seq<NodeView> },
    File { path: Seq<char> },
}

impl View for Node {
    type V = NodeView;

    open spec fn view(&self) -> NodeView
        decreases self,
    {
        match self {
            Node::Directory { path, children } => NodeView::Directory {
                path: path@,
                children: Seq::new(
                    children@.len(),
                    |i: int|
                        if 0 <= i < children@.len() {
                            children@[i]@
                        } else {
                            arbitrary()
                        },
                ),
            },
            Node::File { path } => NodeView::File { path: path@ },
        }
    }
}

impl NodeView {
    pub open spec fn path(self) -> Seq<char> {
        match self {
            NodeView::Directory { path, children } => path,
            NodeView::File { path } => path,
        }
    }
}

impl Node {
    pub fn path(&self) -> (path: &str)
        ensures
            path@ == self@.path(),
    {
        match self {
            Node::Directory { path, .. } => path.as_str(),
            Node::File { path } => path.as_str(),
        }
    }
}

/// The tree of the listing `entry`, which lies at `path`: each node has the
/// path of its directory joined with its name.
pub open spec fn tree_of(entry: EntryView, path: Seq<char>) -> NodeView
    decreases entry,
{
    match entry {
        EntryView::Directory { name, children } => NodeView::Directory {
            path,
            children: Seq::new(
                children.len(),
                |i: int|
                    if 0 <= i < children.len() {
                        tree_of(children[i], join(path, children[i].name()))
                    } else {
                        arbitrary()
                    },
            ),
        },
        EntryView::File { name } => NodeView::File { path },
    }
}

#[derive(Debug)]
pub struct DirTree {
    root: Node,
}

impl View for DirTree {
    type V = NodeView;

    closed spec fn view(&self) -> NodeView {
        self.root@
    }
}

impl DirTree {
    /// The tree of the listing of what lies at `root`, a directory or a
    /// file. This never fails.
    pub fn new(root: &str, listing: &Entry) -> (result: Result<DirTree, Error>)
        ensures
            result matches Ok(tree) && tree@ == tree_of(listing@, root@),
    {
        Ok(DirTree { root: Self::build_dir_tree(String::from_str(root), listing) })
    }

    pub fn root(&self) -> (root: &Node)
        ensures
            root@ == self@,
    {
        &self.root
    }

    pub fn root_path(&self) -> (path: &str)
        ensures
            path@ == self@.path(),
    {
        self.root.path()
    }

    /// The tree of the listing `entry`, which lies at `path`.
    fn build_dir_tree(path: String, entry: &Entry) -> (node: Node)
        ensures
            node@ == tree_of(entry@, path@),
        decreases entry,
    {
        match entry {
            Entry::Directory { children: entries, .. } => {
                let ghost views = views_of(entries@);
                let mut children: Vec<Node> = Vec::new();
                let mut i: usize = 0;
                proof {
                    assert(entry@->Directory_children =~= views);
                }
                while i < entries.len()
                    invariant
                        i <= entries.len(),
                        decreases_to!(entry => entries),
                        views == views_of(entries@),
                        children.len() == i,
                        forall|j: int|
                            0 <= j < i ==> (#[trigger] children@[j])@ == tree_of(
                                views[j],
                                join(path@, views[j].name()),
                            ),
                    decreases entries.len() - i,
                {
                    let child = &entries[i];
                    proof {
                        assert(views[i as int] == child@);
                        assert(decreases_to!(entries => child));
                    }
                    let node = Self::build_dir_tree(join_path(path.as_str(), child.name()), child);
                    children.push(node);
                    i += 1;
                }
                let node = Node::Directory { path, children };
                proof {
                    assert(node@->Directory_children =~= tree_of(entry@, node@.path())->Directory_children);
                }
                node
            },
            Entry::File { .. } => Node::File { path },
        }
    }
}

} // verus!
