//! A directory tree as read from the file system, held as an arena of nodes
//! indexed by integer id. Node 0 is the directory the walk starts from.
use vstd::prelude::*;

verus! {

/// What a listed entry turned out to be.
pub enum NodeKind {
    File,
    Directory,
    /// Anything else the listing holds (a dangling link, a device, ...).
    Other,
}

/// One entry of the tree.
pub struct FsNode {
    /// The entry's own name, as the directory listing gives it.
    pub name: String,
    /// The path under which the entry can be opened.
    pub path: String,
    pub kind: NodeKind,
    /// For a directory that could be read, the ids of its entries in listing
    /// order; empty for anything else.
    pub children: Vec<usize>,
}

/// The whole tree. A child always has a larger id than its directory, so a
/// walk down the tree always moves towards the end of the arena.
pub struct DirTree {
    pub nodes: Vec<FsNode>,
}

impl DirTree {
    pub open spec fn len(&self) -> int {
        self.nodes@.len() as int
    }

    pub open spec fn kind(&self, i: int) -> NodeKind {
        self.nodes@[i].kind
    }

    pub open spec fn name(&self, i: int) -> Seq<char> {
        self.nodes@[i].name@
    }

    pub open spec fn children(&self, i: int) -> Seq<usize> {
        self.nodes@[i].children@
    }

    /// Children come after their directory, and only directories have any.
    pub open spec fn wf(&self) -> bool {
        &&& forall|i: int, j: int|
            0 <= i < self.len() && 0 <= j < self.children(i).len() ==> i < #[trigger] self.children(
                i,
            )[j] < self.len()
        &&& forall|i: int|
            0 <= i < self.len() && !(#[trigger] self.kind(i) is Directory) ==> self.children(
                i,
            ).len() == 0
    }

    /// Whether the tree is well formed.
    pub fn is_wf(&self) -> (r: bool)
        ensures
            r == self.wf(),
    {
        let n = self.nodes.len();
        let mut i: usize = 0;
        while i < n
            invariant
                n == self.len(),
                i <= n,
                forall|a: int, j: int|
                    0 <= a < i && 0 <= j < self.children(a).len() ==> a < #[trigger] self.children(
                        a,
                    )[j] < self.len(),
                forall|a: int|
                    0 <= a < i && !(#[trigger] self.kind(a) is Directory) ==> self.children(a).len()
                        == 0,
            decreases n - i,
        {
            let node = &self.nodes[i];
            let is_dir = match node.kind {
                NodeKind::Directory => true,
                _ => false,
            };
            if !is_dir && node.children.len() > 0 {
                assert(!(self.kind(i as int) is Directory) && self.children(i as int).len() != 0);
                return false;
            }
            let mut j: usize = 0;
            while j < node.children.len()
                invariant
                    n == self.len(),
                    i < n,
                    node == self.nodes@[i as int],
                    j <= node.children@.len(),
                    forall|m: int| 0 <= m < j ==> i < #[trigger] node.children@[m] < n,
                decreases node.children@.len() - j,
            {
                let c = node.children[j];
                if c <= i || c >= n {
                    assert(!(i < self.children(i as int)[j as int] < self.len()));
                    return false;
                }
                j = j + 1;
            }
            assert forall|a: int, m: int|
                0 <= a < i + 1 && 0 <= m < self.children(a).len() implies a < #[trigger] self.children(
                a,
            )[m] < self.len() by {
                if a == i {
                    assert(self.children(a)[m] == node.children@[m]);
                }
            }
            i = i + 1;
        }
        true
    }
}

} // verus!
