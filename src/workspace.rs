//! A build workspace rooted at its workspace file.
use vstd::prelude::*;

verus! {

pub struct Workspace {
    /// Path to the workspace file.
    root: String,
}

impl Workspace {
    pub closed spec fn root_view(&self) -> Seq<char> {
        self.root@
    }

    /// A workspace whose workspace file is at `root`.
    pub fn new(root: &str) -> (r: Workspace)
        ensures
            r.root_view() == root@,
    {
        Workspace { root: root.to_owned() }
    }

    /// The path of the workspace file.
    pub fn root(&self) -> (r: &str)
        ensures
            r@ == self.root_view(),
    {
        self.root.as_str()
    }
}

} // verus!
