//! The working tree: its root and the names that are never tracked.
use vstd::prelude::*;
use crate::object::str_eq;

verus! {

/// The working tree rooted at `path`.
#[derive(Debug)]
pub struct Workspace {
    pub ignore: [&'static str; 7],
    pub path: String,
}

/// The names skipped when listing the working tree.
pub open spec fn ignored_names() -> Seq<Seq<char>> {
    seq!["."@, ".."@, ".vscode"@, ".git"@, "target"@, "src"@, ".gitignore"@]
}

impl Workspace {
    pub fn new(path: String) -> (r: Workspace)
        ensures
            r.path@ == path@,
            r.ignore@.map_values(|s: &str| s@) == ignored_names(),
    {
        let r = Workspace {
            ignore: [".", "..", ".vscode", ".git", "target", "src", ".gitignore"],
            path,
        };
        assert(r.ignore@.map_values(|s: &str| s@) =~= ignored_names());
        r
    }

    /// Whether a directory entry with this last component is skipped.
    pub fn is_ignored(&self, name: &str) -> (r: bool)
        ensures
            r == exists|i: int| 0 <= i < 7 && (#[trigger] self.ignore@[i])@ == name@,
    {
        let mut i: usize = 0;
        while i < 7
            invariant
                i <= 7,
                self.ignore@.len() == 7,
                forall|j: int| 0 <= j < i ==> (#[trigger] self.ignore@[j])@ != name@,
            decreases 7 - i,
        {
            if str_eq(self.ignore[i], name) {
                return true;
            }
            i = i + 1;
        }
        false
    }
}

} // verus!
