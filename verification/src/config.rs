//! The settings of the application.

use vstd::prelude::*;
use crate::text::string_views;

verus! {

/// Where archives are extracted to.
#[derive(Debug, Clone)]
pub struct Target {
    /// The directory that archives are extracted to.
    pub dir: String,
    /// Whether the user may type a directory.
    pub can_input: bool,
}

impl Default for Target {
    fn default() -> (r: Self)
        ensures
            r.dir@ == Seq::<char>::empty(),
            !r.can_input,
    {
        Target { dir: String::new(), can_input: false }
    }
}

/// The settings: where to extract to, whether to delete what was
/// extracted, and the passwords to try.
#[derive(Debug, Clone)]
pub struct AppConfig {
    pub target: Target,
    /// Whether an archive is deleted once it is extracted.
    pub auto_delete: bool,
    /// The passwords that are tried on an archive, in this order.
    pub passwords: Vec<String>,
}

impl Default for AppConfig {
    fn default() -> (r: Self)
        ensures
            r.target.dir@ == Seq::<char>::empty(),
            !r.target.can_input,
            !r.auto_delete,
            r.passwords@ == Seq::<String>::empty(),
    {
        AppConfig { target: Target::default(), auto_delete: false, passwords: Vec::new() }
    }
}

impl AppConfig {
    /// A copy of the passwords, in their order.
    pub fn passwords(&self) -> (r: Vec<String>)
        ensures
            string_views(r@) == string_views(self.passwords@),
    {
        let mut r: Vec<String> = Vec::new();
        let mut i: usize = 0;
        while i < self.passwords.len()
            invariant
                i <= self.passwords.len(),
                r@.len() == i,
                forall|j: int| 0 <= j < i ==> (#[trigger] r@[j])@ == self.passwords@[j]@,
            decreases self.passwords.len() - i,
        {
            r.push(self.passwords[i].clone());
            i += 1;
        }
        proof {
            assert(string_views(r@) =~= string_views(self.passwords@));
        }
        r
    }
}

} // verus!
