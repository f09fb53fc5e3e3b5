//! The directories that hold specification files.
use vstd::prelude::*;
use crate::spec::{clean_path, cleaned};

verus! {

/// The directory of static specification files, scanned first.
pub const DEFAULT_STATIC_DIR: &'static str = "/etc/cdi";

/// The directory of generated specification files, scanned second.
pub const DEFAULT_DYNAMIC_DIR: &'static str = "/var/run/cdi";

/// The default directories, highest priority first.
pub fn default_spec_dirs() -> (r: Vec<String>)
    ensures
        r@.len() == 2,
        r@[0]@ == DEFAULT_STATIC_DIR@,
        r@[1]@ == DEFAULT_DYNAMIC_DIR@,
{
    let mut r: Vec<String> = Vec::new();
    r.push(DEFAULT_STATIC_DIR.to_string());
    r.push(DEFAULT_DYNAMIC_DIR.to_string());
    r
}

/// The directories `dirs`, each path cleaned, in the same order.
pub fn with_spec_dirs(dirs: &Vec<String>) -> (r: Vec<String>)
    ensures
        r@.len() == dirs@.len(),
        forall|i: int| 0 <= i < dirs@.len() ==> (#[trigger] r@[i])@ == cleaned(dirs@[i]@),
{
    let mut r: Vec<String> = Vec::new();
    let mut i: usize = 0;
    while i < dirs.len()
        invariant
            0 <= i <= dirs@.len(),
            r@.len() == i,
            forall|k: int| 0 <= k < i ==> (#[trigger] r@[k])@ == cleaned(dirs@[k]@),
        decreases dirs@.len() - i,
    {
        r.push(clean_path(dirs[i].as_str()));
        i = i + 1;
    }
    r
}

} // verus!
