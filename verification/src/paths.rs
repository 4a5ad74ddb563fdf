//! Where things lie in the file system.
use crate::text::{chars_of, split, split_slices, string_of, views, Sep};
use vstd::prelude::*;

verus! {

/// The root of the tracing file system: the first of its two mount points under which instances
/// can be made.
pub fn tracing_root(main_has_instances: bool, debug_has_instances: bool) -> (r: Option<
    &'static str,
>)
    ensures
        match r {
            Some(p) => if main_has_instances {
                p@ == "/sys/kernel/tracing"@
            } else {
                debug_has_instances && p@ == "/sys/kernel/debug/tracing"@
            },
            None => !main_has_instances && !debug_has_instances,
        },
{
    if main_has_instances {
        Some("/sys/kernel/tracing")
    } else if debug_has_instances {
        Some("/sys/kernel/debug/tracing")
    } else {
        None
    }
}

/// The directories of a search path, in order.
pub fn search_dirs(path: &str) -> (dirs: Vec<String>)
    ensures
        dirs@.len() == split(path@, Sep::Char(':')).len(),
        forall|i: int|
            0 <= i < dirs@.len() ==> (#[trigger] dirs@[i])@ == split(path@, Sep::Char(':'))[i],
{
    let chars = chars_of(path);
    let pieces = split_slices(&chars, Sep::Char(':'));
    let ghost all = views(pieces@);
    let mut dirs: Vec<String> = Vec::new();
    let mut i: usize = 0;
    while i < pieces.len()
        invariant
            i <= pieces@.len(),
            all == views(pieces@),
            dirs@.len() == i,
            forall|k: int| 0 <= k < i ==> (#[trigger] dirs@[k])@ == all[k],
        decreases pieces@.len() - i,
    {
        dirs.push(string_of(pieces[i]));
        i += 1;
    }
    dirs
}

} // verus!
