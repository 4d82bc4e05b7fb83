//! Planning the bundle: the resolution pipeline over an explicit graph,
//! the copy action for each member of the final dependency set, and the
//! relocation script every bundle carries.

use vstd::prelude::*;
use vstd::string::*;
use crate::closure::{DepGraph, compute_closure, reachable};
use crate::ignore::{filter_ignored, PatternError, spec_all_valid, spec_matches_any};
use crate::names::{base_name, join_path, spec_base_name, spec_join_path};

verus! {

/// Resolves the dependency closure of the root names in `g` and strips the
/// entries whose base filename matches an ignore pattern: the bundler's
/// whole resolution step over an explicit graph. The filter runs once,
/// after the closure is complete, so an ignored library's own dependencies
/// are still explored.
pub fn resolve_and_filter(g: &DepGraph, roots: &Vec<String>, patterns: &Vec<String>) -> (r: Result<
    Vec<String>,
    PatternError,
>)
    ensures
        r is Ok <==> spec_all_valid(patterns.deep_view()),
        r matches Ok(v) ==> forall|n: Seq<char>| #[trigger] v.deep_view().contains(n) <==> (
        reachable(g.nodes@, roots.deep_view(), n) && !spec_matches_any(
            patterns.deep_view(),
            spec_base_name(n),
        )),
        r matches Err(e) ==> !crate::ignore::regex_valid(e.pattern@)
            && patterns.deep_view().contains(e.pattern@),
{
    let closure = compute_closure(g, roots);
    filter_ignored(&closure, patterns)
}

/// What the materializer does with one dependency: copy a resolved file
/// into the bundle's library directory, or report a name that no search
/// tier resolved — reported names are never copied.
pub enum CopyAction {
    Copy { source: String, dest: String },
    Report { name: String },
}

/// The copy plan for the final dependency set: each resolved entry is
/// copied to the library directory under its base filename; each
/// unresolved name is reported and nothing is copied for it.
pub fn plan_copies(names: &Vec<String>, resolved: &Vec<Option<String>>, lib_dir: &String) -> (r:
    Vec<CopyAction>)
    requires
        names@.len() == resolved@.len(),
    ensures
        r@.len() == names@.len(),
        forall|i: int|
            0 <= i < r@.len() ==> match #[trigger] resolved@[i] {
                Some(p) => r@[i] matches CopyAction::Copy { source, dest } && source@ == p@
                    && dest@ == spec_join_path(lib_dir@, spec_base_name(p@)),
                None => r@[i] matches CopyAction::Report { name } && name@ == names@[i]@,
            },
{
    let mut r: Vec<CopyAction> = Vec::new();
    let mut i: usize = 0;
    while i < names.len()
        invariant
            0 <= i <= names@.len(),
            names@.len() == resolved@.len(),
            r@.len() == i,
            forall|j: int|
                0 <= j < i ==> match #[trigger] resolved@[j] {
                    Some(p) => r@[j] matches CopyAction::Copy { source, dest } && source@ == p@
                        && dest@ == spec_join_path(lib_dir@, spec_base_name(p@)),
                    None => r@[j] matches CopyAction::Report { name } && name@ == names@[j]@,
                },
        decreases names@.len() - i,
    {
        match &resolved[i] {
            Some(p) => {
                let base = base_name(p);
                let dest = join_path(lib_dir, &base);
                r.push(CopyAction::Copy { source: p.clone(), dest });
            },
            None => {
                r.push(CopyAction::Report { name: names[i].clone() });
            },
        }
        i += 1;
    }
    r
}

/// The text of the relocation script a bundle carries: it prepends the
/// bundle directory to the executable search path and points the dynamic
/// library search path at the bundle's library subdirectory.
pub open spec fn spec_env_script() -> Seq<char> {
    "SCRIPT_DIR=$( cd -- \"$( dirname -- \"${BASH_SOURCE[0]}\" )\" &> /dev/null && pwd )\nexport PATH=${SCRIPT_DIR}:$PATH\nexport LD_LIBRARY_PATH=${SCRIPT_DIR}/libs\n"@
}

/// The relocation script, byte for byte.
pub fn env_script_content() -> (r: String)
    ensures
        r@ == spec_env_script(),
{
    "SCRIPT_DIR=$( cd -- \"$( dirname -- \"${BASH_SOURCE[0]}\" )\" &> /dev/null && pwd )\nexport PATH=${SCRIPT_DIR}:$PATH\nexport LD_LIBRARY_PATH=${SCRIPT_DIR}/libs\n".to_owned()
}

/// The name of the library subdirectory inside a bundle.
pub fn libs_dir_name() -> (r: String)
    ensures
        r@ == "libs"@,
{
    "libs".to_owned()
}

} // verus!
