//! The library path resolver: builds the ordered candidate list for a bare
//! library name — user-supplied directories first, then the built-in system
//! directories, then directories from the environment search path — and
//! picks the first candidate at which a file is present.

use vstd::prelude::*;
use vstd::string::*;
use crate::names::{join_path, spec_join_path};

verus! {

/// The built-in system library directories, in their fixed search order.
pub open spec fn spec_system_dirs() -> Seq<Seq<char>> {
    seq!["/lib"@, "/usr/lib"@, "/lib64"@, "/usr/lib64"@, "/usr/local/lib"@]
}

/// The built-in system library directories, in their fixed search order.
pub fn system_dirs() -> (r: Vec<String>)
    ensures
        r.deep_view() =~= spec_system_dirs(),
{
    let mut v: Vec<String> = Vec::new();
    v.push("/lib".to_owned());
    v.push("/usr/lib".to_owned());
    v.push("/lib64".to_owned());
    v.push("/usr/lib64".to_owned());
    v.push("/usr/local/lib".to_owned());
    v
}

/// All directories consulted for a library name, in precedence order:
/// user-supplied directories, then the built-in system directories, then
/// directories drawn from the environment search path.
pub open spec fn spec_search_dirs(user: Seq<Seq<char>>, env: Seq<Seq<char>>) -> Seq<Seq<char>> {
    user + spec_system_dirs() + env
}

/// The candidate path for `name` in each searched directory, in precedence
/// order.
pub open spec fn spec_candidates(
    name: Seq<char>,
    user: Seq<Seq<char>>,
    env: Seq<Seq<char>>,
) -> Seq<Seq<char>> {
    spec_search_dirs(user, env).map_values(|d: Seq<char>| spec_join_path(d, name))
}

/// Builds the ordered candidate list for `name`: one path per searched
/// directory, user-supplied directories first, the environment-provided
/// ones last.
pub fn candidate_paths(name: &String, user_dirs: &Vec<String>, env_dirs: &Vec<String>) -> (r: Vec<
    String,
>)
    ensures
        r.deep_view() == spec_candidates(name@, user_dirs.deep_view(), env_dirs.deep_view()),
{
    let ghost dirs = spec_search_dirs(user_dirs.deep_view(), env_dirs.deep_view());
    let mut all: Vec<String> = Vec::new();
    let mut i: usize = 0;
    while i < user_dirs.len()
        invariant
            0 <= i <= user_dirs@.len(),
            dirs == spec_search_dirs(user_dirs.deep_view(), env_dirs.deep_view()),
            all.deep_view().len() == i,
            forall|j: int| 0 <= j < i ==> all.deep_view()[j] == dirs[j],
        decreases user_dirs@.len() - i,
    {
        all.push(user_dirs[i].clone());
        i += 1;
    }
    let sys = system_dirs();
    let ghost ulen = user_dirs.deep_view().len() as int;
    let mut i: usize = 0;
    while i < sys.len()
        invariant
            0 <= i <= sys@.len(),
            sys.deep_view() =~= spec_system_dirs(),
            ulen == user_dirs.deep_view().len(),
            dirs == spec_search_dirs(user_dirs.deep_view(), env_dirs.deep_view()),
            all.deep_view().len() == ulen + i,
            forall|j: int| 0 <= j < ulen + i ==> all.deep_view()[j] == dirs[j],
        decreases sys@.len() - i,
    {
        all.push(sys[i].clone());
        i += 1;
    }
    let ghost slen = spec_system_dirs().len() as int;
    let mut i: usize = 0;
    while i < env_dirs.len()
        invariant
            0 <= i <= env_dirs@.len(),
            ulen == user_dirs.deep_view().len(),
            slen == spec_system_dirs().len(),
            dirs == spec_search_dirs(user_dirs.deep_view(), env_dirs.deep_view()),
            all.deep_view().len() == ulen + slen + i,
            forall|j: int| 0 <= j < ulen + slen + i ==> all.deep_view()[j] == dirs[j],
        decreases env_dirs@.len() - i,
    {
        all.push(env_dirs[i].clone());
        i += 1;
    }
    proof {
        assert(all.deep_view() =~= dirs);
    }
    let mut r: Vec<String> = Vec::new();
    let mut i: usize = 0;
    while i < all.len()
        invariant
            0 <= i <= all@.len(),
            all.deep_view() == dirs,
            dirs == spec_search_dirs(user_dirs.deep_view(), env_dirs.deep_view()),
            r.deep_view().len() == i,
            forall|j: int| 0 <= j < i ==> r.deep_view()[j] == spec_join_path(dirs[j], name@),
        decreases all@.len() - i,
    {
        let ghost pre_r = r.deep_view();
        let p = join_path(&all[i], name);
        proof {
            assert(all.deep_view()[i as int] == all@[i as int]@);
        }
        r.push(p);
        proof {
            assert(r.deep_view() =~= pre_r.push(spec_join_path(dirs[i as int], name@)));
        }
        i += 1;
    }
    proof {
        assert(r.deep_view() =~= spec_candidates(
            name@,
            user_dirs.deep_view(),
            env_dirs.deep_view(),
        ));
    }
    r
}

/// The index of the first candidate at which a file is present, where
/// `present[i]` says whether one is present at `candidates[i]`; `None`
/// exactly when no candidate has one, which makes the library unresolved.
pub fn pick_first(candidates: &Vec<String>, present: &Vec<bool>) -> (r: Option<usize>)
    requires
        candidates@.len() == present@.len(),
    ensures
        match r {
            Some(i) => 0 <= i < present@.len() && present@[i as int] && forall|j: int|
                0 <= j < i ==> !present@[j],
            None => forall|j: int| 0 <= j < present@.len() ==> !present@[j],
        },
{
    let mut i: usize = 0;
    while i < present.len()
        invariant
            0 <= i <= present@.len(),
            forall|j: int| 0 <= j < i ==> !present@[j],
        decreases present@.len() - i,
    {
        if present[i] {
            return Some(i);
        }
        i += 1;
    }
    None
}

/// Search-path precedence: when the library exists both in a user-supplied
/// directory and anywhere later in the search order, the first existing
/// candidate — the one `pick_first` returns — lies in the user-supplied
/// tier, so the resolver hands back the user-supplied path.
pub proof fn lemma_user_path_precedence(
    name: Seq<char>,
    user: Seq<Seq<char>>,
    env: Seq<Seq<char>>,
    present: Seq<bool>,
    u: int,
    i: int,
)
    requires
        present.len() == spec_candidates(name, user, env).len(),
        0 <= u < user.len(),
        present[u],
        0 <= i < present.len(),
        present[i],
        forall|j: int| 0 <= j < i ==> !present[j],
    ensures
        i < user.len(),
        spec_candidates(name, user, env)[i] == spec_join_path(user[i], name),
{
    if i > u {
        assert(!present[u]);
    }
    assert(spec_search_dirs(user, env)[i] == user[i]);
}

} // verus!
