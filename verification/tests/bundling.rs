use depbundle::bundle::{env_script_content, libs_dir_name, plan_copies, resolve_and_filter, CopyAction};
use depbundle::closure::{DepGraph, DepNode};
use depbundle::ignore::{default_ignore_patterns, filter_ignored};
use depbundle::names::{base_name, contains_name, join_path, split_colon};
use depbundle::search::{candidate_paths, pick_first, system_dirs};

fn s(x: &str) -> String {
    x.to_string()
}

#[test]
fn join_path_inserts_one_separator() {
    assert_eq!(join_path(&s("/usr/lib"), &s("libfoo.so.1")), s("/usr/lib/libfoo.so.1"));
}

#[test]
fn base_name_takes_the_part_after_the_last_slash() {
    assert_eq!(base_name(&s("/usr/lib/libc.so.6")), s("libc.so.6"));
    assert_eq!(base_name(&s("libm.so")), s("libm.so"));
    assert_eq!(base_name(&s("/a/b/")), s(""));
}

#[test]
fn contains_name_is_membership() {
    let v = vec![s("a"), s("b")];
    assert!(contains_name(&v, &s("b")));
    assert!(!contains_name(&v, &s("c")));
}

#[test]
fn split_colon_splits_on_every_separator() {
    assert_eq!(split_colon(&s("/opt/lib:/home/u/lib")), vec![s("/opt/lib"), s("/home/u/lib")]);
    assert_eq!(split_colon(&s("")), vec![s("")]);
    assert_eq!(split_colon(&s("a::b")), vec![s("a"), s(""), s("b")]);
    assert_eq!(split_colon(&s("a:")), vec![s("a"), s("")]);
}

#[test]
fn system_dirs_in_fixed_order() {
    let d = system_dirs();
    assert_eq!(
        d,
        vec![s("/lib"), s("/usr/lib"), s("/lib64"), s("/usr/lib64"), s("/usr/local/lib")]
    );
}

#[test]
fn candidates_put_user_dirs_before_system_and_env() {
    let c = candidate_paths(&s("libx.so"), &vec![s("/custom")], &vec![s("/envdir")]);
    assert_eq!(c[0], s("/custom/libx.so"));
    assert_eq!(c[1], s("/lib/libx.so"));
    assert_eq!(c[6], s("/envdir/libx.so"));
    assert_eq!(c.len(), 7);
}

#[test]
fn first_present_candidate_wins() {
    // The same filename is present in a user-supplied directory and in a
    // system directory: the user-supplied one (index 0) is picked.
    let c = candidate_paths(&s("libx.so"), &vec![s("/custom")], &vec![]);
    let present = vec![true, false, true, false, false, false];
    assert_eq!(c.len(), present.len());
    assert_eq!(pick_first(&c, &present), Some(0));
    assert_eq!(c[0], s("/custom/libx.so"));
}

#[test]
fn no_present_candidate_means_not_found() {
    let c = candidate_paths(&s("libx.so"), &vec![], &vec![]);
    let present = vec![false; 5];
    assert_eq!(pick_first(&c, &present), None);
}

#[test]
fn filter_removes_matching_and_keeps_the_rest() {
    let entries = vec![s("libfoo.so.1"), s("ld-linux-x86-64.so.2"), s("libbar.so")];
    let kept = filter_ignored(&entries, &default_ignore_patterns()).unwrap();
    assert_eq!(kept, vec![s("libfoo.so.1"), s("libbar.so")]);
}

#[test]
fn filter_matches_on_base_filename() {
    let entries = vec![s("/lib/libc.so.6"), s("/lib/libz.so.1")];
    let kept = filter_ignored(&entries, &default_ignore_patterns()).unwrap();
    assert_eq!(kept, vec![s("/lib/libz.so.1")]);
}

#[test]
fn filter_with_no_patterns_keeps_everything() {
    let entries = vec![s("a"), s("b")];
    let kept = filter_ignored(&entries, &vec![]).unwrap();
    assert_eq!(kept, vec![s("a"), s("b")]);
}

#[test]
fn invalid_pattern_is_reported() {
    let entries = vec![s("a")];
    let e = filter_ignored(&entries, &vec![s("(")]).unwrap_err();
    assert_eq!(e.pattern, s("("));
}

#[test]
fn loader_is_in_raw_closure_but_not_in_filtered_set() {
    // The dynamic loader turns up as a dependency: it is present in the raw
    // closure and absent from the filtered set.
    let g = DepGraph {
        nodes: vec![DepNode {
            name: s("libfoo.so"),
            deps: vec![s("ld-linux-x86-64.so.2")],
        }],
    };
    let roots = vec![s("libfoo.so")];
    let raw = depbundle::closure::compute_closure(&g, &roots);
    assert!(raw.contains(&s("ld-linux-x86-64.so.2")));
    let filtered = resolve_and_filter(&g, &roots, &default_ignore_patterns()).unwrap();
    assert!(!filtered.contains(&s("ld-linux-x86-64.so.2")));
    assert_eq!(filtered, vec![s("libfoo.so")]);
}

#[test]
fn unresolved_name_is_reported_not_copied() {
    let names = vec![s("liba.so"), s("libmissing.so")];
    let resolved = vec![Some(s("/lib/liba.so")), None];
    let plan = plan_copies(&names, &resolved, &s("out/libs"));
    assert_eq!(plan.len(), 2);
    match &plan[0] {
        CopyAction::Copy { source, dest } => {
            assert_eq!(source, &s("/lib/liba.so"));
            assert_eq!(dest, &s("out/libs/liba.so"));
        },
        _ => panic!("resolved entry must be copied"),
    }
    match &plan[1] {
        CopyAction::Report { name } => assert_eq!(name, &s("libmissing.so")),
        _ => panic!("unresolved entry must be reported, not copied"),
    }
}

#[test]
fn env_script_matches_the_fixed_template() {
    let expected = "SCRIPT_DIR=$( cd -- \"$( dirname -- \"${BASH_SOURCE[0]}\" )\" &> /dev/null && pwd )\nexport PATH=${SCRIPT_DIR}:$PATH\nexport LD_LIBRARY_PATH=${SCRIPT_DIR}/libs\n";
    assert_eq!(env_script_content(), s(expected));
    assert_eq!(libs_dir_name(), s("libs"));
}
