use depbundle::names::split_on;
use depbundle::query::{parse_query_line, parse_query_lines};

fn s(x: &str) -> String {
    x.to_string()
}

#[test]
fn resolved_line_with_address() {
    let e = parse_query_line(&s("\tlibc.so.6 => /lib/x86_64-linux-gnu/libc.so.6 (0x00007f8a1c000000)"))
        .expect("line names a dependency");
    assert_eq!(e.name, s("libc.so.6"));
    assert_eq!(e.path, Some(s("/lib/x86_64-linux-gnu/libc.so.6")));
}

#[test]
fn resolved_line_without_address() {
    let e = parse_query_line(&s("libz.so.1 => /usr/lib/libz.so.1")).unwrap();
    assert_eq!(e.name, s("libz.so.1"));
    assert_eq!(e.path, Some(s("/usr/lib/libz.so.1")));
}

#[test]
fn not_found_line_has_no_path() {
    let e = parse_query_line(&s("\tlibmissing.so.3 => not found")).unwrap();
    assert_eq!(e.name, s("libmissing.so.3"));
    assert_eq!(e.path, None);
}

#[test]
fn vdso_line_is_skipped() {
    // The virtual shared object line carries no arrow and names no file.
    assert!(parse_query_line(&s("\tlinux-vdso.so.1 (0x00007ffd4e5f2000)")).is_none());
    assert!(parse_query_line(&s("")).is_none());
}

#[test]
fn whole_output_keeps_only_dependency_lines() {
    let output = s(
        "\tlinux-vdso.so.1 (0x00007ffd4e5f2000)\n\
         \tlibc.so.6 => /lib64/libc.so.6 (0x00007f8a1c000000)\n\
         \tlibnope.so => not found\n",
    );
    let lines = split_on(&output, '\n');
    let entries = parse_query_lines(&lines);
    assert_eq!(entries.len(), 2);
    assert_eq!(entries[0].name, s("libc.so.6"));
    assert_eq!(entries[0].path, Some(s("/lib64/libc.so.6")));
    assert_eq!(entries[1].name, s("libnope.so"));
    assert_eq!(entries[1].path, None);
}
