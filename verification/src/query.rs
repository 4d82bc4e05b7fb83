//! Parsing the output of the platform's dynamic-linker query tool: each
//! line of the shape `<name> => <target>` names one dependency, with the
//! target either a resolved absolute path — possibly followed by a load
//! address in parentheses, which is stripped — or the words `not found`.

use vstd::prelude::*;
use vstd::string::*;

verus! {

/// `s` begins with `p`.
pub open spec fn spec_starts_with(s: Seq<char>, p: Seq<char>) -> bool {
    p.len() <= s.len() && s.subrange(0, p.len() as int) == p
}

/// The first position at which `p` occurs in `s`, if it occurs at all.
pub open spec fn spec_find(s: Seq<char>, p: Seq<char>) -> Option<int>
    decreases s.len(),
{
    if spec_starts_with(s, p) {
        Some(0)
    } else if s.len() == 0 {
        None
    } else {
        match spec_find(s.drop_first(), p) {
            Some(i) => Some(i + 1),
            None => None,
        }
    }
}

/// A needle longer than the haystack never occurs.
proof fn lemma_find_too_short(s: Seq<char>, p: Seq<char>)
    requires
        p.len() > s.len(),
    ensures
        spec_find(s, p) is None,
    decreases s.len(),
{
    if s.len() > 0 {
        lemma_find_too_short(s.drop_first(), p);
    }
}

/// A found position lies in bounds and marks a real occurrence.
proof fn lemma_find_some(s: Seq<char>, p: Seq<char>)
    ensures
        spec_find(s, p) matches Some(i) ==> 0 <= i && i + p.len() <= s.len() && spec_starts_with(
            s.skip(i),
            p,
        ),
    decreases s.len(),
{
    if !spec_starts_with(s, p) && s.len() > 0 {
        lemma_find_some(s.drop_first(), p);
        match spec_find(s.drop_first(), p) {
            Some(j) => {
                assert(s.drop_first().skip(j) =~= s.skip(j + 1));
            },
            None => {},
        }
    } else if spec_starts_with(s, p) {
        assert(s.skip(0) =~= s);
    }
}

/// Whether `p` occurs in `s` at position `i`.
fn occurs_at(s: &str, p: &str, i: usize) -> (r: bool)
    requires
        i + p@.len() <= s@.len(),
        s@.len() <= usize::MAX,
    ensures
        r == spec_starts_with(s@.skip(i as int), p@),
{
    let m = p.unicode_len();
    let mut k: usize = 0;
    while k < m
        invariant
            0 <= k <= m,
            m == p@.len(),
            i + m <= s@.len(),
            s@.len() <= usize::MAX,
            forall|t: int| 0 <= t < k ==> s@[i + t] == p@[t],
        decreases m - k,
    {
        if s.get_char(i + k) != p.get_char(k) {
            proof {
                assert(s@.skip(i as int)[k as int] == s@[i + k]);
                assert(spec_starts_with(s@.skip(i as int), p@) ==> s@.skip(i as int).subrange(
                    0,
                    m as int,
                )[k as int] == p@[k as int]);
            }
            return false;
        }
        k += 1;
    }
    proof {
        assert(s@.skip(i as int).subrange(0, m as int) =~= p@);
    }
    true
}

/// The first position at which `p` occurs in `s`, scanning left to right.
fn find_sub(s: &str, p: &str) -> (r: Option<usize>)
    ensures
        match r {
            Some(i) => spec_find(s@, p@) == Some(i as int),
            None => spec_find(s@, p@) is None,
        },
{
    let n = s.unicode_len();
    let m = p.unicode_len();
    if m > n {
        proof {
            lemma_find_too_short(s@, p@);
        }
        return None;
    }
    proof {
        assert(s@.skip(0) =~= s@);
    }
    if m == 0 {
        proof {
            assert(s@.subrange(0, 0) =~= p@);
        }
        return Some(0);
    }
    let mut i: usize = 0;
    while i <= n - m
        invariant
            0 <= i <= n - m + 1,
            1 <= m <= n,
            n == s@.len(),
            m == p@.len(),
            match spec_find(s@.skip(i as int), p@) {
                Some(k) => spec_find(s@, p@) == Some(k + i),
                None => spec_find(s@, p@) is None,
            },
        decreases n - i,
    {
        if occurs_at(s, p, i) {
            proof {
                assert(spec_find(s@.skip(i as int), p@) == Some(0int));
            }
            return Some(i);
        }
        proof {
            let rest = s@.skip(i as int);
            assert(rest.len() == n - i);
            assert(rest.drop_first() =~= s@.skip(i + 1));
        }
        i += 1;
    }
    proof {
        let rest = s@.skip(i as int);
        assert(rest.len() < m);
        lemma_find_too_short(rest, p@);
    }
    None
}

/// A blank character of the query tool's output: a space or a tab.
pub open spec fn spec_is_blank(c: char) -> bool {
    c == ' ' || c == '\t'
}

/// `s` with its leading blanks removed.
pub open spec fn spec_trim_front(s: Seq<char>) -> Seq<char>
    decreases s.len(),
{
    if s.len() > 0 && spec_is_blank(s[0]) {
        spec_trim_front(s.drop_first())
    } else {
        s
    }
}

/// `s` with its trailing blanks removed.
pub open spec fn spec_trim_back(s: Seq<char>) -> Seq<char>
    decreases s.len(),
{
    if s.len() > 0 && spec_is_blank(s.last()) {
        spec_trim_back(s.drop_last())
    } else {
        s
    }
}

/// `s` with blanks removed at both ends.
pub open spec fn spec_trim(s: Seq<char>) -> Seq<char> {
    spec_trim_back(spec_trim_front(s))
}

/// Removes the blanks at both ends of `s`.
fn trim_str(s: &str) -> (r: String)
    ensures
        r@ == spec_trim(s@),
{
    let n = s.unicode_len();
    let mut a: usize = 0;
    proof {
        assert(s@.skip(0) =~= s@);
    }
    while a < n && (s.get_char(a) == ' ' || s.get_char(a) == '\t')
        invariant
            0 <= a <= n,
            n == s@.len(),
            spec_trim_front(s@) == spec_trim_front(s@.skip(a as int)),
        decreases n - a,
    {
        proof {
            let rest = s@.skip(a as int);
            assert(rest[0] == s@[a as int]);
            assert(rest.drop_first() =~= s@.skip(a + 1));
        }
        a += 1;
    }
    proof {
        let rest = s@.skip(a as int);
        if a < n {
            assert(!spec_is_blank(rest[0]));
        }
        assert(spec_trim_front(s@) == rest);
        assert(rest =~= s@.subrange(a as int, n as int));
    }
    let mut b: usize = n;
    while b > a && (s.get_char(b - 1) == ' ' || s.get_char(b - 1) == '\t')
        invariant
            a <= b <= n,
            n == s@.len(),
            spec_trim_front(s@) == s@.subrange(a as int, n as int),
            spec_trim_back(s@.subrange(a as int, n as int)) == spec_trim_back(
                s@.subrange(a as int, b as int),
            ),
        decreases b,
    {
        proof {
            let cur = s@.subrange(a as int, b as int);
            assert(cur.last() == s@[b - 1]);
            assert(cur.drop_last() =~= s@.subrange(a as int, b - 1));
        }
        b -= 1;
    }
    proof {
        let cur = s@.subrange(a as int, b as int);
        if b > a {
            assert(!spec_is_blank(cur.last()));
        }
        assert(spec_trim_back(cur) == cur);
    }
    let r = s.substring_char(a, b).to_owned();
    proof {
        assert(r@ =~= s@.subrange(a as int, b as int));
    }
    r
}

/// One parsed line of the query tool's output: the dependency name, and
/// the resolved path when the tool reported one.
pub struct QueryEntry {
    pub name: String,
    pub path: Option<String>,
}

/// What one line of the query tool's output means: nothing for a line not
/// of the `<name> => <target>` shape; otherwise the name and, unless the
/// target reads `not found`, the target stripped of a trailing address
/// annotation and of surrounding blanks.
pub open spec fn spec_parse_query_line(line: Seq<char>) -> Option<(Seq<char>, Option<Seq<char>>)> {
    let t = spec_trim(line);
    match spec_find(t, " => "@) {
        None => None,
        Some(i) => {
            let name = t.subrange(0, i);
            let target = spec_trim(t.subrange(i + 4, t.len() as int));
            if spec_starts_with(target, "not found"@) {
                Some((name, None))
            } else {
                let stripped = match spec_find(target, " ("@) {
                    Some(k) => target.subrange(0, k),
                    None => target,
                };
                Some((name, Some(spec_trim(stripped))))
            }
        },
    }
}

/// Parses one line of the query tool's output.
pub fn parse_query_line(line: &String) -> (r: Option<QueryEntry>)
    ensures
        match r {
            Some(e) => spec_parse_query_line(line@) == Some((e.name@, e.path.deep_view())),
            None => spec_parse_query_line(line@) is None,
        },
{
    proof {
        reveal_strlit(" => ");
        reveal_strlit("not found");
        reveal_strlit(" (");
    }
    let t = trim_str(line.as_str());
    let tn = t.as_str().unicode_len();
    let sep = find_sub(t.as_str(), " => ");
    match sep {
        None => None,
        Some(i) => {
            proof {
                lemma_find_some(t@, " => "@);
            }
            let name = t.as_str().substring_char(0, i).to_owned();
            proof {
                assert(name@ =~= t@.subrange(0, i as int));
            }
            let target = trim_str(t.as_str().substring_char(i + 4, tn));
            proof {
                assert(t@.subrange(i + 4, tn as int) == t@.subrange(i + 4, t@.len() as int));
            }
            let tlen = target.as_str().unicode_len();
            let not_found = if tlen >= 9 {
                occurs_at(target.as_str(), "not found", 0)
            } else {
                proof {
                    assert(!spec_starts_with(target@, "not found"@));
                }
                false
            };
            proof {
                assert(target@.skip(0) =~= target@);
            }
            if not_found {
                Some(QueryEntry { name, path: None })
            } else {
                let stripped = match find_sub(target.as_str(), " (") {
                    Some(k) => {
                        proof {
                            lemma_find_some(target@, " ("@);
                        }
                        target.as_str().substring_char(0, k).to_owned()
                    },
                    None => target,
                };
                let path = trim_str(stripped.as_str());
                Some(QueryEntry { name, path: Some(path) })
            }
        },
    }
}

/// What a list of output lines means: the parsed entries of the lines of
/// the `<name> => <target>` shape, in order; other lines contribute
/// nothing.
pub open spec fn spec_parse_query_lines(lines: Seq<Seq<char>>) -> Seq<
    (Seq<char>, Option<Seq<char>>),
>
    decreases lines.len(),
{
    if lines.len() == 0 {
        Seq::empty()
    } else {
        let rest = spec_parse_query_lines(lines.drop_last());
        match spec_parse_query_line(lines.last()) {
            Some(e) => rest.push(e),
            None => rest,
        }
    }
}

/// The name and path of each parsed entry.
pub open spec fn spec_entries_view(v: Seq<QueryEntry>) -> Seq<(Seq<char>, Option<Seq<char>>)> {
    v.map_values(|e: QueryEntry| (e.name@, e.path.deep_view()))
}

/// Parses every line of the query tool's output, keeping the entries of
/// the lines that name a dependency and dropping the rest.
pub fn parse_query_lines(lines: &Vec<String>) -> (r: Vec<QueryEntry>)
    ensures
        spec_entries_view(r@) == spec_parse_query_lines(lines.deep_view()),
{
    let ghost dv = lines.deep_view();
    let mut out: Vec<QueryEntry> = Vec::new();
    proof {
        assert(spec_entries_view(out@) =~= Seq::<(Seq<char>, Option<Seq<char>>)>::empty());
        assert(dv.subrange(0, 0) =~= Seq::<Seq<char>>::empty());
    }
    let mut i: usize = 0;
    while i < lines.len()
        invariant
            0 <= i <= lines@.len(),
            dv == lines.deep_view(),
            spec_entries_view(out@) == spec_parse_query_lines(dv.subrange(0, i as int)),
        decreases lines@.len() - i,
    {
        let ghost pre = out@;
        proof {
            let cur = dv.subrange(0, i + 1);
            assert(cur.drop_last() =~= dv.subrange(0, i as int));
            assert(cur.last() == dv[i as int]);
            assert(dv[i as int] == lines@[i as int]@);
        }
        match parse_query_line(&lines[i]) {
            Some(e) => {
                out.push(e);
                proof {
                    assert(spec_entries_view(out@) =~= spec_entries_view(pre).push(
                        (out@[pre.len() as int].name@, out@[pre.len() as int].path.deep_view()),
                    ));
                }
            },
            None => {},
        }
        i += 1;
    }
    proof {
        assert(dv.subrange(0, lines@.len() as int) =~= dv);
    }
    out
}

} // verus!
