//! Library names and file paths: membership tests, path joining, and
//! base-filename extraction shared by the resolver and the ignore filter.

use vstd::prelude::*;
use vstd::string::*;

verus! {

/// True when the list of names `v` holds the name `x`.
pub fn contains_name(v: &Vec<String>, x: &String) -> (r: bool)
    ensures
        r == v.deep_view().contains(x@),
{
    let mut i: usize = 0;
    while i < v.len()
        invariant
            0 <= i <= v.len(),
            forall|j: int| 0 <= j < i ==> v.deep_view()[j] != x@,
        decreases v.len() - i,
    {
        if v[i].eq(x) {
            assert(v.deep_view()[i as int] == x@);
            return true;
        }
        i += 1;
    }
    assert(forall|j: int| 0 <= j < v.deep_view().len() ==> v.deep_view()[j] != x@);
    false
}

/// The path naming `name` inside the directory `dir`.
pub open spec fn spec_join_path(dir: Seq<char>, name: Seq<char>) -> Seq<char> {
    dir + seq!['/'] + name
}

/// Joins a directory and a file name with a single separator.
pub fn join_path(dir: &String, name: &String) -> (r: String)
    ensures
        r@ == spec_join_path(dir@, name@),
{
    proof {
        reveal_strlit("/");
        assert("/"@ =~= seq!['/']);
    }
    let mut r = dir.clone();
    r.append("/");
    r.append(name.as_str());
    r
}

/// The base filename of `path`: the longest suffix free of `/`.
pub open spec fn spec_base_name(path: Seq<char>) -> Seq<char>
    decreases path.len(),
{
    if path.len() == 0 {
        path
    } else if path.last() == '/' {
        Seq::empty()
    } else {
        spec_base_name(path.drop_last()).push(path.last())
    }
}

/// Returns the base filename of `path`: everything after the last `/`,
/// or the whole string when it holds no `/`.
pub fn base_name(path: &String) -> (r: String)
    ensures
        r@ == spec_base_name(path@),
{
    let s = path.as_str();
    let n = s.unicode_len();
    let mut start: usize = 0;
    let mut j: usize = 0;
    proof {
        assert(path@.subrange(0, 0) =~= Seq::<char>::empty());
    }
    while j < n
        invariant
            0 <= start <= j <= n,
            n == path@.len(),
            s@ == path@,
            spec_base_name(path@.subrange(0, j as int)) =~= path@.subrange(
                start as int,
                j as int,
            ),
        decreases n - j,
    {
        let ghost pre = path@.subrange(0, j as int);
        let ghost cur = path@.subrange(0, j + 1);
        proof {
            assert(cur.drop_last() =~= pre);
            assert(cur.last() == path@[j as int]);
        }
        if s.get_char(j) == '/' {
            start = j + 1;
            proof {
                assert(spec_base_name(cur) =~= path@.subrange(j + 1, j + 1));
            }
        } else {
            proof {
                assert(spec_base_name(cur) =~= spec_base_name(pre).push(path@[j as int]));
                assert(path@.subrange(start as int, j as int).push(path@[j as int])
                    =~= path@.subrange(start as int, j + 1));
            }
        }
        j += 1;
    }
    let tail = s.substring_char(start, n);
    let r = tail.to_owned();
    proof {
        assert(path@.subrange(0, n as int) =~= path@);
        assert(r@ =~= path@.subrange(start as int, n as int));
    }
    r
}

/// The given segments joined back with the separator between them.
pub open spec fn spec_join_with(parts: Seq<Seq<char>>, sep: char) -> Seq<char>
    decreases parts.len(),
{
    if parts.len() == 0 {
        Seq::empty()
    } else if parts.len() == 1 {
        parts[0]
    } else {
        parts[0] + seq![sep] + spec_join_with(parts.drop_first(), sep)
    }
}

/// Joining after appending one more segment.
proof fn lemma_join_with_push(ps: Seq<Seq<char>>, x: Seq<char>, sep: char)
    ensures
        spec_join_with(ps.push(x), sep) == if ps.len() == 0 {
            x
        } else {
            spec_join_with(ps, sep) + seq![sep] + x
        },
    decreases ps.len(),
{
    let t = ps.push(x);
    if ps.len() == 0 {
        assert(t.len() == 1);
        assert(t[0] == x);
    } else {
        assert(t[0] == ps[0]);
        assert(t.drop_first() =~= ps.drop_first().push(x));
        lemma_join_with_push(ps.drop_first(), x, sep);
        if ps.len() == 1 {
            assert(spec_join_with(t, sep) == ps[0] + seq![sep] + x);
        } else {
            assert(spec_join_with(t, sep) == ps[0] + seq![sep] + (spec_join_with(
                ps.drop_first(),
                sep,
            ) + seq![sep] + x));
            assert(ps[0] + seq![sep] + (spec_join_with(ps.drop_first(), sep) + seq![sep] + x)
                =~= (ps[0] + seq![sep] + spec_join_with(ps.drop_first(), sep)) + seq![sep] + x);
        }
    }
}

/// The join of the finished segments, with the separator that parts them
/// from the segment still being read.
spec fn spec_prefix_join(parts: Seq<Seq<char>>, sep: char) -> Seq<char> {
    if parts.len() == 0 {
        Seq::empty()
    } else {
        spec_join_with(parts, sep) + seq![sep]
    }
}

/// Splits a string at every occurrence of the separator: the unique list
/// of separator-free segments that joins back, with the separator between
/// them, to the input. A string without the separator yields itself as the
/// one segment.
pub fn split_on(s: &String, sep: char) -> (r: Vec<String>)
    ensures
        r.deep_view().len() >= 1,
        forall|i: int| 0 <= i < r.deep_view().len() ==> !(#[trigger] r.deep_view()[i]).contains(
            sep,
        ),
        spec_join_with(r.deep_view(), sep) == s@,
{
    let st = s.as_str();
    let n = st.unicode_len();
    let mut done: Vec<String> = Vec::new();
    let mut seg_start: usize = 0;
    let mut j: usize = 0;
    proof {
        assert(done.deep_view() =~= Seq::<Seq<char>>::empty());
        assert(s@.subrange(0, 0) =~= Seq::<char>::empty());
    }
    while j < n
        invariant
            0 <= seg_start <= j <= n,
            n == s@.len(),
            st@ == s@,
            forall|i: int| 0 <= i < done.deep_view().len() ==> !(
            #[trigger] done.deep_view()[i]).contains(sep),
            forall|k: int| seg_start <= k < j ==> s@[k] != sep,
            spec_prefix_join(done.deep_view(), sep) + s@.subrange(seg_start as int, j as int) == s@
                .subrange(0, j as int),
        decreases n - j,
    {
        let ghost dv = done.deep_view();
        let ghost cur = s@.subrange(seg_start as int, j as int);
        if st.get_char(j) == sep {
            let seg = st.substring_char(seg_start, j).to_owned();
            proof {
                assert(seg@ =~= cur);
                assert(!cur.contains(sep)) by {
                    assert(forall|k: int| 0 <= k < cur.len() ==> cur[k] == s@[seg_start + k]
                        && s@[seg_start + k] != sep);
                }
            }
            done.push(seg);
            seg_start = j + 1;
            proof {
                assert(done.deep_view() =~= dv.push(cur));
                lemma_join_with_push(dv, cur, sep);
                assert(spec_prefix_join(dv.push(cur), sep) =~= spec_prefix_join(dv, sep) + cur + seq![sep]);
                assert(s@.subrange(0, j + 1) =~= s@.subrange(0, j as int) + seq![s@[j as int]]);
                assert(s@.subrange(j + 1, j + 1) =~= Seq::<char>::empty());
                assert(spec_prefix_join(done.deep_view(), sep) + s@.subrange(j + 1, j + 1) =~= s@
                    .subrange(0, j + 1));
            }
        } else {
            proof {
                assert(s@.subrange(seg_start as int, j + 1) =~= cur.push(s@[j as int]));
                assert(s@.subrange(0, j + 1) =~= s@.subrange(0, j as int).push(s@[j as int]));
                assert(spec_prefix_join(dv, sep) + cur.push(s@[j as int]) =~= (spec_prefix_join(dv, sep)
                    + cur).push(s@[j as int]));
            }
        }
        j += 1;
    }
    let ghost dv = done.deep_view();
    let ghost cur = s@.subrange(seg_start as int, n as int);
    let seg = st.substring_char(seg_start, n).to_owned();
    proof {
        assert(seg@ =~= cur);
        assert(!cur.contains(sep)) by {
            assert(forall|k: int| 0 <= k < cur.len() ==> cur[k] == s@[seg_start + k] && s@[seg_start
                + k] != sep);
        }
    }
    done.push(seg);
    proof {
        assert(done.deep_view() =~= dv.push(cur));
        lemma_join_with_push(dv, cur, sep);
        assert(s@.subrange(0, n as int) =~= s@);
        assert(spec_join_with(done.deep_view(), sep) =~= s@);
    }
    done
}

/// Splits a colon-separated search-path list into its directory entries.
pub fn split_colon(s: &String) -> (r: Vec<String>)
    ensures
        r.deep_view().len() >= 1,
        forall|i: int| 0 <= i < r.deep_view().len() ==> !(#[trigger] r.deep_view()[i]).contains(
            ':',
        ),
        spec_join_with(r.deep_view(), ':') == s@,
{
    split_on(s, ':')
}

/// Membership in a sequence of names extended by one element.
pub(crate) proof fn lemma_push_contains(s: Seq<Seq<char>>, x: Seq<char>, y: Seq<char>)
    ensures
        s.push(x).contains(y) <==> (s.contains(y) || y == x),
{
    if s.push(x).contains(y) {
        let i = choose|i: int| 0 <= i < s.push(x).len() && s.push(x)[i] == y;
        if i < s.len() {
            assert(s[i] == y);
        }
    }
    if s.contains(y) {
        let i = choose|i: int| 0 <= i < s.len() && s[i] == y;
        assert(s.push(x)[i] == y);
    }
    if y == x {
        assert(s.push(x)[s.len() as int] == y);
    }
}

/// Pushing a fresh name keeps a sequence of names free of duplicates.
pub(crate) proof fn lemma_push_no_dup(s: Seq<Seq<char>>, x: Seq<char>)
    requires
        s.no_duplicates(),
        !s.contains(x),
    ensures
        s.push(x).no_duplicates(),
{
    let t = s.push(x);
    assert forall|i: int, j: int| 0 <= i < t.len() && 0 <= j < t.len() && i != j implies t[i]
        != t[j] by {
        if i < s.len() && j < s.len() {
            assert(s[i] == t[i] && s[j] == t[j]);
        } else if i < s.len() {
            assert(t[j] == x && t[i] == s[i]);
            if s[i] == x {
                assert(s.contains(x));
            }
        } else {
            assert(t[i] == x && t[j] == s[j]);
            if s[j] == x {
                assert(s.contains(x));
            }
        }
    }
}

} // verus!
