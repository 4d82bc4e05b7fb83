//! The ignore filter: removes from a dependency closure every entry whose
//! base filename matches one of a list of patterns — by default the dynamic
//! loader, the kernel's virtual shared object, and the core C runtime.

use vstd::prelude::*;
use vstd::string::*;
use crate::names::{base_name, spec_base_name, lemma_push_contains};

verus! {

/// What `regex::Regex::new` decides for a pattern: whether the pattern is a
/// valid regular expression, a function of the pattern text alone.
pub uninterp spec fn regex_valid(pattern: Seq<char>) -> bool;

/// What `regex::Regex::is_match` returns for a valid pattern and a text, a
/// function of the two texts alone.
pub uninterp spec fn regex_match(pattern: Seq<char>, text: Seq<char>) -> bool;

/// An ignore pattern that is not a valid regular expression.
#[derive(Debug)]
pub struct PatternError {
    pub pattern: String,
}

/// Relies on regex::Regex::new: whether it accepts a pattern depends on
/// the pattern text alone.
#[verifier::external_body]
fn regex_check(pattern: &str) -> (r: bool)
    ensures
        r == regex_valid(pattern@),
{
    regex::Regex::new(pattern).is_ok()
}

/// Relies on regex::Regex::new and regex::Regex::is_match: `new` accepts or
/// rejects a pattern on its text alone, and `is_match` decides a match from
/// the pattern and the haystack texts alone.
#[verifier::external_body]
fn regex_is_match(pattern: &str, text: &str) -> (r: Option<bool>)
    ensures
        r is Some <==> regex_valid(pattern@),
        r matches Some(b) ==> b == regex_match(pattern@, text@),
{
    match regex::Regex::new(pattern) {
        Ok(re) => Some(re.is_match(text)),
        Err(_) => None,
    }
}

/// Some pattern in the list matches the text.
pub open spec fn spec_matches_any(patterns: Seq<Seq<char>>, text: Seq<char>) -> bool {
    exists|i: int| 0 <= i < patterns.len() && #[trigger] regex_match(patterns[i], text)
}

/// Every pattern in the list is a valid regular expression.
pub open spec fn spec_all_valid(patterns: Seq<Seq<char>>) -> bool {
    forall|i: int| 0 <= i < patterns.len() ==> #[trigger] regex_valid(patterns[i])
}

/// Whether any of the `patterns` matches `text`.
fn matches_any(patterns: &Vec<String>, text: &String) -> (r: bool)
    requires
        spec_all_valid(patterns.deep_view()),
    ensures
        r == spec_matches_any(patterns.deep_view(), text@),
{
    let ghost pats = patterns.deep_view();
    let mut found = false;
    let mut i: usize = 0;
    while i < patterns.len()
        invariant
            0 <= i <= patterns@.len(),
            pats == patterns.deep_view(),
            spec_all_valid(pats),
            found == spec_matches_any(pats.subrange(0, i as int), text@),
        decreases patterns@.len() - i,
    {
        let ghost pre = pats.subrange(0, i as int);
        proof {
            assert(pats[i as int] == patterns@[i as int]@);
            assert(regex_valid(pats[i as int]));
        }
        let m = regex_is_match(patterns[i].as_str(), text.as_str());
        let b = match m {
            Some(b) => b,
            None => {
                proof {
                    assert(false);
                }
                false
            },
        };
        proof {
            assert(pats.subrange(0, i + 1) =~= pre.push(pats[i as int]));
            if b {
                assert(pats.subrange(0, i + 1)[i as int] == pats[i as int]);
                assert(spec_matches_any(pats.subrange(0, i + 1), text@));
            } else if !found {
                assert forall|j: int| 0 <= j < i + 1 implies !regex_match(
                    #[trigger] pats.subrange(0, i + 1)[j],
                    text@,
                ) by {
                    if j < i {
                        assert(pre[j] == pats[j]);
                        assert(!spec_matches_any(pre, text@));
                    }
                }
            }
        }
        if b {
            found = true;
        }
        i += 1;
    }
    proof {
        assert(pats.subrange(0, patterns@.len() as int) =~= pats);
    }
    found
}

/// Keeps exactly the entries whose base filename matches no ignore
/// pattern, in their original order; every matching entry is removed,
/// whatever order the entries come in. Fails only when a pattern is not a
/// valid regular expression.
pub fn filter_ignored(entries: &Vec<String>, patterns: &Vec<String>) -> (r: Result<
    Vec<String>,
    PatternError,
>)
    ensures
        r is Ok <==> spec_all_valid(patterns.deep_view()),
        r matches Ok(v) ==> v.deep_view() == entries.deep_view().filter(
            |n: Seq<char>| !spec_matches_any(patterns.deep_view(), spec_base_name(n)),
        ),
        r matches Ok(v) ==> forall|n: Seq<char>| #[trigger] v.deep_view().contains(n) <==> (
        entries.deep_view().contains(n) && !spec_matches_any(
            patterns.deep_view(),
            spec_base_name(n),
        )),
        r matches Err(e) ==> !regex_valid(e.pattern@) && patterns.deep_view().contains(e.pattern@),
{
    let ghost pats = patterns.deep_view();
    let ghost es = entries.deep_view();
    let ghost keep = (|n: Seq<char>| !spec_matches_any(pats, spec_base_name(n)));
    let mut i: usize = 0;
    while i < patterns.len()
        invariant
            0 <= i <= patterns@.len(),
            pats == patterns.deep_view(),
            forall|j: int| 0 <= j < i ==> #[trigger] regex_valid(pats[j]),
        decreases patterns@.len() - i,
    {
        proof {
            assert(pats[i as int] == patterns@[i as int]@);
        }
        if !regex_check(patterns[i].as_str()) {
            proof {
                assert(pats.contains(pats[i as int]));
            }
            return Err(PatternError { pattern: patterns[i].clone() });
        }
        i += 1;
    }
    let mut out: Vec<String> = Vec::new();
    proof {
        assert(spec_all_valid(pats));
        assert(out.deep_view() =~= Seq::<Seq<char>>::empty());
        assert(es.subrange(0, 0) =~= Seq::<Seq<char>>::empty());
        reveal(Seq::filter);
    }
    let mut i: usize = 0;
    while i < entries.len()
        invariant
            0 <= i <= entries@.len(),
            pats == patterns.deep_view(),
            es == entries.deep_view(),
            spec_all_valid(pats),
            keep == (|n: Seq<char>| !spec_matches_any(pats, spec_base_name(n))),
            out.deep_view() == es.subrange(0, i as int).filter(keep),
        decreases entries@.len() - i,
    {
        let ghost pre_out = out.deep_view();
        let base = base_name(&entries[i]);
        let keep_it = !matches_any(patterns, &base);
        proof {
            reveal(Seq::filter);
            let cur = es.subrange(0, i + 1);
            assert(cur.drop_last() =~= es.subrange(0, i as int));
            assert(cur.last() == es[i as int]);
            assert(es[i as int] == entries@[i as int]@);
            assert(keep(es[i as int]) == keep_it);
        }
        if keep_it {
            out.push(entries[i].clone());
            proof {
                assert(out.deep_view() =~= pre_out.push(es[i as int]));
            }
        }
        i += 1;
    }
    proof {
        broadcast use vstd::seq_lib::group_filter_ensures;

        assert(es.subrange(0, entries@.len() as int) =~= es);
        assert forall|n: Seq<char>| #[trigger] out.deep_view().contains(n) implies (es.contains(n)
            && keep(n)) by {
            lemma_filter_keeps_members(es, keep, n);
        }
        assert forall|n: Seq<char>| es.contains(n) && keep(n) implies out.deep_view().contains(
            n,
        ) by {
            let j = choose|j: int| 0 <= j < es.len() && es[j] == n;
            assert(es.filter(keep).contains(es[j]));
        }
    }
        Ok(out)
}

/// An element of a filtered sequence of names was in the sequence and
/// satisfies the predicate.
proof fn lemma_filter_keeps_members(s: Seq<Seq<char>>, pred: spec_fn(Seq<char>) -> bool, n: Seq<char>)
    requires
        s.filter(pred).contains(n),
    ensures
        s.contains(n),
        pred(n),
    decreases s.len(),
{
    reveal(Seq::filter);
    if s.len() > 0 {
        let sub = s.drop_last().filter(pred);
        if pred(s.last()) && n == s.last() {
            assert(s.contains(n)) by {
                assert(s[s.len() - 1] == n);
            }
        } else {
            if sub.contains(n) {
                lemma_filter_keeps_members(s.drop_last(), pred, n);
                let j = choose|j: int| 0 <= j < s.drop_last().len() && s.drop_last()[j] == n;
                assert(s[j] == n);
            } else {
                lemma_push_contains(sub, s.last(), n);
                assert(s[s.len() - 1] == n);
            }
        }
    }
}

/// The built-in ignore patterns: the dynamic loader,
/// the kernel's virtual shared object, and the core C runtime library.
pub fn default_ignore_patterns() -> (r: Vec<String>)
    ensures
        r.deep_view() =~= seq!["ld-linux-x86-64.so.*"@, "linux-vdso.so.*"@, "libc.so.*"@],
{
    let mut v: Vec<String> = Vec::new();
    v.push("ld-linux-x86-64.so.*".to_owned());
    v.push("linux-vdso.so.*".to_owned());
    v.push("libc.so.*".to_owned());
    v
}

} // verus!
