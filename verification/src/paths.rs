//! Where a Ruby file's signature is written, and which files are watched.
//!
//! A path is handled as the list of its components, as `Path::components`
//! yields them: `/` for the root, `.` and `..`, and plain names.
use vstd::prelude::*;
use crate::text::{starts_with, ends_with, contains, chars_of, string_of, has_prefix, has_suffix, contains_str, push_str};
use crate::config::string_views;

verus! {

broadcast use vstd::string::group_string_axioms;

/// Whether a component is a plain name: not the root, `.` or `..`.
pub open spec fn is_name_part(c: Seq<char>) -> bool {
    c.len() > 0 && c != "/"@ && c != "."@ && c != ".."@
}

/// The file name of a path: its last component, when that is a plain name.
pub open spec fn file_name(p: Seq<Seq<char>>) -> Option<Seq<char>> {
    if p.len() > 0 && is_name_part(p.last()) {
        Some(p.last())
    } else {
        None
    }
}

/// The position of the last `.` in `s`.
pub open spec fn last_dot(s: Seq<char>) -> Option<int>
    decreases s.len(),
{
    if s.len() == 0 {
        None
    } else if s.last() == '.' {
        Some(s.len() - 1)
    } else {
        last_dot(s.drop_last())
    }
}

/// A file name without its extension: what precedes the last `.`, unless
/// that `.` is the first character, in which case there is no extension.
pub open spec fn file_stem(name: Seq<char>) -> Seq<char> {
    match last_dot(name) {
        Some(i) => if i > 0 {
            name.subrange(0, i)
        } else {
            name
        },
        None => name,
    }
}

/// The path with its extension set to `rbs`; unchanged when it has no file
/// name.
pub open spec fn with_rbs_extension(p: Seq<Seq<char>>) -> Seq<Seq<char>> {
    match file_name(p) {
        Some(n) => p.drop_last().push(file_stem(n) + ".rbs"@),
        None => p,
    }
}

/// Whether `p` lies under `root`: `root`'s components begin `p`'s.
pub open spec fn lies_under(p: Seq<Seq<char>>, root: Seq<Seq<char>>) -> bool {
    root.len() <= p.len() && p.subrange(0, root.len() as int) == root
}

/// The first of `roots` that `p` lies under.
pub open spec fn root_for(roots: Seq<Seq<Seq<char>>>, p: Seq<Seq<char>>) -> Option<Seq<Seq<char>>>
    decreases roots.len(),
{
    if roots.len() == 0 {
        None
    } else if lies_under(p, roots[0]) {
        Some(roots[0])
    } else {
        root_for(roots.subrange(1, roots.len() as int), p)
    }
}

/// Where the signature of the Ruby file `rb` goes: below `output` at the
/// place `rb` has below `root` when it lies under it, else below `output` by
/// its file name alone; with the extension `rbs`.
pub open spec fn sig_path(output: Seq<Seq<char>>, root: Option<Seq<Seq<char>>>, rb: Seq<Seq<char>>) -> Seq<
    Seq<char>,
> {
    let by_name = match file_name(rb) {
        Some(n) => output.push(n),
        None => output,
    };
    let placed = match root {
        Some(r) => if lies_under(rb, r) {
            output + rb.subrange(r.len() as int, rb.len() as int)
        } else {
            by_name
        },
        None => by_name,
    };
    with_rbs_extension(placed)
}

/// Whether a file name is that of a Ruby source worth transpiling: it ends
/// in `.rb` and is neither hidden (a leading `.`, as in `sed`'s temporary
/// files) nor an editor backup (a `~`).
pub open spec fn watchable_name(name: Seq<char>) -> bool {
    ends_with(name, ".rb"@) && !starts_with(name, "."@) && !contains(name, "~"@)
}

/// Whether the path is that of a Ruby source worth transpiling.
pub open spec fn watchable_path(p: Seq<Seq<char>>) -> bool {
    match file_name(p) {
        Some(n) => watchable_name(n),
        None => false,
    }
}

/// Whether a file name is that of a Ruby source worth transpiling. For a
/// name that does not begin with `.`, ending in `.rb` is having the
/// extension `rb`.
pub fn is_watchable_rb(file_name: &str) -> (r: bool)
    ensures
        r == watchable_name(file_name@),
{
    let n = chars_of(file_name);
    has_suffix(&n, &chars_of(".rb")) && !has_prefix(&n, &chars_of(".")) && !contains_str(&n, &chars_of("~"))
}

fn text_is(s: &String, lit: &str) -> (r: bool)
    ensures
        r == (s@ == lit@),
{
    crate::text::same_text(&chars_of(s.as_str()), &chars_of(lit))
}

fn is_name_part_of(c: &String) -> (r: bool)
    ensures
        r == is_name_part(c@),
{
    let cs = chars_of(c.as_str());
    cs.len() > 0 && !text_is(c, "/") && !text_is(c, ".") && !text_is(c, "..")
}

fn file_name_of(p: &Vec<String>) -> (r: Option<String>)
    ensures
        r matches Some(n) ==> file_name(string_views(p@)) == Some(n@),
        r is None ==> file_name(string_views(p@)) is None,
{
    if p.len() > 0 && is_name_part_of(&p[p.len() - 1]) {
        assert(string_views(p@).last() == p@.last()@);
        Some(p[p.len() - 1].clone())
    } else {
        proof {
            if p@.len() > 0 {
                assert(string_views(p@).last() == p@.last()@);
            }
        }
        None
    }
}

/// Whether the path is that of a Ruby source worth transpiling.
pub fn is_watchable_path(p: &Vec<String>) -> (r: bool)
    ensures
        r == watchable_path(string_views(p@)),
{
    match file_name_of(p) {
        Some(n) => is_watchable_rb(n.as_str()),
        None => false,
    }
}

fn last_dot_of(s: &Vec<char>) -> (r: Option<usize>)
    ensures
        r matches Some(i) ==> last_dot(s@) == Some(i as int) && i < s@.len(),
        r is None ==> last_dot(s@) is None,
{
    let mut n = s.len();
    assert(s@.subrange(0, s@.len() as int) =~= s@);
    while n > 0
        invariant
            n <= s@.len(),
            last_dot(s@) == last_dot(s@.subrange(0, n as int)),
        decreases n,
    {
        let ghost t = s@.subrange(0, n as int);
        assert(t.last() == s@[n - 1]);
        if s[n - 1] == '.' {
            return Some(n - 1);
        }
        assert(t.drop_last() =~= s@.subrange(0, n - 1));
        n = n - 1;
    }
    None
}

fn with_rbs_extension_of(p: &mut Vec<String>)
    ensures
        string_views(final(p)@) == with_rbs_extension(string_views(old(p)@)),
{
    let name = match file_name_of(p) {
        Some(n) => n,
        None => {
            return;
        },
    };
    let c = chars_of(name.as_str());
    let mut stem = match last_dot_of(&c) {
        Some(i) => if i > 0 {
            crate::text::copy_range(&c, 0, i)
        } else {
            c
        },
        None => c,
    };
    push_str(&mut stem, ".rbs");
    let ghost before = string_views(p@);
    p.pop();
    p.push(string_of(&stem));
    assert(string_views(p@) =~= before.drop_last().push(file_stem(name@) + ".rbs"@));
}

fn lies_under_of(p: &Vec<String>, root: &Vec<String>) -> (r: bool)
    ensures
        r == lies_under(string_views(p@), string_views(root@)),
{
    let ghost pv = string_views(p@);
    let ghost rv = string_views(root@);
    if root.len() > p.len() {
        return false;
    }
    for i in 0..root.len()
        invariant
            pv == string_views(p@),
            rv == string_views(root@),
            root@.len() <= p@.len(),
            forall|k: int| 0 <= k < i ==> pv[k] == rv[k],
    {
        if p[i] != root[i] {
            assert(pv.subrange(0, rv.len() as int)[i as int] != rv[i as int]);
            return false;
        }
    }
    assert(pv.subrange(0, rv.len() as int) =~= rv);
    true
}

/// The first of the watched `roots` that `path` lies under.
pub fn root_for_of<'a>(roots: &'a Vec<Vec<String>>, path: &Vec<String>) -> (r: Option<&'a Vec<String>>)
    ensures
        r matches Some(x) ==> root_for(roots@.map_values(|v: Vec<String>| string_views(v@)), string_views(path@))
            == Some(string_views(x@)),
        r is None ==> root_for(roots@.map_values(|v: Vec<String>| string_views(v@)), string_views(path@)) is None,
{
    let ghost all = roots@.map_values(|v: Vec<String>| string_views(v@));
    let ghost pv = string_views(path@);
    assert(all.subrange(0, all.len() as int) =~= all);
    for i in 0..roots.len()
        invariant
            all == roots@.map_values(|v: Vec<String>| string_views(v@)),
            pv == string_views(path@),
            root_for(all, pv) == root_for(all.subrange(i as int, all.len() as int), pv),
    {
        let ghost rest = all.subrange(i as int, all.len() as int);
        assert(rest[0] == string_views(roots@[i as int]@));
        assert(rest.subrange(1, rest.len() as int) =~= all.subrange(i + 1, all.len() as int));
        if lies_under_of(path, &roots[i]) {
            return Some(&roots[i]);
        }
    }
    assert(all.subrange(all.len() as int, all.len() as int) =~= Seq::<Seq<Seq<char>>>::empty());
    None
}

/// Where the signature of the Ruby file `rb` goes, given the output
/// directory and the root that `rb` is taken relative to.
pub fn sig_path_of(output: &Vec<String>, root: Option<&Vec<String>>, rb: &Vec<String>) -> (r: Vec<String>)
    ensures
        string_views(r@) == sig_path(
            string_views(output@),
            match root {
                Some(x) => Some(string_views(x@)),
                None => None,
            },
            string_views(rb@),
        ),
{
    let ghost ov = string_views(output@);
    let ghost bv = string_views(rb@);
    let mut p = output.clone();
    assert(string_views(p@) == ov);
    let mut placed = false;
    match root {
        Some(x) => {
            if lies_under_of(rb, x) {
                for i in x.len()..rb.len()
                    invariant
                        x@.len() <= rb@.len(),
                        bv == string_views(rb@),
                        string_views(p@) == ov + bv.subrange(x@.len() as int, i as int),
                {
                    let ghost prev = string_views(p@);
                    p.push(rb[i].clone());
                    assert(string_views(p@) =~= prev.push(bv[i as int]));
                    assert(bv.subrange(x@.len() as int, i + 1) =~= bv.subrange(x@.len() as int, i as int).push(
                        bv[i as int],
                    ));
                }
                placed = true;
            }
        },
        None => {},
    }
    if !placed {
        match file_name_of(rb) {
            Some(n) => {
                p.push(n);
                assert(string_views(p@) =~= ov.push(file_name(bv).unwrap()));
            },
            None => {},
        }
    }
    with_rbs_extension_of(&mut p);
    p
}

} // verus!
