//! Shared RBS type files (`# @rbs import <name>`): reading bare `type`
//! definitions out of `.rbs` files, indexing the type names they define, and
//! resolving an import together with the shared types it refers to.
use vstd::prelude::*;
use crate::text::{
    trim, trim_of, lines, lines_of, strip_prefix, strip_prefix_of, starts_with, has_prefix,
    ends_with, has_suffix, first_word, first_word_of, occurs_at, spec_is_word, is_word,
    starts_with_at, chars_of, push_all, push_str, same_text, views, list_contains, contains, contains_str,
};
use crate::balance::{balanced, is_balanced};
use crate::annotations::{strip, strip_annotations};

verus! {

broadcast use vstd::string::group_string_axioms;

/// A file found in a directory of shared types: its path relative to the
/// directory (just its file name for the directory's own entries) and, when
/// it could be read as text, its contents.
#[derive(Clone, Debug)]
pub struct SharedFile {
    pub name: String,
    pub contents: Option<String>,
}

/// The files of one shared-types directory: its own entries, in the order
/// the directory listing gave them, and the `.rbs` files below it, which
/// only a lookup of `<name>.rbs` with a path in the name reaches.
#[derive(Clone, Debug)]
pub struct SharedDir {
    pub files: Vec<SharedFile>,
}

/// The name of one of the directory's own entries (no `/` in it) whose
/// extension (`Path::extension`) is `rbs`: it ends in `.rbs` and that dot is
/// not its first character.
pub open spec fn is_rbs_name(name: Seq<char>) -> bool {
    name.len() >= 5 && ends_with(name, ".rbs"@) && !contains(name, "/"@)
}

pub fn is_rbs_file_name(name: &[char]) -> (r: bool)
    ensures
        r == is_rbs_name(name@),
{
    let ext = chars_of(".rbs");
    name.len() >= 5 && has_suffix(name, &ext) && !contains_str(name, &chars_of("/"))
}

/// Adds a finished definition: `type ` and the definition with its
/// annotations stripped, when its brackets balance.
pub open spec fn finish_alias(cur: Option<Seq<char>>, acc: Seq<Seq<char>>) -> Seq<Seq<char>> {
    match cur {
        Some(raw) => if balanced(raw) {
            acc.push("type "@ + strip(raw))
        } else {
            acc
        },
        None => acc,
    }
}

/// Reading the lines from `i` on with the definition `cur` under way.
pub open spec fn rbs_run(ls: Seq<Seq<char>>, i: int, cur: Option<Seq<char>>, acc: Seq<Seq<char>>) -> Seq<
    Seq<char>,
>
    decreases ls.len() - i,
{
    if i < 0 || i >= ls.len() {
        finish_alias(cur, acc)
    } else {
        let t = trim(ls[i]);
        if t.len() == 0 || t[0] == '#' {
            rbs_run(ls, i + 1, cur, acc)
        } else {
            match strip_prefix(t, "type "@) {
                Some(rest) => rbs_run(ls, i + 1, Some(rest), finish_alias(cur, acc)),
                None => match cur {
                    Some(c) => rbs_run(ls, i + 1, Some(c + " "@ + t), acc),
                    None => rbs_run(ls, i + 1, cur, acc),
                },
            }
        }
    }
}

/// The type definitions of a bare `.rbs` file: each `type ...` line together
/// with the non-blank, non-comment lines that continue it (joined by single
/// spaces), kept when its brackets balance, annotations stripped.
pub open spec fn shared_aliases(contents: Seq<char>) -> Seq<Seq<char>> {
    rbs_run(lines(contents), 0, None, seq![])
}

/// Parses a bare `.rbs` file and returns its type definitions, each as
/// `type <definition>` with annotations stripped.
pub fn parse_shared_rbs(contents: &[char]) -> (r: Vec<Vec<char>>)
    ensures
        views(r@) == shared_aliases(contents@),
{
    let ls = lines_of(contents);
    let ghost lv = lines(contents@);
    let mut aliases: Vec<Vec<char>> = Vec::new();
    let mut current: Option<Vec<char>> = None;
    let type_kw = chars_of("type ");
    let mut i: usize = 0;
    assert(views(aliases@) =~= Seq::<Seq<char>>::empty());
    while i < ls.len()
        invariant
            lv == lines(contents@),
            ls@.len() == lv.len(),
            forall|k: int| 0 <= k < ls@.len() ==> #[trigger] ls@[k]@ == lv[k],
            type_kw@ == "type "@,
            i <= ls@.len(),
            shared_aliases(contents@) == rbs_run(
                lv,
                i as int,
                match current {
                    Some(c) => Some(c@),
                    None => None,
                },
                views(aliases@),
            ),
        decreases ls@.len() - i,
    {
        let t = trim_of(&ls[i]);
        if t.len() == 0 || t[0] == '#' {
        } else {
            match strip_prefix_of(&t, &type_kw) {
                Some(rest) => {
                    finish(&mut aliases, current);
                    current = Some(rest);
                },
                None => {
                    match current {
                        Some(mut c) => {
                            push_str(&mut c, " ");
                            push_all(&mut c, &t);
                            current = Some(c);
                        },
                        None => {
                            current = None;
                        },
                    }
                },
            }
        }
        i = i + 1;
    }
    finish(&mut aliases, current);
    aliases
}

fn finish(aliases: &mut Vec<Vec<char>>, cur: Option<Vec<char>>)
    ensures
        views(final(aliases)@) == finish_alias(
            match cur {
                Some(c) => Some(c@),
                None => None,
            },
            views(old(aliases)@),
        ),
{
    if let Some(raw) = cur {
        if is_balanced(&raw) {
            let mut a = chars_of("type ");
            let stripped = strip_annotations(&raw);
            push_all(&mut a, &stripped);
            aliases.push(a);
            assert(views(aliases@) =~= views(old(aliases)@).push("type "@ + strip(raw@)));
        }
    }
}

/// `name` occurs in `alias` at `i` as a whole word: no identifier character
/// (ASCII letter, digit or `_`) right before or right after it.
pub open spec fn word_at(alias: Seq<char>, name: Seq<char>, i: int) -> bool {
    &&& occurs_at(alias, name, i)
    &&& (i == 0 || !spec_is_word(alias[i - 1]))
    &&& (i + name.len() == alias.len() || !spec_is_word(alias[i + name.len()]))
}

/// Whether `alias` refers to `name` as a whole word. The check is the one a
/// byte-wise scan of the UTF-8 text makes: for an empty name, a position
/// inside a multi-byte character also counts as a word boundary.
pub open spec fn references(alias: Seq<char>, name: Seq<char>) -> bool {
    (exists|i: int| word_at(alias, name, i)) || (name.len() == 0 && exists|i: int|
        0 <= i < alias.len() && alias[i] >= '\u{80}')
}

/// Whether `alias` mentions `name` as a whole word (not as part of a longer
/// identifier).
pub fn references_type_chars(alias: &[char], name: &[char]) -> (r: bool)
    ensures
        r == references(alias@, name@),
{
    let n = name.len();
    if n > alias.len() {
        assert forall|i: int| !word_at(alias@, name@, i) by {}
        return false;
    }
    let last = alias.len() - n;
    let mut i: usize = 0;
    loop
        invariant
            n == name@.len(),
            n <= alias@.len(),
            last == alias@.len() - n,
            i <= last,
            forall|j: int| 0 <= j < i ==> !word_at(alias@, name@, j),
        ensures
            n == name@.len(),
            n <= alias@.len(),
            last == alias@.len() - n,
            forall|j: int| 0 <= j <= last ==> !word_at(alias@, name@, j),
        decreases last - i,
    {
        if starts_with_at(alias, name, i) {
            let before_ok = i == 0 || !is_word(alias[i - 1]);
            let after_ok = i + n == alias.len() || !is_word(alias[i + n]);
            assert(alias@.subrange(i as int, alias@.len() as int).subrange(0, n as int) =~= alias@.subrange(
                i as int,
                i + n,
            ));
            if before_ok && after_ok {
                assert(word_at(alias@, name@, i as int));
                return true;
            }
        } else {
            assert(alias@.subrange(i as int, alias@.len() as int).subrange(0, n as int) =~= alias@.subrange(
                i as int,
                i + n,
            ));
        }
        assert(!word_at(alias@, name@, i as int));
        if i == last {
            break;
        }
        i = i + 1;
    }
    assert forall|j: int| !word_at(alias@, name@, j) by {
        if 0 <= j <= last {
        }
    }
    if n == 0 {
        let mut k: usize = 0;
        while k < alias.len()
            invariant
                k <= alias@.len(),
                name@.len() == 0,
                forall|j: int| 0 <= j < k ==> alias@[j] < '\u{80}',
            decreases alias@.len() - k,
        {
            if alias[k] >= '\u{80}' {
                assert(0 <= k < alias@.len() && alias@[k as int] >= '\u{80}');
                return true;
            }
            k = k + 1;
        }
    }
    false
}

/// Code-point lexicographic order, which for UTF-8 text is the byte order
/// that `String`'s `Ord` uses.
pub open spec fn lex_lt(a: Seq<char>, b: Seq<char>) -> bool
    decreases a.len(),
{
    if a.len() == 0 {
        b.len() > 0
    } else if b.len() == 0 {
        false
    } else if a[0] != b[0] {
        a[0] < b[0]
    } else {
        lex_lt(a.subrange(1, a.len() as int), b.subrange(1, b.len() as int))
    }
}

pub proof fn lemma_lex_irreflexive(a: Seq<char>)
    ensures
        !lex_lt(a, a),
    decreases a.len(),
{
    if a.len() > 0 {
        lemma_lex_irreflexive(a.subrange(1, a.len() as int));
    }
}

pub proof fn lemma_lex_asymmetric(a: Seq<char>, b: Seq<char>)
    ensures
        lex_lt(a, b) ==> !lex_lt(b, a),
    decreases a.len(),
{
    if a.len() > 0 && b.len() > 0 && a[0] == b[0] {
        lemma_lex_asymmetric(a.subrange(1, a.len() as int), b.subrange(1, b.len() as int));
    }
}

pub proof fn lemma_lex_total(a: Seq<char>, b: Seq<char>)
    ensures
        a != b ==> lex_lt(a, b) || lex_lt(b, a),
    decreases a.len(),
{
    if a.len() > 0 && b.len() > 0 && a[0] == b[0] {
        let a1 = a.subrange(1, a.len() as int);
        let b1 = b.subrange(1, b.len() as int);
        lemma_lex_total(a1, b1);
        if a1 == b1 {
            assert(a =~= seq![a[0]] + a1);
            assert(b =~= seq![b[0]] + b1);
        }
    } else if a.len() > 0 && b.len() > 0 {
    } else if a.len() == 0 && b.len() == 0 {
        assert(a =~= b);
    }
}

pub proof fn lemma_lex_transitive(a: Seq<char>, b: Seq<char>, c: Seq<char>)
    requires
        lex_lt(a, b),
        lex_lt(b, c),
    ensures
        lex_lt(a, c),
    decreases a.len(),
{
    if a.len() > 0 && b.len() > 0 && c.len() > 0 && a[0] == b[0] && b[0] == c[0] {
        lemma_lex_transitive(
            a.subrange(1, a.len() as int),
            b.subrange(1, b.len() as int),
            c.subrange(1, c.len() as int),
        );
    }
}

/// Strictly increasing in [`lex_lt`]: sorted, with no name twice.
pub open spec fn strictly_sorted(q: Seq<Seq<char>>) -> bool {
    forall|i: int, j: int| 0 <= i < j < q.len() ==> lex_lt(q[i], q[j])
}

/// `q` with `x` inserted in order, unless it is already there.
pub open spec fn insert_sorted(q: Seq<Seq<char>>, x: Seq<char>) -> Seq<Seq<char>>
    decreases q.len(),
{
    if q.len() == 0 {
        seq![x]
    } else if lex_lt(q[0], x) {
        seq![q[0]] + insert_sorted(q.subrange(1, q.len() as int), x)
    } else if q[0] == x {
        q
    } else {
        seq![x] + q
    }
}

pub proof fn lemma_insert_sorted(q: Seq<Seq<char>>, x: Seq<char>)
    requires
        strictly_sorted(q),
    ensures
        strictly_sorted(insert_sorted(q, x)),
        insert_sorted(q, x).to_set() == q.to_set().insert(x),
        forall|y: Seq<char>| #[trigger] insert_sorted(q, x).contains(y) ==> y == x || q.contains(y),
    decreases q.len(),
{
    if q.len() == 0 {
        assert(seq![x].to_set() =~= Set::<Seq<char>>::empty().insert(x)) by {
            assert forall|y| seq![x].to_set().contains(y) <==> y == x by {
                if y == x {
                    assert(seq![x][0] == x);
                }
            }
        }
        assert(q.to_set() =~= Set::<Seq<char>>::empty());
    } else if lex_lt(q[0], x) {
        let t = q.subrange(1, q.len() as int);
        lemma_insert_sorted(t, x);
        let r = insert_sorted(t, x);
        let w = seq![q[0]] + r;
        assert(q =~= seq![q[0]] + t);
        assert forall|y: Seq<char>| #[trigger] w.contains(y) implies y == x || q.contains(y) by {
            let k = choose|k: int| 0 <= k < w.len() && w[k] == y;
            if k > 0 {
                assert(r[k - 1] == y);
                assert(r.contains(y));
                if y != x {
                    let m = choose|m: int| 0 <= m < t.len() && t[m] == y;
                    assert(q[m + 1] == y);
                }
            } else {
                assert(q[0] == y);
            }
        }
        assert forall|i: int, j: int| 0 <= i < j < w.len() implies lex_lt(w[i], w[j]) by {
            if i == 0 {
                let y = w[j];
                assert(r[j - 1] == y);
                assert(r.contains(y));
                if y == x {
                } else {
                    let m = choose|m: int| 0 <= m < t.len() && t[m] == y;
                    assert(q[m + 1] == y);
                }
            } else {
                assert(w[i] == r[i - 1]);
                assert(w[j] == r[j - 1]);
            }
        }
        assert(w.to_set() =~= q.to_set().insert(x)) by {
            assert forall|y| w.to_set().contains(y) <==> q.to_set().insert(x).contains(y) by {
                if w.contains(y) {
                } else {
                    if y == x {
                        assert(r.contains(x)) by {
                            assert(r.to_set().contains(x));
                        }
                        let k = choose|k: int| 0 <= k < r.len() && r[k] == x;
                        assert(w[k + 1] == x);
                    } else if q.contains(y) {
                        let k = choose|k: int| 0 <= k < q.len() && q[k] == y;
                        if k == 0 {
                            assert(w[0] == y);
                        } else {
                            assert(t[k - 1] == y);
                            assert(t.contains(y));
                            assert(r.to_set().contains(y));
                            let m = choose|m: int| 0 <= m < r.len() && r[m] == y;
                            assert(w[m + 1] == y);
                        }
                    }
                }
            }
        }
    } else if q[0] == x {
        assert(q.to_set() =~= q.to_set().insert(x)) by {
            assert(q.contains(x)) by {
                assert(q[0] == x);
            }
        }
    } else {
        let w = seq![x] + q;
        lemma_lex_total(q[0], x);
        assert forall|i: int, j: int| 0 <= i < j < w.len() implies lex_lt(w[i], w[j]) by {
            if i == 0 {
                if j > 1 {
                    lemma_lex_transitive(x, q[0], q[j - 1]);
                }
            } else {
                assert(w[i] == q[i - 1]);
                assert(w[j] == q[j - 1]);
            }
        }
        assert forall|y: Seq<char>| #[trigger] w.contains(y) implies y == x || q.contains(y) by {
            let k = choose|k: int| 0 <= k < w.len() && w[k] == y;
            if k > 0 {
                assert(q[k - 1] == y);
            }
        }
        assert(w.to_set() =~= q.to_set().insert(x)) by {
            assert forall|y| w.to_set().contains(y) <==> q.to_set().insert(x).contains(y) by {
                if y == x {
                    assert(w[0] == x);
                } else if q.contains(y) {
                    let k = choose|k: int| 0 <= k < q.len() && q[k] == y;
                    assert(w[k + 1] == y);
                }
            }
        }
    }
}

/// Whether `a` comes before `b` in [`lex_lt`].
pub fn lex_less(a: &[char], b: &[char]) -> (r: bool)
    ensures
        r == lex_lt(a@, b@),
{
    let mut i: usize = 0;
    proof {
        assert(a@.subrange(0, a@.len() as int) =~= a@);
        assert(b@.subrange(0, b@.len() as int) =~= b@);
    }
    while i < a.len() && i < b.len() && a[i] == b[i]
        invariant
            i <= a@.len(),
            i <= b@.len(),
            lex_lt(a@, b@) == lex_lt(
                a@.subrange(i as int, a@.len() as int),
                b@.subrange(i as int, b@.len() as int),
            ),
        decreases a@.len() - i,
    {
        proof {
            let a1 = a@.subrange(i as int, a@.len() as int);
            let b1 = b@.subrange(i as int, b@.len() as int);
            assert(a1.subrange(1, a1.len() as int) =~= a@.subrange(i + 1, a@.len() as int));
            assert(b1.subrange(1, b1.len() as int) =~= b@.subrange(i + 1, b@.len() as int));
        }
        i = i + 1;
    }
    proof {
        assert(a@.subrange(0, a@.len() as int) =~= a@);
        assert(b@.subrange(0, b@.len() as int) =~= b@);
    }
    if i == a.len() {
        i < b.len()
    } else if i == b.len() {
        false
    } else {
        a[i] < b[i]
    }
}

/// Inserts `x` into the sorted list `q` in order, unless it is already there.
pub fn insert_in_order(q: &mut Vec<Vec<char>>, x: Vec<char>)
    ensures
        views(final(q)@) == insert_sorted(views(old(q)@), x@),
{
    let ghost q0 = views(q@);
    let mut k: usize = 0;
    assert(q0.subrange(0, 0) + q0.subrange(0, q0.len() as int) =~= q0);
    while k < q.len() && lex_less(&q[k], &x)
        invariant
            k <= q@.len(),
            q0 == views(q@),
            insert_sorted(q0, x@) == q0.subrange(0, k as int) + insert_sorted(
                q0.subrange(k as int, q0.len() as int),
                x@,
            ),
        decreases q@.len() - k,
    {
        proof {
            let t = q0.subrange(k as int, q0.len() as int);
            assert(t[0] == q@[k as int]@);
            assert(t.subrange(1, t.len() as int) =~= q0.subrange(k + 1, q0.len() as int));
            assert(q0.subrange(0, k + 1) =~= q0.subrange(0, k as int) + seq![t[0]]);
        }
        k = k + 1;
    }
    if k < q.len() && same_text(&q[k], &x) {
        proof {
            let t = q0.subrange(k as int, q0.len() as int);
            assert(t[0] == q@[k as int]@);
            assert(q0.subrange(0, k as int) + t =~= q0);
        }
        return;
    }
    proof {
        let t = q0.subrange(k as int, q0.len() as int);
        if k < q@.len() {
            assert(t[0] == q@[k as int]@);
        }
    }
    q.insert(k, x);
    proof {
        let t = q0.subrange(k as int, q0.len() as int);
        assert(views(q@) =~= q0.subrange(0, k as int) + (seq![x@] + t));
    }
}

} // verus!

verus! {

/// The type name a line defines: the first word after `type ` on the
/// trimmed line.
pub open spec fn name_on_line(l: Seq<char>) -> Seq<Seq<char>> {
    match strip_prefix(trim(l), "type "@) {
        Some(rest) => match first_word(rest) {
            Some(w) => seq![w],
            None => seq![],
        },
        None => seq![],
    }
}

pub open spec fn line_type_names(ls: Seq<Seq<char>>) -> Seq<Seq<char>>
    decreases ls.len(),
{
    if ls.len() == 0 {
        seq![]
    } else {
        line_type_names(ls.drop_last()) + name_on_line(ls.last())
    }
}

/// The type names a file defines, when it is a readable `.rbs` file.
pub open spec fn file_type_names(f: SharedFile) -> Seq<Seq<char>> {
    if is_rbs_name(f.name@) {
        match f.contents {
            Some(c) => line_type_names(lines(c@)),
            None => seq![],
        }
    } else {
        seq![]
    }
}

pub open spec fn files_type_names(fs: Seq<SharedFile>) -> Seq<Seq<char>>
    decreases fs.len(),
{
    if fs.len() == 0 {
        seq![]
    } else {
        files_type_names(fs.drop_last()) + file_type_names(fs.last())
    }
}

/// Every type name defined in the shared directories, in the order met.
pub open spec fn dirs_type_names(ds: Seq<SharedDir>) -> Seq<Seq<char>>
    decreases ds.len(),
{
    if ds.len() == 0 {
        seq![]
    } else {
        dirs_type_names(ds.drop_last()) + files_type_names(ds.last().files@)
    }
}

pub open spec fn insert_all(q: Seq<Seq<char>>, names: Seq<Seq<char>>) -> Seq<Seq<char>>
    decreases names.len(),
{
    if names.len() == 0 {
        q
    } else {
        insert_sorted(insert_all(q, names.drop_last()), names.last())
    }
}

/// The names of all shared types, sorted and without repetition.
pub open spec fn type_index(ds: Seq<SharedDir>) -> Seq<Seq<char>> {
    insert_all(seq![], dirs_type_names(ds))
}

pub proof fn lemma_insert_all(q: Seq<Seq<char>>, names: Seq<Seq<char>>)
    requires
        strictly_sorted(q),
    ensures
        strictly_sorted(insert_all(q, names)),
        insert_all(q, names).to_set() == q.to_set() + names.to_set(),
    decreases names.len(),
{
    if names.len() > 0 {
        let init = names.drop_last();
        lemma_insert_all(q, init);
        lemma_insert_sorted(insert_all(q, init), names.last());
        assert(names =~= init.push(names.last()));
        assert(names.to_set() =~= init.to_set().insert(names.last())) by {
            assert forall|y| names.to_set().contains(y) <==> init.to_set().insert(
                names.last(),
            ).contains(y) by {
                if names.contains(y) {
                    let k = choose|k: int| 0 <= k < names.len() && names[k] == y;
                    if k < names.len() - 1 {
                        assert(init[k] == y);
                    }
                }
                if init.contains(y) {
                    let k = choose|k: int| 0 <= k < init.len() && init[k] == y;
                    assert(names[k] == y);
                }
                if y == names.last() {
                    assert(names[names.len() - 1] == y);
                }
            }
        }
        assert(insert_all(q, names).to_set() =~= q.to_set() + names.to_set());
    } else {
        assert(names.to_set() =~= Set::<Seq<char>>::empty());
        assert(q.to_set() + names.to_set() =~= q.to_set());
    }
}

pub proof fn lemma_insert_all_append(q: Seq<Seq<char>>, a: Seq<Seq<char>>, b: Seq<Seq<char>>)
    ensures
        insert_all(q, a + b) == insert_all(insert_all(q, a), b),
    decreases b.len(),
{
    if b.len() == 0 {
        assert(a + b =~= a);
    } else {
        assert((a + b).drop_last() =~= a + b.drop_last());
        lemma_insert_all_append(q, a, b.drop_last());
    }
}

fn insert_names_of_lines(q: &mut Vec<Vec<char>>, contents: &[char])
    ensures
        views(final(q)@) == insert_all(views(old(q)@), line_type_names(lines(contents@))),
{
    let ls = lines_of(contents);
    let ghost lv = lines(contents@);
    let ghost q0 = views(q@);
    let type_kw = chars_of("type ");
    for l in 0..ls.len()
        invariant
            lv == lines(contents@),
            ls@.len() == lv.len(),
            forall|k: int| 0 <= k < ls@.len() ==> #[trigger] ls@[k]@ == lv[k],
            type_kw@ == "type "@,
            views(q@) == insert_all(q0, line_type_names(lv.subrange(0, l as int))),
    {
        proof {
            assert(lv.subrange(0, l + 1).drop_last() =~= lv.subrange(0, l as int));
            lemma_insert_all_append(q0, line_type_names(lv.subrange(0, l as int)), name_on_line(lv[l as int]));
        }
        let t = trim_of(&ls[l]);
        match strip_prefix_of(&t, &type_kw) {
            Some(rest) => match first_word_of(&rest) {
                Some(w) => {
                    insert_in_order(q, w);
                    proof {
                        let pre = line_type_names(lv.subrange(0, l as int));
                        let one = name_on_line(lv[l as int]);
                        assert(one == seq![w@]);
                        assert(one.drop_last() =~= Seq::<Seq<char>>::empty());
                        assert(insert_all(insert_all(q0, pre), one.drop_last()) == insert_all(q0, pre));
                        assert(insert_all(insert_all(q0, pre), one) == insert_sorted(insert_all(q0, pre), w@));
                    }
                },
                None => {
                    assert(insert_all(insert_all(q0, line_type_names(lv.subrange(0, l as int))), name_on_line(lv[l as int])) == insert_all(q0, line_type_names(lv.subrange(0, l as int))));
                },
            },
            None => {},
        }
    }
    assert(lv.subrange(0, ls@.len() as int) =~= lv);
}

/// The names of the types defined in the shared directories' `.rbs` files,
/// sorted in `String` order and each listed once.
pub fn index_shared_types(dirs: &Vec<SharedDir>) -> (r: Vec<Vec<char>>)
    ensures
        views(r@) == type_index(dirs@),
        strictly_sorted(views(r@)),
        views(r@).to_set() == dirs_type_names(dirs@).to_set(),
{
    let mut q: Vec<Vec<char>> = Vec::new();
    let ghost ds = dirs@;
    assert(views(q@) =~= Seq::<Seq<char>>::empty());
    for d in 0..dirs.len()
        invariant
            ds == dirs@,
            views(q@) == insert_all(seq![], dirs_type_names(ds.subrange(0, d as int))),
    {
        let ghost before = views(q@);
        let files = &dirs[d].files;
        let ghost fs = files@;
        proof {
            assert(ds.subrange(0, d + 1).drop_last() =~= ds.subrange(0, d as int));
            lemma_insert_all_append(seq![], dirs_type_names(ds.subrange(0, d as int)), files_type_names(fs));
        }
        for f in 0..files.len()
            invariant
                fs == files@,
                views(q@) == insert_all(before, files_type_names(fs.subrange(0, f as int))),
        {
            proof {
                assert(fs.subrange(0, f + 1).drop_last() =~= fs.subrange(0, f as int));
                lemma_insert_all_append(before, files_type_names(fs.subrange(0, f as int)), file_type_names(fs[f as int]));
            }
            let file = &files[f];
            let name = chars_of(file.name.as_str());
            if is_rbs_file_name(&name) {
                match &file.contents {
                    Some(c) => {
                        let cs = chars_of(c.as_str());
                        insert_names_of_lines(&mut q, &cs);
                    },
                    None => {
                        assert(file_type_names(fs[f as int]) =~= Seq::<Seq<char>>::empty());
                    },
                }
            } else {
                assert(file_type_names(fs[f as int]) =~= Seq::<Seq<char>>::empty());
            }
        }
        assert(fs.subrange(0, fs.len() as int) =~= fs);
    }
    assert(ds.subrange(0, ds.len() as int) =~= ds);
    proof {
        lemma_insert_all(seq![], dirs_type_names(ds));
        assert(Seq::<Seq<char>>::empty().to_set() =~= Set::<Seq<char>>::empty());
        assert(Set::<Seq<char>>::empty() + dirs_type_names(ds).to_set() =~= dirs_type_names(ds).to_set());
    }
    q
}

} // verus!

verus! {

/// The contents of the first readable file named `file`, looking through the
/// files in order.
pub open spec fn exact_in_files(fs: Seq<SharedFile>, file: Seq<char>) -> Option<Seq<char>>
    decreases fs.len(),
{
    if fs.len() == 0 {
        None
    } else if fs[0].name@ == file && fs[0].contents is Some {
        Some(fs[0].contents.unwrap()@)
    } else {
        exact_in_files(fs.subrange(1, fs.len() as int), file)
    }
}

/// The contents of `<dir>/<file>` for the first directory, in order, that has
/// it readable.
pub open spec fn exact_in_dirs(ds: Seq<SharedDir>, file: Seq<char>) -> Option<Seq<char>>
    decreases ds.len(),
{
    if ds.len() == 0 {
        None
    } else {
        match exact_in_files(ds[0].files@, file) {
            Some(c) => Some(c),
            None => exact_in_dirs(ds.subrange(1, ds.len() as int), file),
        }
    }
}

/// Whether the definition `alias` (`type ...`) defines a type whose name
/// starts `prefix` (`<name> =`).
pub open spec fn defines_with(alias: Seq<char>, prefix: Seq<char>) -> bool {
    match strip_prefix(alias, "type "@) {
        Some(rest) => starts_with(rest, prefix),
        None => false,
    }
}

/// The definitions among `aliases` that define `<name> = ...`, in order.
pub open spec fn matching(aliases: Seq<Seq<char>>, prefix: Seq<char>) -> Seq<Seq<char>>
    decreases aliases.len(),
{
    if aliases.len() == 0 {
        seq![]
    } else {
        matching(aliases.drop_last(), prefix) + (if defines_with(aliases.last(), prefix) {
            seq![aliases.last()]
        } else {
            seq![]
        })
    }
}

/// Through the files in order, the first readable `.rbs` file with a
/// definition of `<name> = ...`, and those definitions.
pub open spec fn scan_files(fs: Seq<SharedFile>, prefix: Seq<char>) -> Option<Seq<Seq<char>>>
    decreases fs.len(),
{
    if fs.len() == 0 {
        None
    } else {
        let f = fs[0];
        let found = if is_rbs_name(f.name@) && f.contents is Some {
            matching(shared_aliases(f.contents.unwrap()@), prefix)
        } else {
            seq![]
        };
        if found.len() > 0 {
            Some(found)
        } else {
            scan_files(fs.subrange(1, fs.len() as int), prefix)
        }
    }
}

pub open spec fn scan_dirs(ds: Seq<SharedDir>, prefix: Seq<char>) -> Option<Seq<Seq<char>>>
    decreases ds.len(),
{
    if ds.len() == 0 {
        None
    } else {
        match scan_files(ds[0].files@, prefix) {
            Some(m) => Some(m),
            None => scan_dirs(ds.subrange(1, ds.len() as int), prefix),
        }
    }
}

/// The definitions an import of `name` brings in, before following the types
/// they mention: all definitions of the file `<name>.rbs` in the first
/// directory that has it; failing that, the definitions of `name` in the first
/// `.rbs` file that has any; failing that, none.
pub open spec fn single_import(ds: Seq<SharedDir>, name: Seq<char>) -> Seq<Seq<char>> {
    match exact_in_dirs(ds, name + ".rbs"@) {
        Some(c) => shared_aliases(c),
        None => match scan_dirs(ds, name + " ="@) {
            Some(m) => m,
            None => seq![],
        },
    }
}

fn exact_file(dirs: &Vec<SharedDir>, file: &[char]) -> (r: Option<Vec<char>>)
    ensures
        r matches Some(c) ==> exact_in_dirs(dirs@, file@) == Some(c@),
        r is None ==> exact_in_dirs(dirs@, file@) is None,
{
    let ghost ds = dirs@;
    assert(ds.subrange(0, ds.len() as int) =~= ds);
    for d in 0..dirs.len()
        invariant
            ds == dirs@,
            exact_in_dirs(ds, file@) == exact_in_dirs(ds.subrange(d as int, ds.len() as int), file@),
    {
        let files = &dirs[d].files;
        let ghost fs = files@;
        assert(fs.subrange(0, fs.len() as int) =~= fs);
        for f in 0..files.len()
            invariant
                fs == files@,
                ds == dirs@,
                d < ds.len(),
                fs == ds[d as int].files@,
                exact_in_dirs(ds, file@) == exact_in_dirs(ds.subrange(d as int, ds.len() as int), file@),
                exact_in_files(fs, file@) == exact_in_files(fs.subrange(f as int, fs.len() as int), file@),
        {
            let entry = &files[f];
            let ghost rest = fs.subrange(f as int, fs.len() as int);
            assert(rest.subrange(1, rest.len() as int) =~= fs.subrange(f + 1, fs.len() as int));
            let name = chars_of(entry.name.as_str());
            if same_text(&name, file) {
                match &entry.contents {
                    Some(c) => {
                        let ghost drest = ds.subrange(d as int, ds.len() as int);
                        assert(drest[0] == dirs@[d as int]);
                        return Some(chars_of(c.as_str()));
                    },
                    None => {},
                }
            }
        }
        let ghost drest = ds.subrange(d as int, ds.len() as int);
        assert(drest[0] == dirs@[d as int]);
        assert(fs.subrange(fs.len() as int, fs.len() as int) =~= Seq::<SharedFile>::empty());
        assert(drest.subrange(1, drest.len() as int) =~= ds.subrange(d + 1, ds.len() as int));
    }
    None
}

fn matching_of(aliases: &Vec<Vec<char>>, prefix: &[char]) -> (r: Vec<Vec<char>>)
    ensures
        views(r@) == matching(views(aliases@), prefix@),
{
    let mut r: Vec<Vec<char>> = Vec::new();
    let ghost av = views(aliases@);
    let type_kw = chars_of("type ");
    assert(views(r@) =~= Seq::<Seq<char>>::empty());
    for i in 0..aliases.len()
        invariant
            av == views(aliases@),
            type_kw@ == "type "@,
            views(r@) == matching(av.subrange(0, i as int), prefix@),
    {
        proof {
            assert(av.subrange(0, i + 1).drop_last() =~= av.subrange(0, i as int));
            assert(av[i as int] == aliases@[i as int]@);
        }
        let keep = match strip_prefix_of(&aliases[i], &type_kw) {
            Some(rest) => has_prefix(&rest, prefix),
            None => false,
        };
        if keep {
            let copy = vstd::slice::slice_to_vec(aliases[i].as_slice());
            r.push(copy);
            assert(views(r@) =~= matching(av.subrange(0, i as int), prefix@) + seq![av[i as int]]);
        } else {
            assert(matching(av.subrange(0, i as int), prefix@) + Seq::<Seq<char>>::empty() =~= matching(av.subrange(0, i as int), prefix@));
        }
    }
    assert(av.subrange(0, av.len() as int) =~= av);
    r
}

fn scan_for_definition(dirs: &Vec<SharedDir>, prefix: &[char]) -> (r: Option<Vec<Vec<char>>>)
    ensures
        r matches Some(m) ==> scan_dirs(dirs@, prefix@) == Some(views(m@)),
        r is None ==> scan_dirs(dirs@, prefix@) is None,
{
    let ghost ds = dirs@;
    assert(ds.subrange(0, ds.len() as int) =~= ds);
    for d in 0..dirs.len()
        invariant
            ds == dirs@,
            scan_dirs(ds, prefix@) == scan_dirs(ds.subrange(d as int, ds.len() as int), prefix@),
    {
        let files = &dirs[d].files;
        let ghost fs = files@;
        assert(fs.subrange(0, fs.len() as int) =~= fs);
        for f in 0..files.len()
            invariant
                fs == files@,
                ds == dirs@,
                d < ds.len(),
                fs == ds[d as int].files@,
                scan_dirs(ds, prefix@) == scan_dirs(ds.subrange(d as int, ds.len() as int), prefix@),
                scan_files(fs, prefix@) == scan_files(fs.subrange(f as int, fs.len() as int), prefix@),
        {
            let entry = &files[f];
            let ghost rest = fs.subrange(f as int, fs.len() as int);
            assert(rest.subrange(1, rest.len() as int) =~= fs.subrange(f + 1, fs.len() as int));
            assert(rest[0] == fs[f as int]);
            let name = chars_of(entry.name.as_str());
            if is_rbs_file_name(&name) {
                match &entry.contents {
                    Some(c) => {
                        let cs = chars_of(c.as_str());
                        let all = parse_shared_rbs(&cs);
                        let m = matching_of(&all, prefix);
                        if m.len() > 0 {
                            let ghost drest = ds.subrange(d as int, ds.len() as int);
                            assert(drest[0] == dirs@[d as int]);
                            return Some(m);
                        }
                    },
                    None => {},
                }
            }
        }
        let ghost drest = ds.subrange(d as int, ds.len() as int);
        assert(drest[0] == dirs@[d as int]);
        assert(fs.subrange(fs.len() as int, fs.len() as int) =~= Seq::<SharedFile>::empty());
        assert(drest.subrange(1, drest.len() as int) =~= ds.subrange(d + 1, ds.len() as int));
    }
    None
}

/// The definitions an import of `name` brings in before its references are
/// followed (see [`single_import`]).
pub fn resolve_single_import(dirs: &Vec<SharedDir>, name: &[char]) -> (r: Vec<Vec<char>>)
    ensures
        views(r@) == single_import(dirs@, name@),
{
    let mut file = vstd::slice::slice_to_vec(name);
    push_str(&mut file, ".rbs");
    match exact_file(dirs, &file) {
        Some(c) => parse_shared_rbs(&c),
        None => {
            let mut prefix = vstd::slice::slice_to_vec(name);
            push_str(&mut prefix, " =");
            match scan_for_definition(dirs, &prefix) {
                Some(m) => m,
                None => {
                    let r: Vec<Vec<char>> = Vec::new();
                    assert(views(r@) =~= Seq::<Seq<char>>::empty());
                    r
                },
            }
        },
    }
}

} // verus!

verus! {

/// The name a definition `type <name> = ...` defines; empty if none.
pub open spec fn defined_name(alias: Seq<char>) -> Seq<char> {
    match strip_prefix(alias, "type "@) {
        Some(rest) => match first_word(rest) {
            Some(w) => w,
            None => seq![],
        },
        None => seq![],
    }
}

pub fn defined_name_of(alias: &[char]) -> (r: Vec<char>)
    ensures
        r@ == defined_name(alias@),
{
    let type_kw = chars_of("type ");
    match strip_prefix_of(alias, &type_kw) {
        Some(rest) => match first_word_of(&rest) {
            Some(w) => w,
            None => Vec::new(),
        },
        None => Vec::new(),
    }
}

/// Where an import stands: the definitions emitted so far, in order, and
/// the names already resolved or under way.
pub struct ImportState {
    pub resolved: Seq<Seq<char>>,
    pub seen: Seq<Seq<char>>,
}

/// Resolving the import of `name` from state `st`. The name is marked seen
/// first (which stops cycles); the definitions it brings in are scanned for
/// every other known type name not yet seen that they mention, each of which
/// is resolved first, depth first, in sorted order; then the definitions are
/// emitted, except those of a type other than `name` that is already seen.
/// `depth` bounds the nesting of this recursion.
pub open spec fn resolve_rec(
    ds: Seq<SharedDir>,
    avail: Seq<Seq<char>>,
    name: Seq<char>,
    st: ImportState,
    depth: nat,
) -> ImportState
    decreases depth, 0nat, 0nat,
{
    if depth == 0 || st.seen.contains(name) {
        st
    } else {
        let st1 = ImportState { resolved: st.resolved, seen: st.seen.push(name) };
        let aliases = single_import(ds, name);
        if aliases.len() == 0 {
            st1
        } else {
            let st2 = scan_aliases(ds, avail, aliases, 0, st1, (depth - 1) as nat);
            emit_aliases(aliases, 0, name, st2)
        }
    }
}

pub open spec fn scan_aliases(
    ds: Seq<SharedDir>,
    avail: Seq<Seq<char>>,
    aliases: Seq<Seq<char>>,
    i: int,
    st: ImportState,
    depth: nat,
) -> ImportState
    decreases depth, 1nat, aliases.len() - i,
{
    if i < 0 || i >= aliases.len() {
        st
    } else {
        let st2 = scan_avail(ds, avail, aliases[i], defined_name(aliases[i]), 0, st, depth);
        scan_aliases(ds, avail, aliases, i + 1, st2, depth)
    }
}

pub open spec fn scan_avail(
    ds: Seq<SharedDir>,
    avail: Seq<Seq<char>>,
    alias: Seq<char>,
    def: Seq<char>,
    j: int,
    st: ImportState,
    depth: nat,
) -> ImportState
    decreases depth, 0nat, avail.len() - j,
{
    if j < 0 || j >= avail.len() {
        st
    } else {
        let a = avail[j];
        let st2 = if a != def && !st.seen.contains(a) && references(alias, a) {
            resolve_rec(ds, avail, a, st, depth)
        } else {
            st
        };
        scan_avail(ds, avail, alias, def, j + 1, st2, depth)
    }
}

pub open spec fn emit_aliases(aliases: Seq<Seq<char>>, i: int, name: Seq<char>, st: ImportState) -> ImportState
    decreases aliases.len() - i,
{
    if i < 0 || i >= aliases.len() {
        st
    } else {
        let a = aliases[i];
        let d = defined_name(a);
        if d == name {
            emit_aliases(aliases, i + 1, name, ImportState { resolved: st.resolved.push(a), seen: st.seen })
        } else if !st.seen.contains(d) {
            emit_aliases(
                aliases,
                i + 1,
                name,
                ImportState { resolved: st.resolved.push(a), seen: st.seen.push(d) },
            )
        } else {
            emit_aliases(aliases, i + 1, name, st)
        }
    }
}

/// The definitions `# @rbs import <name>` brings in: those of `name` and,
/// before them, those of the shared types they mention, transitively.
pub open spec fn resolve_import(ds: Seq<SharedDir>, name: Seq<char>) -> Seq<Seq<char>> {
    let avail = type_index(ds);
    resolve_rec(ds, avail, name, ImportState { resolved: seq![], seen: seq![] }, avail.len() + 1).resolved
}

/// How many of the names in `avail` are not yet in `seen`.
pub open spec fn unseen_count(avail: Seq<Seq<char>>, seen: Seq<Seq<char>>) -> nat
    decreases avail.len(),
{
    if avail.len() == 0 {
        0
    } else {
        unseen_count(avail.drop_last(), seen) + if seen.contains(avail.last()) {
            0nat
        } else {
            1nat
        }
    }
}

/// Whether every name seen in `st` is still seen in `st2`.
pub open spec fn keeps_seen(st: ImportState, st2: ImportState) -> bool {
    forall|x: Seq<char>| st.seen.contains(x) ==> #[trigger] st2.seen.contains(x)
}

/// The nesting bound that resolving `name` from `st` needs.
pub open spec fn depth_needed(avail: Seq<Seq<char>>, name: Seq<char>, st: ImportState) -> nat {
    unseen_count(avail, st.seen) + if avail.contains(name) {
        0nat
    } else {
        1nat
    }
}

proof fn lemma_push_keeps(s: Seq<Seq<char>>, y: Seq<char>)
    ensures
        forall|x: Seq<char>| s.contains(x) ==> #[trigger] s.push(y).contains(x),
        s.push(y).contains(y),
{
    assert forall|x: Seq<char>| s.contains(x) implies #[trigger] s.push(y).contains(x) by {
        let k = choose|k: int| 0 <= k < s.len() && s[k] == x;
        assert(s.push(y)[k] == x);
    }
    assert(s.push(y)[s.len() as int] == y);
}

proof fn lemma_unseen_le_len(avail: Seq<Seq<char>>, seen: Seq<Seq<char>>)
    ensures
        unseen_count(avail, seen) <= avail.len(),
    decreases avail.len(),
{
    if avail.len() > 0 {
        lemma_unseen_le_len(avail.drop_last(), seen);
    }
}

proof fn lemma_unseen_mono(avail: Seq<Seq<char>>, seen: Seq<Seq<char>>, seen2: Seq<Seq<char>>)
    requires
        forall|x: Seq<char>| seen.contains(x) ==> #[trigger] seen2.contains(x),
    ensures
        unseen_count(avail, seen2) <= unseen_count(avail, seen),
    decreases avail.len(),
{
    if avail.len() > 0 {
        lemma_unseen_mono(avail.drop_last(), seen, seen2);
    }
}

proof fn lemma_unseen_drop(avail: Seq<Seq<char>>, seen: Seq<Seq<char>>, seen2: Seq<Seq<char>>, a: Seq<char>)
    requires
        forall|x: Seq<char>| seen.contains(x) ==> #[trigger] seen2.contains(x),
        avail.contains(a),
        !seen.contains(a),
        seen2.contains(a),
    ensures
        unseen_count(avail, seen2) < unseen_count(avail, seen),
    decreases avail.len(),
{
    let init = avail.drop_last();
    if avail.last() == a {
        lemma_unseen_mono(init, seen, seen2);
    } else {
        let k = choose|k: int| 0 <= k < avail.len() && avail[k] == a;
        assert(k < init.len());
        assert(init[k] == a);
        lemma_unseen_drop(init, seen, seen2, a);
    }
}

proof fn lemma_emit_keeps(aliases: Seq<Seq<char>>, i: int, name: Seq<char>, st: ImportState)
    ensures
        keeps_seen(st, emit_aliases(aliases, i, name, st)),
    decreases aliases.len() - i,
{
    if 0 <= i < aliases.len() {
        let a = aliases[i];
        let d = defined_name(a);
        if d == name {
            lemma_emit_keeps(aliases, i + 1, name, ImportState { resolved: st.resolved.push(a), seen: st.seen });
        } else if !st.seen.contains(d) {
            let st2 = ImportState { resolved: st.resolved.push(a), seen: st.seen.push(d) };
            lemma_push_keeps(st.seen, d);
            lemma_emit_keeps(aliases, i + 1, name, st2);
        } else {
            lemma_emit_keeps(aliases, i + 1, name, st);
        }
    }
}

proof fn lemma_rec_keeps(ds: Seq<SharedDir>, avail: Seq<Seq<char>>, name: Seq<char>, st: ImportState, depth: nat)
    ensures
        keeps_seen(st, resolve_rec(ds, avail, name, st, depth)),
    decreases depth, 0nat, 0nat,
{
    if depth > 0 && !st.seen.contains(name) {
        let st1 = ImportState { resolved: st.resolved, seen: st.seen.push(name) };
        lemma_push_keeps(st.seen, name);
        let aliases = single_import(ds, name);
        if aliases.len() > 0 {
            let st2 = scan_aliases(ds, avail, aliases, 0, st1, (depth - 1) as nat);
            lemma_aliases_keeps(ds, avail, aliases, 0, st1, (depth - 1) as nat);
            lemma_emit_keeps(aliases, 0, name, st2);
        }
    }
}

proof fn lemma_aliases_keeps(
    ds: Seq<SharedDir>,
    avail: Seq<Seq<char>>,
    aliases: Seq<Seq<char>>,
    i: int,
    st: ImportState,
    depth: nat,
)
    ensures
        keeps_seen(st, scan_aliases(ds, avail, aliases, i, st, depth)),
    decreases depth, 1nat, aliases.len() - i,
{
    if 0 <= i < aliases.len() {
        let st2 = scan_avail(ds, avail, aliases[i], defined_name(aliases[i]), 0, st, depth);
        lemma_avail_keeps(ds, avail, aliases[i], defined_name(aliases[i]), 0, st, depth);
        lemma_aliases_keeps(ds, avail, aliases, i + 1, st2, depth);
    }
}

proof fn lemma_avail_keeps(
    ds: Seq<SharedDir>,
    avail: Seq<Seq<char>>,
    alias: Seq<char>,
    def: Seq<char>,
    j: int,
    st: ImportState,
    depth: nat,
)
    ensures
        keeps_seen(st, scan_avail(ds, avail, alias, def, j, st, depth)),
    decreases depth, 0nat, avail.len() - j,
{
    if 0 <= j < avail.len() {
        let a = avail[j];
        if a != def && !st.seen.contains(a) && references(alias, a) {
            lemma_rec_keeps(ds, avail, a, st, depth);
            let st2 = resolve_rec(ds, avail, a, st, depth);
            lemma_avail_keeps(ds, avail, alias, def, j + 1, st2, depth);
        } else {
            lemma_avail_keeps(ds, avail, alias, def, j + 1, st, depth);
        }
    }
}

proof fn lemma_rec_depth(
    ds: Seq<SharedDir>,
    avail: Seq<Seq<char>>,
    name: Seq<char>,
    st: ImportState,
    d1: nat,
    d2: nat,
)
    requires
        d1 >= depth_needed(avail, name, st),
        d2 >= depth_needed(avail, name, st),
    ensures
        resolve_rec(ds, avail, name, st, d1) == resolve_rec(ds, avail, name, st, d2),
    decreases d1, 0nat, 0nat,
{
    if !st.seen.contains(name) {
        let st1 = ImportState { resolved: st.resolved, seen: st.seen.push(name) };
        lemma_push_keeps(st.seen, name);
        if avail.contains(name) {
            lemma_unseen_drop(avail, st.seen, st1.seen, name);
        } else {
            lemma_unseen_mono(avail, st.seen, st1.seen);
        }
        let aliases = single_import(ds, name);
        if aliases.len() > 0 {
            lemma_aliases_depth(ds, avail, aliases, 0, st1, (d1 - 1) as nat, (d2 - 1) as nat);
        }
    }
}

proof fn lemma_aliases_depth(
    ds: Seq<SharedDir>,
    avail: Seq<Seq<char>>,
    aliases: Seq<Seq<char>>,
    i: int,
    st: ImportState,
    e1: nat,
    e2: nat,
)
    requires
        e1 >= unseen_count(avail, st.seen),
        e2 >= unseen_count(avail, st.seen),
    ensures
        scan_aliases(ds, avail, aliases, i, st, e1) == scan_aliases(ds, avail, aliases, i, st, e2),
    decreases e1, 1nat, aliases.len() - i,
{
    if 0 <= i < aliases.len() {
        let def = defined_name(aliases[i]);
        lemma_avail_depth(ds, avail, aliases[i], def, 0, st, e1, e2);
        let st2 = scan_avail(ds, avail, aliases[i], def, 0, st, e1);
        lemma_avail_keeps(ds, avail, aliases[i], def, 0, st, e1);
        lemma_unseen_mono(avail, st.seen, st2.seen);
        lemma_aliases_depth(ds, avail, aliases, i + 1, st2, e1, e2);
    }
}

proof fn lemma_avail_depth(
    ds: Seq<SharedDir>,
    avail: Seq<Seq<char>>,
    alias: Seq<char>,
    def: Seq<char>,
    j: int,
    st: ImportState,
    e1: nat,
    e2: nat,
)
    requires
        e1 >= unseen_count(avail, st.seen),
        e2 >= unseen_count(avail, st.seen),
    ensures
        scan_avail(ds, avail, alias, def, j, st, e1) == scan_avail(ds, avail, alias, def, j, st, e2),
    decreases e1, 0nat, avail.len() - j,
{
    if 0 <= j < avail.len() {
        let a = avail[j];
        if a != def && !st.seen.contains(a) && references(alias, a) {
            assert(avail.contains(a));
            lemma_rec_depth(ds, avail, a, st, e1, e2);
            let st2 = resolve_rec(ds, avail, a, st, e1);
            lemma_rec_keeps(ds, avail, a, st, e1);
            lemma_unseen_mono(avail, st.seen, st2.seen);
            lemma_avail_depth(ds, avail, alias, def, j + 1, st2, e1, e2);
        } else {
            lemma_avail_depth(ds, avail, alias, def, j + 1, st, e1, e2);
        }
    }
}

/// Resolving an import does not depend on the bound on its nesting, once
/// the bound exceeds the number of shared type names: every such bound gives
/// what [`resolve_import`] gives, so cycles end by the names already seen,
/// never by the bound.
pub proof fn law_import_bound_suffices(ds: Seq<SharedDir>, name: Seq<char>, d: nat)
    requires
        d >= type_index(ds).len() + 1,
    ensures
        resolve_rec(ds, type_index(ds), name, ImportState { resolved: seq![], seen: seq![] }, d).resolved
            == resolve_import(ds, name),
{
    let avail = type_index(ds);
    let st0 = ImportState { resolved: seq![], seen: seq![] };
    lemma_unseen_le_len(avail, st0.seen);
    lemma_rec_depth(ds, avail, name, st0, d, avail.len() + 1);
}

/// Whether `st2` keeps the definitions of `st` in front and adds only
/// definitions of types that `st` had not seen.
pub open spec fn adds_unseen(st: ImportState, st2: ImportState) -> bool {
    &&& st.resolved.len() <= st2.resolved.len()
    &&& st2.resolved.subrange(0, st.resolved.len() as int) == st.resolved
    &&& forall|i: int|
        st.resolved.len() <= i < st2.resolved.len() ==> !st.seen.contains(
            defined_name(#[trigger] st2.resolved[i]),
        )
}

proof fn lemma_adds_unseen_trans(st: ImportState, st2: ImportState, st3: ImportState)
    requires
        adds_unseen(st, st2),
        adds_unseen(st2, st3),
        keeps_seen(st, st2),
    ensures
        adds_unseen(st, st3),
{
    assert forall|p: int| 0 <= p < st.resolved.len() implies st3.resolved[p] == st.resolved[p] by {
        assert(st3.resolved.subrange(0, st2.resolved.len() as int)[p] == st3.resolved[p]);
        assert(st2.resolved.subrange(0, st.resolved.len() as int)[p] == st2.resolved[p]);
    }
    assert(st3.resolved.subrange(0, st.resolved.len() as int) =~= st.resolved);
    assert forall|i: int| st.resolved.len() <= i < st3.resolved.len() implies !st.seen.contains(
        defined_name(#[trigger] st3.resolved[i]),
    ) by {
        if i < st2.resolved.len() {
            assert(st3.resolved.subrange(0, st2.resolved.len() as int)[i] == st3.resolved[i]);
            assert(st2.resolved[i] == st3.resolved[i]);
        } else {
            if st.seen.contains(defined_name(st3.resolved[i])) {
                assert(st2.seen.contains(defined_name(st3.resolved[i])));
            }
        }
    }
}

proof fn lemma_emit_shape(aliases: Seq<Seq<char>>, i: int, name: Seq<char>, st: ImportState)
    requires
        0 <= i,
    ensures
        ({
            let r = emit_aliases(aliases, i, name, st);
            &&& st.resolved.len() <= r.resolved.len()
            &&& r.resolved.subrange(0, st.resolved.len() as int) == st.resolved
            &&& forall|p: int|
                st.resolved.len() <= p < r.resolved.len() ==> (defined_name(#[trigger] r.resolved[p]) == name
                    || !st.seen.contains(defined_name(r.resolved[p])))
            &&& forall|p: int| st.resolved.len() <= p < r.resolved.len() ==> aliases.contains(#[trigger] r.resolved[p])
            &&& forall|j: int|
                i <= j < aliases.len() && defined_name(#[trigger] aliases[j]) == name ==> r.resolved.subrange(
                    st.resolved.len() as int,
                    r.resolved.len() as int,
                ).contains(aliases[j])
        }),
    decreases aliases.len() - i,
{
    let r = emit_aliases(aliases, i, name, st);
    if i >= aliases.len() {
        assert(r.resolved.subrange(0, st.resolved.len() as int) =~= st.resolved);
    } else {
        let a = aliases[i];
        let d = defined_name(a);
        let nxt = if d == name {
            ImportState { resolved: st.resolved.push(a), seen: st.seen }
        } else if !st.seen.contains(d) {
            ImportState { resolved: st.resolved.push(a), seen: st.seen.push(d) }
        } else {
            st
        };
        assert(r == emit_aliases(aliases, i + 1, name, nxt));
        lemma_emit_shape(aliases, i + 1, name, nxt);
        lemma_emit_keeps(aliases, i + 1, name, nxt);
        let base = st.resolved.len() as int;
        let mid = nxt.resolved.len() as int;
        assert forall|p: int| 0 <= p < base implies r.resolved[p] == st.resolved[p] by {
            assert(r.resolved.subrange(0, mid)[p] == r.resolved[p]);
            assert(nxt.resolved[p] == st.resolved[p]);
        }
        assert(r.resolved.subrange(0, base) =~= st.resolved);
        if d == name || !st.seen.contains(d) {
            assert(r.resolved.subrange(0, mid)[base] == r.resolved[base]);
            assert(r.resolved[base] == a);
        }
        assert forall|p: int| base <= p < r.resolved.len() implies (defined_name(#[trigger] r.resolved[p]) == name
            || !st.seen.contains(defined_name(r.resolved[p]))) by {
            if p >= mid {
                if st.seen.contains(defined_name(r.resolved[p])) {
                    lemma_push_keeps(st.seen, d);
                }
            }
        }
        assert forall|p: int| base <= p < r.resolved.len() implies aliases.contains(#[trigger] r.resolved[p]) by {
            if p < mid {
                assert(aliases[i] == r.resolved[p]);
            }
        }
        assert forall|j: int|
            i <= j < aliases.len() && defined_name(#[trigger] aliases[j]) == name implies r.resolved.subrange(
                base,
                r.resolved.len() as int,
            ).contains(aliases[j]) by {
            let tail = r.resolved.subrange(base, r.resolved.len() as int);
            if j == i {
                assert(tail[0] == a);
            } else {
                let t2 = r.resolved.subrange(mid, r.resolved.len() as int);
                let k = choose|k: int| 0 <= k < t2.len() && t2[k] == aliases[j];
                assert(tail[k + (mid - base)] == aliases[j]);
            }
        }
    }
}

proof fn lemma_rec_shape(ds: Seq<SharedDir>, avail: Seq<Seq<char>>, name: Seq<char>, st: ImportState, depth: nat)
    ensures
        adds_unseen(st, resolve_rec(ds, avail, name, st, depth)),
    decreases depth, 0nat, 0nat,
{
    let r = resolve_rec(ds, avail, name, st, depth);
    if depth == 0 || st.seen.contains(name) {
        assert(r.resolved.subrange(0, st.resolved.len() as int) =~= st.resolved);
    } else {
        let st1 = ImportState { resolved: st.resolved, seen: st.seen.push(name) };
        lemma_push_keeps(st.seen, name);
        let aliases = single_import(ds, name);
        if aliases.len() == 0 {
            assert(r.resolved.subrange(0, st.resolved.len() as int) =~= st.resolved);
        } else {
            let st2 = scan_aliases(ds, avail, aliases, 0, st1, (depth - 1) as nat);
            lemma_aliases_shape(ds, avail, aliases, 0, st1, (depth - 1) as nat);
            lemma_aliases_keeps(ds, avail, aliases, 0, st1, (depth - 1) as nat);
            lemma_emit_shape(aliases, 0, name, st2);
            assert(adds_unseen(st, st2)) by {
                assert forall|i: int| st.resolved.len() <= i < st2.resolved.len() implies !st.seen.contains(
                    defined_name(#[trigger] st2.resolved[i]),
                ) by {
                    if st.seen.contains(defined_name(st2.resolved[i])) {
                        assert(st1.seen.contains(defined_name(st2.resolved[i])));
                    }
                }
            }
            let base = st.resolved.len() as int;
            let mid = st2.resolved.len() as int;
            assert forall|p: int| 0 <= p < base implies r.resolved[p] == st.resolved[p] by {
                assert(r.resolved.subrange(0, mid)[p] == r.resolved[p]);
                assert(st2.resolved.subrange(0, base)[p] == st2.resolved[p]);
            }
            assert(r.resolved.subrange(0, base) =~= st.resolved);
            assert forall|i: int| base <= i < r.resolved.len() implies !st.seen.contains(
                defined_name(#[trigger] r.resolved[i]),
            ) by {
                if i < mid {
                    assert(r.resolved.subrange(0, mid)[i] == r.resolved[i]);
                } else {
                    if st.seen.contains(defined_name(r.resolved[i])) {
                        assert(st1.seen.contains(defined_name(r.resolved[i])));
                        assert(st2.seen.contains(defined_name(r.resolved[i])));
                    }
                }
            }
        }
    }
}

proof fn lemma_aliases_shape(
    ds: Seq<SharedDir>,
    avail: Seq<Seq<char>>,
    aliases: Seq<Seq<char>>,
    i: int,
    st: ImportState,
    depth: nat,
)
    ensures
        adds_unseen(st, scan_aliases(ds, avail, aliases, i, st, depth)),
    decreases depth, 1nat, aliases.len() - i,
{
    if 0 <= i < aliases.len() {
        let def = defined_name(aliases[i]);
        let st2 = scan_avail(ds, avail, aliases[i], def, 0, st, depth);
        lemma_avail_shape(ds, avail, aliases[i], def, 0, st, depth);
        lemma_avail_keeps(ds, avail, aliases[i], def, 0, st, depth);
        lemma_aliases_shape(ds, avail, aliases, i + 1, st2, depth);
        lemma_adds_unseen_trans(st, st2, scan_aliases(ds, avail, aliases, i + 1, st2, depth));
    } else {
        let r = scan_aliases(ds, avail, aliases, i, st, depth);
        assert(r.resolved.subrange(0, st.resolved.len() as int) =~= st.resolved);
    }
}

proof fn lemma_avail_shape(
    ds: Seq<SharedDir>,
    avail: Seq<Seq<char>>,
    alias: Seq<char>,
    def: Seq<char>,
    j: int,
    st: ImportState,
    depth: nat,
)
    ensures
        adds_unseen(st, scan_avail(ds, avail, alias, def, j, st, depth)),
    decreases depth, 0nat, avail.len() - j,
{
    if 0 <= j < avail.len() {
        let a = avail[j];
        if a != def && !st.seen.contains(a) && references(alias, a) {
            let st2 = resolve_rec(ds, avail, a, st, depth);
            lemma_rec_shape(ds, avail, a, st, depth);
            lemma_rec_keeps(ds, avail, a, st, depth);
            lemma_avail_shape(ds, avail, alias, def, j + 1, st2, depth);
            lemma_adds_unseen_trans(st, st2, scan_avail(ds, avail, alias, def, j + 1, st2, depth));
        } else {
            lemma_avail_shape(ds, avail, alias, def, j + 1, st, depth);
        }
    } else {
        let r = scan_avail(ds, avail, alias, def, j, st, depth);
        assert(r.resolved.subrange(0, st.resolved.len() as int) =~= st.resolved);
    }
}

/// The definitions found for the imported type itself come last: every one
/// of them is emitted, after all the definitions brought in for the shared
/// types they mention, and nothing emitted before them defines the imported
/// type.
pub proof fn law_import_own_definitions_last(ds: Seq<SharedDir>, name: Seq<char>)
    ensures
        ({
            let r = resolve_import(ds, name);
            let own = single_import(ds, name);
            exists|k: int|
                #![trigger r.subrange(k, r.len() as int)]
                0 <= k <= r.len() && (forall|p: int| 0 <= p < k ==> defined_name(#[trigger] r[p]) != name) && (forall|
                    p: int,
                | k <= p < r.len() ==> own.contains(#[trigger] r[p])) && (forall|j: int|
                    0 <= j < own.len() && defined_name(#[trigger] own[j]) == name ==> r.subrange(k, r.len() as int).contains(
                        own[j],
                    ))
        }),
{
    let avail = type_index(ds);
    let st0 = ImportState { resolved: seq![], seen: seq![] };
    let st1 = ImportState { resolved: seq![], seen: seq![name] };
    let own = single_import(ds, name);
    let r = resolve_import(ds, name);
    assert(seq![name] =~= st0.seen.push(name));
    if own.len() == 0 {
        assert(r.len() == 0);
        assert(r.subrange(0, r.len() as int) =~= r);
    } else {
        let d = (avail.len() + 1) as nat;
        let st2 = scan_aliases(ds, avail, own, 0, st1, (d - 1) as nat);
        lemma_aliases_shape(ds, avail, own, 0, st1, (d - 1) as nat);
        lemma_emit_shape(own, 0, name, st2);
        let k = st2.resolved.len() as int;
        let fin = emit_aliases(own, 0, name, st2);
        assert(r == fin.resolved);
        assert(st1.seen.contains(name)) by {
            assert(st1.seen[0] == name);
        }
        assert forall|p: int| 0 <= p < k implies defined_name(#[trigger] r[p]) != name by {
            assert(r.subrange(0, k)[p] == r[p]);
            assert(st2.resolved[p] == r[p]);
        }
        assert(r.subrange(k, r.len() as int) == r.subrange(k, r.len() as int));
    }
}

/// Whether no two definitions emitted so far define the same type, and
/// every type they define is marked seen.
pub open spec fn emitted_once(st: ImportState) -> bool {
    &&& forall|i: int, j: int|
        0 <= i < j < st.resolved.len() ==> defined_name(#[trigger] st.resolved[i]) != defined_name(
            #[trigger] st.resolved[j],
        )
    &&& forall|i: int| 0 <= i < st.resolved.len() ==> st.seen.contains(defined_name(#[trigger] st.resolved[i]))
}

/// Whether, from index `i` on, at most one of `aliases` defines `name`.
pub open spec fn defines_at_most_once(aliases: Seq<Seq<char>>, i: int, name: Seq<char>) -> bool {
    forall|j: int, k: int|
        i <= j < k < aliases.len() && defined_name(#[trigger] aliases[j]) == name ==> defined_name(
            #[trigger] aliases[k],
        ) != name
}

/// Whether every lookup of a shared type finds at most one definition of it.
pub open spec fn lookups_define_once(ds: Seq<SharedDir>) -> bool {
    forall|x: Seq<char>| defines_at_most_once(#[trigger] single_import(ds, x), 0, x)
}

proof fn lemma_emit_once(aliases: Seq<Seq<char>>, i: int, name: Seq<char>, st: ImportState)
    requires
        0 <= i,
        emitted_once(st),
        st.seen.contains(name),
        defines_at_most_once(aliases, i, name),
        (forall|p: int| 0 <= p < st.resolved.len() ==> defined_name(#[trigger] st.resolved[p]) != name)
            || (forall|j: int| i <= j < aliases.len() ==> defined_name(#[trigger] aliases[j]) != name),
    ensures
        emitted_once(emit_aliases(aliases, i, name, st)),
    decreases aliases.len() - i,
{
    if i < aliases.len() {
        let a = aliases[i];
        let d = defined_name(a);
        if d == name {
            let nxt = ImportState { resolved: st.resolved.push(a), seen: st.seen };
            assert forall|p: int| 0 <= p < st.resolved.len() implies defined_name(#[trigger] st.resolved[p]) != name by {
                if defined_name(st.resolved[p]) == name {
                    assert(defined_name(aliases[i]) == name);
                }
            }
            assert(emitted_once(nxt)) by {
                assert forall|x: int, y: int| 0 <= x < y < nxt.resolved.len() implies defined_name(
                    #[trigger] nxt.resolved[x],
                ) != defined_name(#[trigger] nxt.resolved[y]) by {
                    if y == st.resolved.len() {
                        assert(nxt.resolved[x] == st.resolved[x]);
                    } else {
                        assert(nxt.resolved[x] == st.resolved[x]);
                        assert(nxt.resolved[y] == st.resolved[y]);
                    }
                }
                assert forall|x: int| 0 <= x < nxt.resolved.len() implies nxt.seen.contains(
                    defined_name(#[trigger] nxt.resolved[x]),
                ) by {
                    if x < st.resolved.len() {
                        assert(nxt.resolved[x] == st.resolved[x]);
                    }
                }
            }
            assert forall|j: int| i + 1 <= j < aliases.len() implies defined_name(#[trigger] aliases[j]) != name by {
                assert(defined_name(aliases[i]) == name);
            }
            lemma_emit_once(aliases, i + 1, name, nxt);
        } else if !st.seen.contains(d) {
            let nxt = ImportState { resolved: st.resolved.push(a), seen: st.seen.push(d) };
            lemma_push_keeps(st.seen, d);
            assert(emitted_once(nxt)) by {
                assert forall|x: int, y: int| 0 <= x < y < nxt.resolved.len() implies defined_name(
                    #[trigger] nxt.resolved[x],
                ) != defined_name(#[trigger] nxt.resolved[y]) by {
                    assert(nxt.resolved[x] == st.resolved[x]);
                    if y < st.resolved.len() {
                        assert(nxt.resolved[y] == st.resolved[y]);
                    } else {
                        assert(st.seen.contains(defined_name(st.resolved[x])));
                    }
                }
                assert forall|x: int| 0 <= x < nxt.resolved.len() implies nxt.seen.contains(
                    defined_name(#[trigger] nxt.resolved[x]),
                ) by {
                    if x < st.resolved.len() {
                        assert(nxt.resolved[x] == st.resolved[x]);
                        assert(st.seen.contains(defined_name(st.resolved[x])));
                    }
                }
            }
            assert(nxt.seen.contains(name));
            assert((forall|p: int| 0 <= p < nxt.resolved.len() ==> defined_name(#[trigger] nxt.resolved[p]) != name)
                || (forall|j: int| i + 1 <= j < aliases.len() ==> defined_name(#[trigger] aliases[j]) != name)) by {
                if !(forall|j: int| i + 1 <= j < aliases.len() ==> defined_name(#[trigger] aliases[j]) != name) {
                    assert forall|p: int| 0 <= p < nxt.resolved.len() implies defined_name(#[trigger] nxt.resolved[p]) != name by {
                        if p < st.resolved.len() {
                            assert(nxt.resolved[p] == st.resolved[p]);
                        }
                    }
                }
            }
            lemma_emit_once(aliases, i + 1, name, nxt);
        } else {
            lemma_emit_once(aliases, i + 1, name, st);
        }
    }
}

proof fn lemma_rec_once(ds: Seq<SharedDir>, avail: Seq<Seq<char>>, name: Seq<char>, st: ImportState, depth: nat)
    requires
        emitted_once(st),
        lookups_define_once(ds),
    ensures
        emitted_once(resolve_rec(ds, avail, name, st, depth)),
    decreases depth, 0nat, 0nat,
{
    if depth > 0 && !st.seen.contains(name) {
        let st1 = ImportState { resolved: st.resolved, seen: st.seen.push(name) };
        lemma_push_keeps(st.seen, name);
        let aliases = single_import(ds, name);
        if aliases.len() > 0 {
            let st2 = scan_aliases(ds, avail, aliases, 0, st1, (depth - 1) as nat);
            lemma_aliases_once(ds, avail, aliases, 0, st1, (depth - 1) as nat);
            lemma_aliases_shape(ds, avail, aliases, 0, st1, (depth - 1) as nat);
            lemma_aliases_keeps(ds, avail, aliases, 0, st1, (depth - 1) as nat);
            assert forall|p: int| 0 <= p < st2.resolved.len() implies defined_name(#[trigger] st2.resolved[p]) != name by {
                if p < st.resolved.len() {
                    assert(st2.resolved.subrange(0, st.resolved.len() as int)[p] == st2.resolved[p]);
                    assert(st.seen.contains(defined_name(st.resolved[p])));
                } else {
                    assert(st1.seen.contains(name));
                }
            }
            assert(defines_at_most_once(single_import(ds, name), 0, name));
            lemma_emit_once(aliases, 0, name, st2);
        }
    }
}

proof fn lemma_aliases_once(
    ds: Seq<SharedDir>,
    avail: Seq<Seq<char>>,
    aliases: Seq<Seq<char>>,
    i: int,
    st: ImportState,
    depth: nat,
)
    requires
        emitted_once(st),
        lookups_define_once(ds),
    ensures
        emitted_once(scan_aliases(ds, avail, aliases, i, st, depth)),
    decreases depth, 1nat, aliases.len() - i,
{
    if 0 <= i < aliases.len() {
        let def = defined_name(aliases[i]);
        let st2 = scan_avail(ds, avail, aliases[i], def, 0, st, depth);
        lemma_avail_once(ds, avail, aliases[i], def, 0, st, depth);
        lemma_aliases_once(ds, avail, aliases, i + 1, st2, depth);
    }
}

proof fn lemma_avail_once(
    ds: Seq<SharedDir>,
    avail: Seq<Seq<char>>,
    alias: Seq<char>,
    def: Seq<char>,
    j: int,
    st: ImportState,
    depth: nat,
)
    requires
        emitted_once(st),
        lookups_define_once(ds),
    ensures
        emitted_once(scan_avail(ds, avail, alias, def, j, st, depth)),
    decreases depth, 0nat, avail.len() - j,
{
    if 0 <= j < avail.len() {
        let a = avail[j];
        if a != def && !st.seen.contains(a) && references(alias, a) {
            let st2 = resolve_rec(ds, avail, a, st, depth);
            lemma_rec_once(ds, avail, a, st, depth);
            lemma_avail_once(ds, avail, alias, def, j + 1, st2, depth);
        } else {
            lemma_avail_once(ds, avail, alias, def, j + 1, st, depth);
        }
    }
}

/// Each type is defined at most once in what an import brings in, as long
/// as no lookup of a shared type finds two definitions of it (a shared file
/// that defines a type twice is inlined as it stands).
pub proof fn law_import_defines_each_type_once(ds: Seq<SharedDir>, name: Seq<char>)
    requires
        lookups_define_once(ds),
    ensures
        forall|i: int, j: int|
            0 <= i < j < resolve_import(ds, name).len() ==> defined_name(#[trigger] resolve_import(ds, name)[i])
                != defined_name(#[trigger] resolve_import(ds, name)[j]),
{
    let avail = type_index(ds);
    let st0 = ImportState { resolved: seq![], seen: seq![] };
    lemma_rec_once(ds, avail, name, st0, (avail.len() + 1) as nat);
}

/// Whether the definition `z` mentions the shared type `a`, other than the
/// type it defines.
pub open spec fn mentions(z: Seq<char>, a: Seq<char>, avail: Seq<Seq<char>>) -> bool {
    avail.contains(a) && a != defined_name(z) && references(z, a)
}

/// Whether `rank` orders the shared types so that every definition found by
/// looking up a type mentions only types of lower rank: the mentions have no
/// cycle.
pub open spec fn ranked(ds: Seq<SharedDir>, avail: Seq<Seq<char>>, rank: spec_fn(Seq<char>) -> nat) -> bool {
    forall|x: Seq<char>, k: int, a: Seq<char>|
        0 <= k < single_import(ds, x).len() && #[trigger] mentions(single_import(ds, x)[k], a, avail)
            ==> rank(a) < rank(x)
}

/// Whether, from index `from` on, no definition of a type that an entry
/// mentions comes after that entry.
pub open spec fn later_free(r: Seq<Seq<char>>, from: int, avail: Seq<Seq<char>>) -> bool {
    forall|q: int, p: int, a: Seq<char>|
        #![trigger mentions(r[q], a, avail), r[p]]
        from <= q < p < r.len() && mentions(r[q], a, avail) ==> defined_name(r[p]) != a
}

/// Whether every type that the entries from `from` on mention is seen and
/// ranks below `x`.
pub open spec fn closed_below(
    st: ImportState,
    from: int,
    avail: Seq<Seq<char>>,
    rank: spec_fn(Seq<char>) -> nat,
    x: Seq<char>,
) -> bool {
    forall|q: int, a: Seq<char>|
        from <= q < st.resolved.len() && #[trigger] mentions(st.resolved[q], a, avail) ==> st.seen.contains(a)
            && rank(a) < rank(x)
}

proof fn lemma_emit_order(
    aliases: Seq<Seq<char>>,
    i: int,
    x: Seq<char>,
    st: ImportState,
    avail: Seq<Seq<char>>,
    rank: spec_fn(Seq<char>) -> nat,
)
    requires
        0 <= i,
        st.seen.contains(x),
        forall|j: int, a: Seq<char>|
            i <= j < aliases.len() && #[trigger] mentions(aliases[j], a, avail) ==> st.seen.contains(a) && rank(a)
                < rank(x),
    ensures
        later_free(emit_aliases(aliases, i, x, st).resolved, st.resolved.len() as int, avail),
        closed_below(emit_aliases(aliases, i, x, st), st.resolved.len() as int, avail, rank, x),
    decreases aliases.len() - i,
{
    let r = emit_aliases(aliases, i, x, st);
    let base = st.resolved.len() as int;
    if i >= aliases.len() {
        return;
    }
    let z = aliases[i];
    let d = defined_name(z);
    let nxt = if d == x {
        ImportState { resolved: st.resolved.push(z), seen: st.seen }
    } else if !st.seen.contains(d) {
        ImportState { resolved: st.resolved.push(z), seen: st.seen.push(d) }
    } else {
        st
    };
    lemma_push_keeps(st.seen, d);
    assert(keeps_seen(st, nxt));
    assert(r == emit_aliases(aliases, i + 1, x, nxt));
    lemma_emit_order(aliases, i + 1, x, nxt, avail, rank);
    lemma_emit_shape(aliases, i + 1, x, nxt);
    lemma_emit_keeps(aliases, i + 1, x, nxt);
    let mid = nxt.resolved.len() as int;
    if mid > base {
        assert(r.resolved.subrange(0, mid)[base] == r.resolved[base]);
        assert(r.resolved[base] == z);
    }
    assert forall|q: int, p: int, a: Seq<char>|
        #![trigger mentions(r.resolved[q], a, avail), r.resolved[p]]
        base <= q < p < r.resolved.len() && mentions(r.resolved[q], a, avail) implies defined_name(r.resolved[p])
            != a by {
        if q < mid {
            assert(r.resolved[q] == z);
            assert(mentions(aliases[i], a, avail));
            assert(st.seen.contains(a) && rank(a) < rank(x));
            assert(nxt.seen.contains(a));
        }
    }
    assert forall|q: int, a: Seq<char>|
        base <= q < r.resolved.len() && #[trigger] mentions(r.resolved[q], a, avail) implies r.seen.contains(a)
            && rank(a) < rank(x) by {
        if q < mid {
            assert(r.resolved[q] == z);
            assert(mentions(aliases[i], a, avail));
            assert(nxt.seen.contains(a));
        }
    }
}

proof fn lemma_seen_after_rec(ds: Seq<SharedDir>, avail: Seq<Seq<char>>, a: Seq<char>, st: ImportState, e: nat)
    requires
        e >= 1,
    ensures
        resolve_rec(ds, avail, a, st, e).seen.contains(a),
{
    lemma_rec_keeps(ds, avail, a, st, e);
    if !st.seen.contains(a) {
        let st1 = ImportState { resolved: st.resolved, seen: st.seen.push(a) };
        lemma_push_keeps(st.seen, a);
        let aliases = single_import(ds, a);
        if aliases.len() > 0 {
            let st2 = scan_aliases(ds, avail, aliases, 0, st1, (e - 1) as nat);
            lemma_aliases_keeps(ds, avail, aliases, 0, st1, (e - 1) as nat);
            lemma_emit_keeps(aliases, 0, a, st2);
        }
    }
}

proof fn lemma_rec_order(
    ds: Seq<SharedDir>,
    avail: Seq<Seq<char>>,
    x: Seq<char>,
    st: ImportState,
    d: nat,
    rank: spec_fn(Seq<char>) -> nat,
)
    requires
        ranked(ds, avail, rank),
        d >= depth_needed(avail, x, st),
    ensures
        later_free(resolve_rec(ds, avail, x, st, d).resolved, st.resolved.len() as int, avail),
        closed_below(resolve_rec(ds, avail, x, st, d), st.resolved.len() as int, avail, rank, x),
    decreases d, 0nat, 0nat,
{
    let r = resolve_rec(ds, avail, x, st, d);
    let base = st.resolved.len() as int;
    if st.seen.contains(x) || d == 0 {
        return;
    }
    let st1 = ImportState { resolved: st.resolved, seen: st.seen.push(x) };
    lemma_push_keeps(st.seen, x);
    if avail.contains(x) {
        lemma_unseen_drop(avail, st.seen, st1.seen, x);
    } else {
        lemma_unseen_mono(avail, st.seen, st1.seen);
    }
    let aliases = single_import(ds, x);
    if aliases.len() == 0 {
        return;
    }
    let e = (d - 1) as nat;
    let st2 = scan_aliases(ds, avail, aliases, 0, st1, e);
    lemma_aliases_order(ds, avail, aliases, 0, st1, e, rank, x);
    lemma_aliases_keeps(ds, avail, aliases, 0, st1, e);
    lemma_aliases_shape(ds, avail, aliases, 0, st1, e);
    assert forall|j: int, a: Seq<char>|
        0 <= j < aliases.len() && #[trigger] mentions(aliases[j], a, avail) implies st2.seen.contains(a) && rank(a)
            < rank(x) by {
        assert(mentions(single_import(ds, x)[j], a, avail));
    }
    assert(st2.seen.contains(x));
    lemma_emit_order(aliases, 0, x, st2, avail, rank);
    lemma_emit_shape(aliases, 0, x, st2);
    lemma_emit_keeps(aliases, 0, x, st2);
    assert(r == emit_aliases(aliases, 0, x, st2));
    let mid = st2.resolved.len() as int;
    assert forall|q: int, p: int, a: Seq<char>|
        #![trigger mentions(r.resolved[q], a, avail), r.resolved[p]]
        base <= q < p < r.resolved.len() && mentions(r.resolved[q], a, avail) implies defined_name(r.resolved[p])
            != a by {
        if q < mid {
            assert(r.resolved.subrange(0, mid)[q] == r.resolved[q]);
            assert(st2.resolved[q] == r.resolved[q]);
            assert(mentions(st2.resolved[q], a, avail));
            if p < mid {
                assert(r.resolved.subrange(0, mid)[p] == r.resolved[p]);
                assert(st2.resolved[p] == r.resolved[p]);
            } else {
                assert(st2.seen.contains(a) && rank(a) < rank(x));
            }
        }
    }
    assert forall|q: int, a: Seq<char>|
        base <= q < r.resolved.len() && #[trigger] mentions(r.resolved[q], a, avail) implies r.seen.contains(a)
            && rank(a) < rank(x) by {
        if q < mid {
            assert(r.resolved.subrange(0, mid)[q] == r.resolved[q]);
            assert(st2.resolved[q] == r.resolved[q]);
            assert(mentions(st2.resolved[q], a, avail));
        }
    }
}

proof fn lemma_aliases_order(
    ds: Seq<SharedDir>,
    avail: Seq<Seq<char>>,
    aliases: Seq<Seq<char>>,
    i: int,
    st: ImportState,
    e: nat,
    rank: spec_fn(Seq<char>) -> nat,
    x: Seq<char>,
)
    requires
        ranked(ds, avail, rank),
        e >= unseen_count(avail, st.seen),
        0 <= i,
        aliases == single_import(ds, x),
    ensures
        later_free(scan_aliases(ds, avail, aliases, i, st, e).resolved, st.resolved.len() as int, avail),
        closed_below(scan_aliases(ds, avail, aliases, i, st, e), st.resolved.len() as int, avail, rank, x),
        forall|j: int, a: Seq<char>|
            i <= j < aliases.len() && #[trigger] mentions(aliases[j], a, avail) ==> scan_aliases(
                ds,
                avail,
                aliases,
                i,
                st,
                e,
            ).seen.contains(a),
    decreases e, 1nat, aliases.len() - i,
{
    let r = scan_aliases(ds, avail, aliases, i, st, e);
    let base = st.resolved.len() as int;
    if i >= aliases.len() {
        return;
    }
    let z = aliases[i];
    let def = defined_name(z);
    let st2 = scan_avail(ds, avail, z, def, 0, st, e);
    lemma_avail_order(ds, avail, z, def, 0, st, e, rank, x, i);
    lemma_avail_keeps(ds, avail, z, def, 0, st, e);
    lemma_unseen_mono(avail, st.seen, st2.seen);
    lemma_aliases_order(ds, avail, aliases, i + 1, st2, e, rank, x);
    lemma_aliases_keeps(ds, avail, aliases, i + 1, st2, e);
    lemma_aliases_shape(ds, avail, aliases, i + 1, st2, e);
    lemma_avail_shape(ds, avail, z, def, 0, st, e);
    assert(r == scan_aliases(ds, avail, aliases, i + 1, st2, e));
    let mid = st2.resolved.len() as int;
    assert forall|q: int, p: int, a: Seq<char>|
        #![trigger mentions(r.resolved[q], a, avail), r.resolved[p]]
        base <= q < p < r.resolved.len() && mentions(r.resolved[q], a, avail) implies defined_name(r.resolved[p])
            != a by {
        if q < mid {
            assert(r.resolved.subrange(0, mid)[q] == r.resolved[q]);
            assert(st2.resolved[q] == r.resolved[q]);
            assert(mentions(st2.resolved[q], a, avail));
            if p < mid {
                assert(r.resolved.subrange(0, mid)[p] == r.resolved[p]);
                assert(st2.resolved[p] == r.resolved[p]);
            } else {
                assert(st2.seen.contains(a));
            }
        }
    }
    assert forall|q: int, a: Seq<char>|
        base <= q < r.resolved.len() && #[trigger] mentions(r.resolved[q], a, avail) implies r.seen.contains(a)
            && rank(a) < rank(x) by {
        if q < mid {
            assert(r.resolved.subrange(0, mid)[q] == r.resolved[q]);
            assert(st2.resolved[q] == r.resolved[q]);
            assert(mentions(st2.resolved[q], a, avail));
        }
    }
    assert forall|j: int, a: Seq<char>|
        i <= j < aliases.len() && #[trigger] mentions(aliases[j], a, avail) implies r.seen.contains(a) by {
        if j == i {
            let k = choose|k: int| 0 <= k < avail.len() && avail[k] == a;
            assert(avail[k] != def && references(z, avail[k]));
            assert(st2.seen.contains(avail[k]));
        }
    }
}

proof fn lemma_avail_order(
    ds: Seq<SharedDir>,
    avail: Seq<Seq<char>>,
    z: Seq<char>,
    def: Seq<char>,
    j: int,
    st: ImportState,
    e: nat,
    rank: spec_fn(Seq<char>) -> nat,
    x: Seq<char>,
    at: int,
)
    requires
        ranked(ds, avail, rank),
        e >= unseen_count(avail, st.seen),
        0 <= j,
        0 <= at < single_import(ds, x).len(),
        single_import(ds, x)[at] == z,
        def == defined_name(z),
    ensures
        later_free(scan_avail(ds, avail, z, def, j, st, e).resolved, st.resolved.len() as int, avail),
        closed_below(scan_avail(ds, avail, z, def, j, st, e), st.resolved.len() as int, avail, rank, x),
        forall|k: int|
            j <= k < avail.len() && avail[k] != def && references(z, #[trigger] avail[k]) ==> scan_avail(
                ds,
                avail,
                z,
                def,
                j,
                st,
                e,
            ).seen.contains(avail[k]),
    decreases e, 0nat, avail.len() - j,
{
    let r = scan_avail(ds, avail, z, def, j, st, e);
    let base = st.resolved.len() as int;
    if j >= avail.len() {
        return;
    }
    let a1 = avail[j];
    if a1 != def && !st.seen.contains(a1) && references(z, a1) {
        assert(avail.contains(a1));
        let st2 = resolve_rec(ds, avail, a1, st, e);
        lemma_rec_order(ds, avail, a1, st, e, rank);
        lemma_rec_keeps(ds, avail, a1, st, e);
        lemma_rec_shape(ds, avail, a1, st, e);
        lemma_unseen_mono(avail, st.seen, st2.seen);
        let st1s = st.seen.push(a1);
        lemma_push_keeps(st.seen, a1);
        lemma_unseen_drop(avail, st.seen, st1s, a1);
        lemma_seen_after_rec(ds, avail, a1, st, e);
        assert(mentions(single_import(ds, x)[at], a1, avail));
        assert(rank(a1) < rank(x));
        lemma_avail_order(ds, avail, z, def, j + 1, st2, e, rank, x, at);
        lemma_avail_keeps(ds, avail, z, def, j + 1, st2, e);
        lemma_avail_shape(ds, avail, z, def, j + 1, st2, e);
        assert(r == scan_avail(ds, avail, z, def, j + 1, st2, e));
        let mid = st2.resolved.len() as int;
        assert forall|q: int, p: int, a: Seq<char>|
            #![trigger mentions(r.resolved[q], a, avail), r.resolved[p]]
            base <= q < p < r.resolved.len() && mentions(r.resolved[q], a, avail) implies defined_name(
                r.resolved[p],
            ) != a by {
            if q < mid {
                assert(r.resolved.subrange(0, mid)[q] == r.resolved[q]);
                assert(st2.resolved[q] == r.resolved[q]);
                assert(mentions(st2.resolved[q], a, avail));
                if p < mid {
                    assert(r.resolved.subrange(0, mid)[p] == r.resolved[p]);
                    assert(st2.resolved[p] == r.resolved[p]);
                } else {
                    assert(st2.seen.contains(a));
                }
            }
        }
        assert forall|q: int, a: Seq<char>|
            base <= q < r.resolved.len() && #[trigger] mentions(r.resolved[q], a, avail) implies r.seen.contains(a)
                && rank(a) < rank(x) by {
            if q < mid {
                assert(r.resolved.subrange(0, mid)[q] == r.resolved[q]);
                assert(st2.resolved[q] == r.resolved[q]);
                assert(mentions(st2.resolved[q], a, avail));
                assert(rank(a) < rank(a1));
            }
        }
        assert forall|k: int|
            j <= k < avail.len() && avail[k] != def && references(z, #[trigger] avail[k]) implies r.seen.contains(
                avail[k],
            ) by {
            if k == j {
                assert(st2.seen.contains(a1));
            }
        }
    } else {
        lemma_avail_order(ds, avail, z, def, j + 1, st, e, rank, x, at);
        lemma_avail_keeps(ds, avail, z, def, j + 1, st, e);
        assert forall|k: int|
            j <= k < avail.len() && avail[k] != def && references(z, #[trigger] avail[k]) implies r.seen.contains(
                avail[k],
            ) by {
            if k == j {
                assert(st.seen.contains(a1));
            }
        }
    }
}

/// Where the mentions among shared types have no cycle, an import emits
/// every shared type before the definitions that mention it: no definition
/// of a type comes after a definition that mentions it.
pub proof fn law_import_dependencies_first(ds: Seq<SharedDir>, name: Seq<char>, rank: spec_fn(Seq<char>) -> nat)
    requires
        ranked(ds, type_index(ds), rank),
    ensures
        later_free(resolve_import(ds, name), 0, type_index(ds)),
{
    let avail = type_index(ds);
    let st0 = ImportState { resolved: seq![], seen: seq![] };
    lemma_unseen_le_len(avail, st0.seen);
    lemma_rec_order(ds, avail, name, st0, (avail.len() + 1) as nat, rank);
}

/// An import brings in nothing when looking the name up finds nothing, and
/// brings in something when the lookup finds a definition of the name.
pub proof fn law_import_empty_iff_unfound(ds: Seq<SharedDir>, name: Seq<char>)
    ensures
        single_import(ds, name).len() == 0 ==> resolve_import(ds, name).len() == 0,
        (exists|j: int|
            0 <= j < single_import(ds, name).len() && defined_name(#[trigger] single_import(ds, name)[j]) == name)
            ==> resolve_import(ds, name).len() > 0,
{
    law_import_own_definitions_last(ds, name);
    let own = single_import(ds, name);
    let r = resolve_import(ds, name);
    if exists|j: int| 0 <= j < own.len() && defined_name(#[trigger] own[j]) == name {
        let j = choose|j: int| 0 <= j < own.len() && defined_name(#[trigger] own[j]) == name;
        let k = choose|k: int|
            #![trigger r.subrange(k, r.len() as int)]
            0 <= k <= r.len() && (forall|p: int| 0 <= p < k ==> defined_name(#[trigger] r[p]) != name) && (forall|
                p: int,
            | k <= p < r.len() ==> own.contains(#[trigger] r[p])) && (forall|jj: int|
                0 <= jj < own.len() && defined_name(#[trigger] own[jj]) == name ==> r.subrange(k, r.len() as int).contains(
                    own[jj],
                ));
        assert(r.subrange(k, r.len() as int).contains(own[j]));
    }
}

/// Whether every shared type that the entries from `from` on mention is
/// seen.
pub open spec fn mentions_seen(st: ImportState, from: int, avail: Seq<Seq<char>>) -> bool {
    forall|q: int, a: Seq<char>|
        from <= q < st.resolved.len() && #[trigger] mentions(st.resolved[q], a, avail) ==> st.seen.contains(a)
}

/// Whether some entry of `r` defines `n`.
pub open spec fn defines(r: Seq<Seq<char>>, n: Seq<char>) -> bool {
    exists|p: int| 0 <= p < r.len() && defined_name(#[trigger] r[p]) == n
}

/// Whether every shared type that is seen in `st2` but was not in `st` is
/// defined by an entry of `st2`.
pub open spec fn newly_seen_defined(st: ImportState, st2: ImportState, avail: Seq<Seq<char>>) -> bool {
    forall|n: Seq<char>|
        #[trigger] st2.seen.contains(n) && !st.seen.contains(n) && avail.contains(n) ==> defines(st2.resolved, n)
}

/// Whether looking up each shared type finds a definition of it.
pub open spec fn lookups_find_their_type(ds: Seq<SharedDir>, avail: Seq<Seq<char>>) -> bool {
    forall|x: Seq<char>|
        #[trigger] avail.contains(x) ==> exists|j: int|
            0 <= j < single_import(ds, x).len() && defined_name(#[trigger] single_import(ds, x)[j]) == x
}

proof fn lemma_defines_prefix(r: Seq<Seq<char>>, r2: Seq<Seq<char>>, n: Seq<char>)
    requires
        r.len() <= r2.len(),
        r2.subrange(0, r.len() as int) == r,
        defines(r, n),
    ensures
        defines(r2, n),
{
    let p = choose|p: int| 0 <= p < r.len() && defined_name(#[trigger] r[p]) == n;
    assert(r2.subrange(0, r.len() as int)[p] == r2[p]);
    assert(defined_name(r2[p]) == n);
}

proof fn lemma_emit_seen(aliases: Seq<Seq<char>>, i: int, x: Seq<char>, st: ImportState, avail: Seq<Seq<char>>)
    requires
        0 <= i,
        forall|j: int, a: Seq<char>| i <= j < aliases.len() && #[trigger] mentions(aliases[j], a, avail) ==> st.seen.contains(a),
    ensures
        mentions_seen(emit_aliases(aliases, i, x, st), st.resolved.len() as int, avail),
        newly_seen_defined(st, emit_aliases(aliases, i, x, st), avail),
    decreases aliases.len() - i,
{
    let r = emit_aliases(aliases, i, x, st);
    let base = st.resolved.len() as int;
    if i >= aliases.len() {
        return;
    }
    let z = aliases[i];
    let d = defined_name(z);
    let nxt = if d == x {
        ImportState { resolved: st.resolved.push(z), seen: st.seen }
    } else if !st.seen.contains(d) {
        ImportState { resolved: st.resolved.push(z), seen: st.seen.push(d) }
    } else {
        st
    };
    lemma_push_keeps(st.seen, d);
    assert(r == emit_aliases(aliases, i + 1, x, nxt));
    lemma_emit_seen(aliases, i + 1, x, nxt, avail);
    lemma_emit_shape(aliases, i + 1, x, nxt);
    lemma_emit_keeps(aliases, i + 1, x, nxt);
    let mid = nxt.resolved.len() as int;
    if mid > base {
        assert(r.resolved.subrange(0, mid)[base] == r.resolved[base]);
        assert(r.resolved[base] == z);
    }
    assert forall|q: int, a: Seq<char>|
        base <= q < r.resolved.len() && #[trigger] mentions(r.resolved[q], a, avail) implies r.seen.contains(a) by {
        if q < mid {
            assert(mentions(aliases[i], a, avail));
            assert(nxt.seen.contains(a));
        }
    }
    assert forall|n: Seq<char>|
        #[trigger] r.seen.contains(n) && !st.seen.contains(n) && avail.contains(n) implies defines(r.resolved, n) by {
        if nxt.seen.contains(n) {
            assert(n == d);
            assert(defined_name(r.resolved[base]) == n);
        }
    }
}

proof fn lemma_rec_seen(ds: Seq<SharedDir>, avail: Seq<Seq<char>>, x: Seq<char>, st: ImportState, d: nat)
    requires
        d >= depth_needed(avail, x, st),
        lookups_find_their_type(ds, avail),
    ensures
        mentions_seen(resolve_rec(ds, avail, x, st, d), st.resolved.len() as int, avail),
        newly_seen_defined(st, resolve_rec(ds, avail, x, st, d), avail),
    decreases d, 0nat, 0nat,
{
    let r = resolve_rec(ds, avail, x, st, d);
    let base = st.resolved.len() as int;
    if st.seen.contains(x) || d == 0 {
        return;
    }
    let st1 = ImportState { resolved: st.resolved, seen: st.seen.push(x) };
    lemma_push_keeps(st.seen, x);
    if avail.contains(x) {
        lemma_unseen_drop(avail, st.seen, st1.seen, x);
    } else {
        lemma_unseen_mono(avail, st.seen, st1.seen);
    }
    let aliases = single_import(ds, x);
    if aliases.len() == 0 {
        assert forall|n: Seq<char>|
            #[trigger] r.seen.contains(n) && !st.seen.contains(n) && avail.contains(n) implies defines(r.resolved, n) by {
            if avail.contains(x) {
                let j = choose|j: int| 0 <= j < single_import(ds, x).len() && defined_name(#[trigger] single_import(ds, x)[j]) == x;
            }
            let k = choose|k: int| 0 <= k < st1.seen.len() && st1.seen[k] == n;
            if k < st.seen.len() {
                assert(st.seen[k] == n);
            }
        }
        return;
    }
    let e = (d - 1) as nat;
    let st2 = scan_aliases(ds, avail, aliases, 0, st1, e);
    lemma_aliases_seen(ds, avail, aliases, 0, st1, e);
    lemma_aliases_keeps(ds, avail, aliases, 0, st1, e);
    lemma_aliases_shape(ds, avail, aliases, 0, st1, e);
    lemma_emit_seen(aliases, 0, x, st2, avail);
    lemma_emit_shape(aliases, 0, x, st2);
    lemma_emit_keeps(aliases, 0, x, st2);
    assert(r == emit_aliases(aliases, 0, x, st2));
    let mid = st2.resolved.len() as int;
    assert forall|q: int, a: Seq<char>|
        base <= q < r.resolved.len() && #[trigger] mentions(r.resolved[q], a, avail) implies r.seen.contains(a) by {
        if q < mid {
            assert(r.resolved.subrange(0, mid)[q] == r.resolved[q]);
            assert(st2.resolved[q] == r.resolved[q]);
            assert(mentions(st2.resolved[q], a, avail));
        }
    }
    assert forall|n: Seq<char>|
        #[trigger] r.seen.contains(n) && !st.seen.contains(n) && avail.contains(n) implies defines(r.resolved, n) by {
        if n == x {
            let j = choose|j: int| 0 <= j < single_import(ds, x).len() && defined_name(#[trigger] single_import(ds, x)[j]) == x;
            let tail = r.resolved.subrange(mid, r.resolved.len() as int);
            assert(tail.contains(aliases[j]));
            let k = choose|k: int| 0 <= k < tail.len() && tail[k] == aliases[j];
            assert(r.resolved[mid + k] == aliases[j]);
        } else if st2.seen.contains(n) {
            assert(!st1.seen.contains(n)) by {
                if st1.seen.contains(n) {
                    let k = choose|k: int| 0 <= k < st1.seen.len() && st1.seen[k] == n;
                    if k < st.seen.len() {
                        assert(st.seen[k] == n);
                    }
                }
            }
            assert(defines(st2.resolved, n));
            lemma_defines_prefix(st2.resolved, r.resolved, n);
        }
    }
}

proof fn lemma_aliases_seen(
    ds: Seq<SharedDir>,
    avail: Seq<Seq<char>>,
    aliases: Seq<Seq<char>>,
    i: int,
    st: ImportState,
    e: nat,
)
    requires
        e >= unseen_count(avail, st.seen),
        0 <= i,
        lookups_find_their_type(ds, avail),
    ensures
        mentions_seen(scan_aliases(ds, avail, aliases, i, st, e), st.resolved.len() as int, avail),
        newly_seen_defined(st, scan_aliases(ds, avail, aliases, i, st, e), avail),
        forall|j: int, a: Seq<char>|
            i <= j < aliases.len() && #[trigger] mentions(aliases[j], a, avail) ==> scan_aliases(
                ds,
                avail,
                aliases,
                i,
                st,
                e,
            ).seen.contains(a),
    decreases e, 1nat, aliases.len() - i,
{
    let r = scan_aliases(ds, avail, aliases, i, st, e);
    let base = st.resolved.len() as int;
    if i >= aliases.len() {
        return;
    }
    let z = aliases[i];
    let def = defined_name(z);
    let st2 = scan_avail(ds, avail, z, def, 0, st, e);
    lemma_avail_seen(ds, avail, z, def, 0, st, e);
    lemma_avail_keeps(ds, avail, z, def, 0, st, e);
    lemma_avail_shape(ds, avail, z, def, 0, st, e);
    lemma_unseen_mono(avail, st.seen, st2.seen);
    lemma_aliases_seen(ds, avail, aliases, i + 1, st2, e);
    lemma_aliases_keeps(ds, avail, aliases, i + 1, st2, e);
    lemma_aliases_shape(ds, avail, aliases, i + 1, st2, e);
    assert(r == scan_aliases(ds, avail, aliases, i + 1, st2, e));
    let mid = st2.resolved.len() as int;
    assert forall|q: int, a: Seq<char>|
        base <= q < r.resolved.len() && #[trigger] mentions(r.resolved[q], a, avail) implies r.seen.contains(a) by {
        if q < mid {
            assert(r.resolved.subrange(0, mid)[q] == r.resolved[q]);
            assert(st2.resolved[q] == r.resolved[q]);
            assert(mentions(st2.resolved[q], a, avail));
        }
    }
    assert forall|n: Seq<char>|
        #[trigger] r.seen.contains(n) && !st.seen.contains(n) && avail.contains(n) implies defines(r.resolved, n) by {
        if st2.seen.contains(n) {
            assert(defines(st2.resolved, n));
            lemma_defines_prefix(st2.resolved, r.resolved, n);
        }
    }
    assert forall|j: int, a: Seq<char>|
        i <= j < aliases.len() && #[trigger] mentions(aliases[j], a, avail) implies r.seen.contains(a) by {
        if j == i {
            let k = choose|k: int| 0 <= k < avail.len() && avail[k] == a;
            assert(avail[k] != def && references(z, avail[k]));
            assert(st2.seen.contains(avail[k]));
        }
    }
}

proof fn lemma_avail_seen(
    ds: Seq<SharedDir>,
    avail: Seq<Seq<char>>,
    z: Seq<char>,
    def: Seq<char>,
    j: int,
    st: ImportState,
    e: nat,
)
    requires
        e >= unseen_count(avail, st.seen),
        0 <= j,
        lookups_find_their_type(ds, avail),
    ensures
        mentions_seen(scan_avail(ds, avail, z, def, j, st, e), st.resolved.len() as int, avail),
        newly_seen_defined(st, scan_avail(ds, avail, z, def, j, st, e), avail),
        forall|k: int|
            j <= k < avail.len() && avail[k] != def && references(z, #[trigger] avail[k]) ==> scan_avail(
                ds,
                avail,
                z,
                def,
                j,
                st,
                e,
            ).seen.contains(avail[k]),
    decreases e, 0nat, avail.len() - j,
{
    let r = scan_avail(ds, avail, z, def, j, st, e);
    let base = st.resolved.len() as int;
    if j >= avail.len() {
        return;
    }
    let a1 = avail[j];
    if a1 != def && !st.seen.contains(a1) && references(z, a1) {
        assert(avail.contains(a1));
        let st2 = resolve_rec(ds, avail, a1, st, e);
        lemma_rec_seen(ds, avail, a1, st, e);
        lemma_rec_keeps(ds, avail, a1, st, e);
        lemma_rec_shape(ds, avail, a1, st, e);
        lemma_unseen_mono(avail, st.seen, st2.seen);
        lemma_push_keeps(st.seen, a1);
        lemma_unseen_drop(avail, st.seen, st.seen.push(a1), a1);
        lemma_seen_after_rec(ds, avail, a1, st, e);
        lemma_avail_seen(ds, avail, z, def, j + 1, st2, e);
        lemma_avail_keeps(ds, avail, z, def, j + 1, st2, e);
        lemma_avail_shape(ds, avail, z, def, j + 1, st2, e);
        assert(r == scan_avail(ds, avail, z, def, j + 1, st2, e));
        let mid = st2.resolved.len() as int;
        assert forall|q: int, a: Seq<char>|
            base <= q < r.resolved.len() && #[trigger] mentions(r.resolved[q], a, avail) implies r.seen.contains(a) by {
            if q < mid {
                assert(r.resolved.subrange(0, mid)[q] == r.resolved[q]);
                assert(st2.resolved[q] == r.resolved[q]);
                assert(mentions(st2.resolved[q], a, avail));
            }
        }
        assert forall|n: Seq<char>|
            #[trigger] r.seen.contains(n) && !st.seen.contains(n) && avail.contains(n) implies defines(r.resolved, n) by {
            if st2.seen.contains(n) {
                assert(defines(st2.resolved, n));
                lemma_defines_prefix(st2.resolved, r.resolved, n);
            }
        }
        assert forall|k: int|
            j <= k < avail.len() && avail[k] != def && references(z, #[trigger] avail[k]) implies r.seen.contains(
                avail[k],
            ) by {
            if k == j {
                assert(st2.seen.contains(a1));
            }
        }
    } else {
        lemma_avail_seen(ds, avail, z, def, j + 1, st, e);
        lemma_avail_keeps(ds, avail, z, def, j + 1, st, e);
        assert forall|k: int|
            j <= k < avail.len() && avail[k] != def && references(z, #[trigger] avail[k]) implies r.seen.contains(
                avail[k],
            ) by {
            if k == j {
                assert(st.seen.contains(a1));
            }
        }
    }
}

/// Where looking up each shared type finds a definition of it, an import is
/// closed: every shared type that a definition it brings in mentions is
/// defined by one of the definitions it brings in, cycles included.
pub proof fn law_import_closed_under_mentions(ds: Seq<SharedDir>, name: Seq<char>)
    requires
        lookups_find_their_type(ds, type_index(ds)),
    ensures
        forall|q: int, a: Seq<char>|
            0 <= q < resolve_import(ds, name).len() && #[trigger] mentions(
                resolve_import(ds, name)[q],
                a,
                type_index(ds),
            ) ==> defines(resolve_import(ds, name), a),
{
    let avail = type_index(ds);
    let st0 = ImportState { resolved: seq![], seen: seq![] };
    lemma_unseen_le_len(avail, st0.seen);
    let d = (avail.len() + 1) as nat;
    lemma_rec_seen(ds, avail, name, st0, d);
    let r = resolve_rec(ds, avail, name, st0, d);
    assert forall|q: int, a: Seq<char>|
        0 <= q < r.resolved.len() && #[trigger] mentions(r.resolved[q], a, avail) implies defines(r.resolved, a) by {
        assert(r.seen.contains(a));
        assert(!st0.seen.contains(a));
    }
}

fn copy_text(t: &Vec<char>) -> (r: Vec<char>)
    ensures
        r@ == t@,
{
    vstd::slice::slice_to_vec(t.as_slice())
}

fn emit_into(aliases: &Vec<Vec<char>>, name: &[char], resolved: &mut Vec<Vec<char>>, seen: &mut Vec<Vec<char>>)
    ensures
        ({
            let st = emit_aliases(
                views(aliases@),
                0,
                name@,
                ImportState { resolved: views(old(resolved)@), seen: views(old(seen)@) },
            );
            views(final(resolved)@) == st.resolved && views(final(seen)@) == st.seen
        }),
{
    let ghost av = views(aliases@);
    let ghost target = emit_aliases(av, 0, name@, ImportState { resolved: views(resolved@), seen: views(seen@) });
    for i in 0..aliases.len()
        invariant
            av == views(aliases@),
            target == emit_aliases(av, i as int, name@, ImportState { resolved: views(resolved@), seen: views(seen@) }),
    {
        let d = defined_name_of(&aliases[i]);
        let ghost pr = views(resolved@);
        let ghost ps = views(seen@);
        assert(av[i as int] == aliases@[i as int]@);
        if same_text(&d, name) {
            resolved.push(copy_text(&aliases[i]));
            assert(views(resolved@) =~= pr.push(av[i as int]));
        } else if !list_contains(seen, &d) {
            resolved.push(copy_text(&aliases[i]));
            seen.push(d);
            assert(views(resolved@) =~= pr.push(av[i as int]));
            assert(views(seen@) =~= ps.push(defined_name(av[i as int])));
        }
    }
}

fn resolve_into(
    dirs: &Vec<SharedDir>,
    avail: &Vec<Vec<char>>,
    name: &[char],
    resolved: &mut Vec<Vec<char>>,
    seen: &mut Vec<Vec<char>>,
    depth: u128,
)
    ensures
        ({
            let st = resolve_rec(
                dirs@,
                views(avail@),
                name@,
                ImportState { resolved: views(old(resolved)@), seen: views(old(seen)@) },
                depth as nat,
            );
            views(final(resolved)@) == st.resolved && views(final(seen)@) == st.seen
        }),
    decreases depth,
{
    if depth == 0 || list_contains(seen, name) {
        return;
    }
    seen.push(vstd::slice::slice_to_vec(name));
    assert(views(seen@) =~= views(old(seen)@).push(name@));
    let aliases = resolve_single_import(dirs, name);
    if aliases.len() == 0 {
        return;
    }
    let ghost av = views(aliases@);
    let ghost vv = views(avail@);
    let ghost st1 = ImportState { resolved: views(resolved@), seen: views(seen@) };
    let ghost target = scan_aliases(dirs@, vv, av, 0, st1, (depth - 1) as nat);
    for i in 0..aliases.len()
        invariant
            depth > 0,
            av == views(aliases@),
            vv == views(avail@),
            target == scan_aliases(
                dirs@,
                vv,
                av,
                i as int,
                ImportState { resolved: views(resolved@), seen: views(seen@) },
                (depth - 1) as nat,
            ),
    {
        let def = defined_name_of(&aliases[i]);
        assert(av[i as int] == aliases@[i as int]@);
        let ghost inner_target = scan_avail(
            dirs@,
            vv,
            av[i as int],
            def@,
            0,
            ImportState { resolved: views(resolved@), seen: views(seen@) },
            (depth - 1) as nat,
        );
        for j in 0..avail.len()
            invariant
                depth > 0,
                av == views(aliases@),
                vv == views(avail@),
                i < av.len(),
                av[i as int] == aliases@[i as int]@,
                inner_target == scan_avail(
                    dirs@,
                    vv,
                    av[i as int],
                    def@,
                    j as int,
                    ImportState { resolved: views(resolved@), seen: views(seen@) },
                    (depth - 1) as nat,
                ),
        {
            let a = &avail[j];
            assert(vv[j as int] == a@);
            if !same_text(a, &def) && !list_contains(seen, a) && references_type_chars(&aliases[i], a) {
                resolve_into(dirs, avail, a, resolved, seen, depth - 1);
            }
        }
    }
    emit_into(&aliases, name, resolved, seen);
}

/// Resolves `# @rbs import <name>` against the shared directories: the
/// definitions of `name` and, transitively and before them, of every other
/// shared type they mention, each type once.
pub fn resolve_import_in(dirs: &Vec<SharedDir>, name: &[char]) -> (r: Vec<Vec<char>>)
    ensures
        views(r@) == resolve_import(dirs@, name@),
{
    let avail = index_shared_types(dirs);
    let mut resolved: Vec<Vec<char>> = Vec::new();
    let mut seen: Vec<Vec<char>> = Vec::new();
    assert(views(resolved@) =~= Seq::<Seq<char>>::empty());
    assert(views(seen@) =~= Seq::<Seq<char>>::empty());
    let depth: u128 = avail.len() as u128 + 1;
    resolve_into(dirs, &avail, name, &mut resolved, &mut seen, depth);
    resolved
}

} // verus!
