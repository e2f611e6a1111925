//! Removal of MCP-style annotations (`@desc(...)`, `@example(...)`, `@min(...)`
//! and the like) from signature and type-alias text, which RBS does not accept.
use vstd::prelude::*;
use crate::text::{spec_is_word, spec_is_ws, is_word, is_ws, ws_end, lemma_ws_end_bounds};

verus! {

/// The first index at or after `j` that does not hold an identifier character.
pub open spec fn word_end(s: Seq<char>, j: int) -> int
    decreases s.len() - j,
{
    if 0 <= j < s.len() && spec_is_word(s[j]) {
        word_end(s, j + 1)
    } else {
        j
    }
}

/// Reading from `k` with `depth` parentheses open, the index just past the
/// parenthesis that closes them all; `None` if the text ends first.
pub open spec fn paren_end(s: Seq<char>, k: int, depth: nat) -> Option<int>
    decreases s.len() - k,
{
    if depth == 0 {
        Some(k)
    } else if k < 0 || k >= s.len() {
        None
    } else if s[k] == '(' {
        paren_end(s, k + 1, depth + 1)
    } else if s[k] == ')' {
        paren_end(s, k + 1, (depth - 1) as nat)
    } else {
        paren_end(s, k + 1, depth)
    }
}

/// Where the annotation starting with the `@` at `i` ends: an `@`, one or more
/// identifier characters, `(`, and text up to the parenthesis that balances it.
pub open spec fn annotation_end(s: Seq<char>, i: int) -> Option<int> {
    let j = word_end(s, i + 1);
    if 0 <= i < s.len() && s[i] == '@' && j > i + 1 && j < s.len() && s[j] == '(' {
        paren_end(s, j + 1, 1)
    } else {
        None
    }
}

pub proof fn lemma_word_end_bounds(s: Seq<char>, j: int)
    ensures
        j >= 0 ==> j <= word_end(s, j),
        0 <= j <= s.len() ==> word_end(s, j) <= s.len(),
        0 <= j ==> forall|k: int| j <= k < word_end(s, j) ==> spec_is_word(#[trigger] s[k]),
    decreases s.len() - j,
{
    if 0 <= j < s.len() && spec_is_word(s[j]) {
        lemma_word_end_bounds(s, j + 1);
    }
}

pub proof fn lemma_paren_end_bounds(s: Seq<char>, k: int, depth: nat)
    ensures
        paren_end(s, k, depth) matches Some(e) ==> k <= e && (depth > 0 ==> k < e && e
            <= s.len()),
    decreases s.len() - k,
{
    if depth != 0 && 0 <= k < s.len() {
        if s[k] == '(' {
            lemma_paren_end_bounds(s, k + 1, depth + 1);
        } else if s[k] == ')' {
            lemma_paren_end_bounds(s, k + 1, (depth - 1) as nat);
        } else {
            lemma_paren_end_bounds(s, k + 1, depth);
        }
    }
}

pub proof fn lemma_annotation_end_bounds(s: Seq<char>, i: int)
    ensures
        annotation_end(s, i) matches Some(e) ==> i < e <= s.len(),
{
    lemma_word_end_bounds(s, i + 1);
    let j = word_end(s, i + 1);
    if 0 <= i < s.len() && s[i] == '@' && j > i + 1 && j < s.len() && s[j] == '(' {
        lemma_paren_end_bounds(s, j + 1, 1);
    }
}

/// The text from `i` on with every annotation removed, and whether any was.
pub open spec fn removal(s: Seq<char>, i: int) -> (Seq<char>, bool)
    decreases s.len() - i,
{
    if i < 0 || i >= s.len() {
        (seq![], false)
    } else {
        proof {
            lemma_annotation_end_bounds(s, i);
        }
        match annotation_end(s, i) {
            Some(k) => (removal(s, k).0, true),
            None => {
                let rest = removal(s, i + 1);
                (seq![s[i]] + rest.0, rest.1)
            },
        }
    }
}

pub open spec fn is_open_bracket(c: char) -> bool {
    c == '(' || c == '{' || c == '['
}

pub open spec fn is_close_or_comma(c: char) -> bool {
    c == ',' || c == ')' || c == '}' || c == ']'
}

pub open spec fn is_close_bracket(c: char) -> bool {
    c == ')' || c == '}' || c == ']'
}

/// The tidying pass that follows a removal, from index `i` on, appending to
/// `done`: a run of white space becomes one space, or nothing where it follows
/// an opening bracket, precedes a comma or closing bracket, or ends the text;
/// a comma left dangling before a closing bracket is dropped together with the
/// white space after it.
pub open spec fn tidy(c: Seq<char>, i: int, done: Seq<char>) -> Seq<char>
    decreases c.len() - i,
{
    if i < 0 || i >= c.len() {
        done
    } else if spec_is_ws(c[i]) {
        proof {
            lemma_ws_end_bounds(c, i);
        }
        let j = ws_end(c, i);
        let keep = j < c.len() && !(done.len() > 0 && is_open_bracket(done.last()))
            && !is_close_or_comma(c[j]);
        if keep {
            tidy(c, j, done.push(' '))
        } else {
            tidy(c, j, done)
        }
    } else if c[i] == ',' {
        proof {
            lemma_ws_end_bounds(c, i + 1);
        }
        let j = ws_end(c, i + 1);
        if j < c.len() && is_close_bracket(c[j]) {
            tidy(c, j, done)
        } else {
            tidy(c, i + 1, done.push(','))
        }
    } else {
        tidy(c, i + 1, done.push(c[i]))
    }
}

/// `s` with its annotations removed and the text tidied; `s` itself when it
/// holds no annotation.
pub open spec fn strip(s: Seq<char>) -> Seq<char> {
    let (out, stripped) = removal(s, 0);
    if stripped {
        tidy(out, 0, seq![])
    } else {
        s
    }
}

/// Whether some `@` in `s` starts an annotation.
pub open spec fn has_annotation(s: Seq<char>) -> bool {
    exists|i: int| #[trigger] annotation_end(s, i) is Some
}

pub proof fn lemma_no_annotation_no_removal(s: Seq<char>, i: int)
    requires
        !has_annotation(s),
    ensures
        !removal(s, i).1,
    decreases s.len() - i,
{
    if 0 <= i < s.len() {
        assert(annotation_end(s, i) is None);
        lemma_no_annotation_no_removal(s, i + 1);
    }
}

fn word_end_of(s: &[char], j: usize) -> (r: usize)
    requires
        j <= s@.len(),
    ensures
        r == word_end(s@, j as int),
        j <= r <= s@.len(),
{
    let mut k = j;
    proof {
        lemma_word_end_bounds(s@, j as int);
    }
    while k < s.len() && is_word(s[k])
        invariant
            j <= k <= s@.len(),
            word_end(s@, j as int) == word_end(s@, k as int),
        decreases s@.len() - k,
    {
        k = k + 1;
    }
    k
}

fn paren_end_of(s: &[char], start: usize) -> (r: Option<usize>)
    requires
        1 <= start <= s@.len(),
    ensures
        r matches Some(e) ==> paren_end(s@, start as int, 1) == Some(e as int),
        r is None ==> paren_end(s@, start as int, 1) is None,
{
    let mut depth: usize = 1;
    let mut k = start;
    while k < s.len() && depth > 0
        invariant
            1 <= start <= k <= s@.len(),
            depth <= k - start + 1,
            paren_end(s@, start as int, 1) == paren_end(s@, k as int, depth as nat),
        decreases s@.len() - k,
    {
        if s[k] == '(' {
            depth = depth + 1;
        } else if s[k] == ')' {
            depth = depth - 1;
        }
        k = k + 1;
    }
    if depth == 0 {
        Some(k)
    } else {
        None
    }
}

/// Removes `@word(...)` annotations (parentheses balanced) from `s` and tidies
/// the white space and commas they leave behind. A text without annotations is
/// returned unchanged.
pub fn strip_annotations(s: &[char]) -> (r: Vec<char>)
    ensures
        r@ == strip(s@),
        !has_annotation(s@) ==> r@ == s@,
{
    proof {
        if !has_annotation(s@) {
            lemma_no_annotation_no_removal(s@, 0);
        }
    }
    let mut out: Vec<char> = Vec::new();
    let mut stripped = false;
    let mut i: usize = 0;
    while i < s.len()
        invariant
            i <= s@.len(),
            removal(s@, 0).0 == out@ + removal(s@, i as int).0,
            removal(s@, 0).1 == (stripped || removal(s@, i as int).1),
        decreases s@.len() - i,
    {
        proof {
            lemma_annotation_end_bounds(s@, i as int);
        }
        let mut matched: Option<usize> = None;
        if s[i] == '@' {
            let j = word_end_of(s, i + 1);
            if j > i + 1 && j < s.len() && s[j] == '(' {
                matched = paren_end_of(s, j + 1);
            }
        }
        assert(matched matches Some(k) ==> annotation_end(s@, i as int) == Some(k as int));
        assert(matched is None ==> annotation_end(s@, i as int) is None);
        match matched {
            Some(k) => {
                i = k;
                stripped = true;
            },
            None => {
                assert(seq![s@[i as int]] + removal(s@, i + 1).0 == removal(s@, i as int).0);
                out.push(s[i]);
                assert(out@ + removal(s@, i + 1).0 =~= old_out_plus(out@, s@, i as int));
                i = i + 1;
            },
        }
    }
    assert(out@ + removal(s@, i as int).0 =~= out@);
    if !stripped {
        return copy_all(s);
    }
    tidy_of(&out)
}

/// Helper view used to relate the output before and after one copied character.
spec fn old_out_plus(out: Seq<char>, s: Seq<char>, i: int) -> Seq<char> {
    out + removal(s, i + 1).0
}

fn copy_all(s: &[char]) -> (r: Vec<char>)
    ensures
        r@ == s@,
{
    vstd::slice::slice_to_vec(s)
}

fn tidy_of(c: &Vec<char>) -> (r: Vec<char>)
    ensures
        r@ == tidy(c@, 0, seq![]),
{
    let mut done: Vec<char> = Vec::new();
    let mut i: usize = 0;
    while i < c.len()
        invariant
            i <= c@.len(),
            tidy(c@, 0, seq![]) == tidy(c@, i as int, done@),
        decreases c@.len() - i,
    {
        if is_ws(c[i]) {
            proof {
                lemma_ws_end_bounds(c@, i as int);
            }
            let mut j = i;
            while j < c.len() && is_ws(c[j])
                invariant
                    i <= j <= c@.len(),
                    ws_end(c@, i as int) == ws_end(c@, j as int),
                decreases c@.len() - j,
            {
                j = j + 1;
            }
            let after_open = done.len() > 0 && {
                let l = done[done.len() - 1];
                l == '(' || l == '{' || l == '['
            };
            if j < c.len() && !after_open && !(c[j] == ',' || c[j] == ')' || c[j] == '}' || c[j]
                == ']') {
                done.push(' ');
            }
            i = j;
        } else if c[i] == ',' {
            proof {
                lemma_ws_end_bounds(c@, i + 1);
            }
            let mut j = i + 1;
            while j < c.len() && is_ws(c[j])
                invariant
                    i + 1 <= j <= c@.len(),
                    ws_end(c@, i + 1) == ws_end(c@, j as int),
                decreases c@.len() - j,
            {
                j = j + 1;
            }
            if j < c.len() && (c[j] == ')' || c[j] == '}' || c[j] == ']') {
                i = j;
            } else {
                done.push(',');
                i = i + 1;
            }
        } else {
            done.push(c[i]);
            i = i + 1;
        }
    }
    done
}

proof fn lemma_removal_len(s: Seq<char>, i: int)
    requires
        0 <= i <= s.len(),
    ensures
        removal(s, i).0.len() <= s.len() - i,
    decreases s.len() - i,
{
    if i < s.len() {
        lemma_annotation_end_bounds(s, i);
        match annotation_end(s, i) {
            Some(k) => lemma_removal_len(s, k),
            None => lemma_removal_len(s, i + 1),
        }
    }
}

proof fn lemma_tidy_len(c: Seq<char>, i: int, done: Seq<char>)
    requires
        0 <= i <= c.len(),
    ensures
        tidy(c, i, done).len() <= done.len() + c.len() - i,
    decreases c.len() - i,
{
    if i < c.len() {
        if spec_is_ws(c[i]) {
            lemma_ws_end_bounds(c, i);
            let j = ws_end(c, i);
            lemma_tidy_len(c, j, done.push(' '));
            lemma_tidy_len(c, j, done);
        } else if c[i] == ',' {
            lemma_ws_end_bounds(c, i + 1);
            let j = ws_end(c, i + 1);
            lemma_tidy_len(c, j, done);
            lemma_tidy_len(c, i + 1, done.push(','));
        } else {
            lemma_tidy_len(c, i + 1, done.push(c[i]));
        }
    }
}

/// Removing annotations never makes a text longer.
pub proof fn law_strip_never_longer(s: Seq<char>)
    ensures
        strip(s).len() <= s.len(),
{
    lemma_removal_len(s, 0);
    let out = removal(s, 0).0;
    lemma_tidy_len(out, 0, seq![]);
}

/// Whether `t` holds no `@`.
pub open spec fn no_at_sign(t: Seq<char>) -> bool {
    forall|p: int| 0 <= p < t.len() ==> t[p] != '@'
}

/// Whether the `@` at `p` starts an annotation or lies inside one that
/// starts at or after `from`.
pub open spec fn covered_from(s: Seq<char>, from: int, p: int) -> bool {
    exists|a: int|
        from <= a <= p && #[trigger] annotation_end(s, a) is Some && p < annotation_end(s, a).unwrap()
}

/// Whether every `@` of `s` starts an annotation or lies inside one.
pub open spec fn every_at_in_annotation(s: Seq<char>) -> bool {
    forall|p: int| 0 <= p < s.len() && s[p] == '@' ==> covered_from(s, 0, p)
}

/// With fewer parentheses open, the closing comes no later.
proof fn lemma_paren_end_mono(s: Seq<char>, k: int, d: nat, big: nat)
    requires
        1 <= d <= big,
        paren_end(s, k, big) is Some,
    ensures
        paren_end(s, k, d) is Some,
        paren_end(s, k, d).unwrap() <= paren_end(s, k, big).unwrap(),
    decreases s.len() - k,
{
    lemma_paren_end_bounds(s, k, big);
    if 0 <= k < s.len() {
        if s[k] == '(' {
            lemma_paren_end_mono(s, k + 1, d + 1, big + 1);
        } else if s[k] == ')' {
            if d > 1 {
                lemma_paren_end_mono(s, k + 1, (d - 1) as nat, (big - 1) as nat);
            } else {
                lemma_paren_end_bounds(s, k + 1, (big - 1) as nat);
            }
        } else {
            lemma_paren_end_mono(s, k + 1, d, big);
        }
    }
}

/// Reading on from `k` with `d` parentheses open, at any index `y` before
/// the closing some parentheses are still open, and reading on from `y`
/// closes at the same place.
proof fn lemma_paren_end_step(s: Seq<char>, k: int, d: nat, y: int)
    requires
        d >= 1,
        paren_end(s, k, d) is Some,
        k <= y < paren_end(s, k, d).unwrap(),
    ensures
        exists|big: nat| big >= 1 && #[trigger] paren_end(s, y, big) == paren_end(s, k, d),
    decreases y - k,
{
    if y == k {
        assert(paren_end(s, y, d) == paren_end(s, k, d));
    } else {
        lemma_paren_end_bounds(s, k, d);
        let d2: nat = if s[k] == '(' {
            d + 1
        } else if s[k] == ')' {
            (d - 1) as nat
        } else {
            d
        };
        assert(paren_end(s, k, d) == paren_end(s, k + 1, d2));
        if d2 == 0 {
            assert(paren_end(s, k + 1, d2) == Some(k + 1));
        } else {
            lemma_paren_end_step(s, k + 1, d2, y);
        }
    }
}

/// An annotation that starts inside another ends inside it too.
proof fn lemma_annotation_nested(s: Seq<char>, i: int, a: int)
    requires
        annotation_end(s, i) is Some,
        annotation_end(s, a) is Some,
        i < a < annotation_end(s, i).unwrap(),
    ensures
        annotation_end(s, a).unwrap() <= annotation_end(s, i).unwrap(),
{
    lemma_word_end_bounds(s, i + 1);
    lemma_word_end_bounds(s, a + 1);
    let ji = word_end(s, i + 1);
    let ja = word_end(s, a + 1);
    let e = annotation_end(s, i).unwrap();
    lemma_paren_end_bounds(s, ji + 1, 1);
    lemma_paren_end_bounds(s, ja + 1, 1);
    // `a` is an `@`, so it is not among the identifier characters of `i`'s name
    assert(a > ji) by {
        if a < ji {
            assert(spec_is_word(s[a]));
        }
    }
    // the closing parenthesis of `i` is at `e - 1`; `a`'s name cannot run over it
    assert(s[e - 1] == ')') by {
        lemma_paren_end_closes(s, ji + 1, 1);
    }
    assert(ja < e - 1) by {
        if ja >= e - 1 {
            if ja > e - 1 {
                assert(spec_is_word(s[e - 1]));
            }
        }
    }
    lemma_paren_end_step(s, ji + 1, 1, ja + 1);
    let big = choose|big: nat| big >= 1 && #[trigger] paren_end(s, ja + 1, big) == paren_end(s, ji + 1, 1);
    lemma_paren_end_mono(s, ja + 1, 1, big);
}

/// The character just before where a closing is found is `)`.
proof fn lemma_paren_end_closes(s: Seq<char>, k: int, d: nat)
    requires
        d >= 1,
        paren_end(s, k, d) is Some,
    ensures
        paren_end(s, k, d).unwrap() >= 1,
        s[paren_end(s, k, d).unwrap() - 1] == ')',
    decreases s.len() - k,
{
    lemma_paren_end_bounds(s, k, d);
    if s[k] == '(' {
        lemma_paren_end_closes(s, k + 1, d + 1);
    } else if s[k] == ')' {
        if d > 1 {
            lemma_paren_end_closes(s, k + 1, (d - 1) as nat);
        }
    } else {
        lemma_paren_end_closes(s, k + 1, d);
    }
}

proof fn lemma_cover_past_annotation(s: Seq<char>, i: int, k: int)
    requires
        0 <= i,
        annotation_end(s, i) == Some(k),
        forall|p: int| i <= p < s.len() && s[p] == '@' ==> covered_from(s, i, p),
    ensures
        forall|p: int| k <= p < s.len() && s[p] == '@' ==> covered_from(s, k, p),
{
    assert forall|p: int| k <= p < s.len() && s[p] == '@' implies covered_from(s, k, p) by {
        let a = choose|a: int|
            i <= a <= p && #[trigger] annotation_end(s, a) is Some && p < annotation_end(s, a).unwrap();
        if a < k {
            if a > i {
                lemma_annotation_nested(s, i, a);
            }
            assert(false);
        }
    }
}

proof fn lemma_cover_past_char(s: Seq<char>, i: int)
    requires
        0 <= i < s.len(),
        annotation_end(s, i) is None,
        forall|p: int| i <= p < s.len() && s[p] == '@' ==> covered_from(s, i, p),
    ensures
        s[i] != '@',
        forall|p: int| i + 1 <= p < s.len() && s[p] == '@' ==> covered_from(s, i + 1, p),
{
    assert(s[i] != '@') by {
        if s[i] == '@' {
            assert(covered_from(s, i, i));
            let a = choose|a: int|
                i <= a <= i && #[trigger] annotation_end(s, a) is Some && i < annotation_end(s, a).unwrap();
            assert(a == i);
        }
    }
    assert forall|p: int| i + 1 <= p < s.len() && s[p] == '@' implies covered_from(s, i + 1, p) by {
        let a = choose|a: int|
            i <= a <= p && #[trigger] annotation_end(s, a) is Some && p < annotation_end(s, a).unwrap();
        assert(a != i);
    }
}

proof fn lemma_removal_no_at(s: Seq<char>, i: int)
    requires
        0 <= i <= s.len(),
        forall|p: int| i <= p < s.len() && s[p] == '@' ==> covered_from(s, i, p),
    ensures
        no_at_sign(removal(s, i).0),
    decreases s.len() - i,
{
    if i < s.len() {
        lemma_annotation_end_bounds(s, i);
        match annotation_end(s, i) {
            Some(k) => {
                lemma_cover_past_annotation(s, i, k);
                lemma_removal_no_at(s, k);
            },
            None => {
                lemma_cover_past_char(s, i);
                lemma_removal_no_at(s, i + 1);
                let rest = removal(s, i + 1).0;
                assert forall|p: int| 0 <= p < (seq![s[i]] + rest).len() implies (seq![s[i]] + rest)[p] != '@' by {
                    if p > 0 {
                        assert((seq![s[i]] + rest)[p] == rest[p - 1]);
                    }
                }
            },
        }
    }
}

proof fn lemma_tidy_no_at(c: Seq<char>, i: int, done: Seq<char>)
    requires
        0 <= i <= c.len(),
        no_at_sign(c),
        no_at_sign(done),
    ensures
        no_at_sign(tidy(c, i, done)),
    decreases c.len() - i,
{
    if i < c.len() {
        if spec_is_ws(c[i]) {
            lemma_ws_end_bounds(c, i);
            let j = ws_end(c, i);
            assert(no_at_sign(done.push(' '))) by {
                assert forall|p: int| 0 <= p < done.push(' ').len() implies done.push(' ')[p] != '@' by {
                    if p < done.len() {
                        assert(done.push(' ')[p] == done[p]);
                    }
                }
            }
            lemma_tidy_no_at(c, j, done.push(' '));
            lemma_tidy_no_at(c, j, done);
        } else if c[i] == ',' {
            lemma_ws_end_bounds(c, i + 1);
            let j = ws_end(c, i + 1);
            assert(no_at_sign(done.push(','))) by {
                assert forall|p: int| 0 <= p < done.push(',').len() implies done.push(',')[p] != '@' by {
                    if p < done.len() {
                        assert(done.push(',')[p] == done[p]);
                    }
                }
            }
            lemma_tidy_no_at(c, j, done);
            lemma_tidy_no_at(c, i + 1, done.push(','));
        } else {
            assert(no_at_sign(done.push(c[i]))) by {
                assert forall|p: int| 0 <= p < done.push(c[i]).len() implies done.push(c[i])[p] != '@' by {
                    if p < done.len() {
                        assert(done.push(c[i])[p] == done[p]);
                    }
                }
            }
            lemma_tidy_no_at(c, i + 1, done.push(c[i]));
        }
    }
}

proof fn lemma_removal_copies(s: Seq<char>, i: int)
    requires
        0 <= i <= s.len(),
        !removal(s, i).1,
    ensures
        removal(s, i).0 == s.subrange(i, s.len() as int),
    decreases s.len() - i,
{
    if i < s.len() {
        lemma_annotation_end_bounds(s, i);
        if annotation_end(s, i) is None {
            lemma_removal_copies(s, i + 1);
            assert(seq![s[i]] + s.subrange(i + 1, s.len() as int) =~= s.subrange(i, s.len() as int));
        }
    } else {
        assert(s.subrange(i, s.len() as int) =~= Seq::<char>::empty());
    }
}

/// When every `@` of a text starts an annotation or lies inside one, no `@`
/// is left once they are removed.
pub proof fn law_strip_leaves_no_at_sign(s: Seq<char>)
    requires
        every_at_in_annotation(s),
    ensures
        no_at_sign(strip(s)),
{
    lemma_removal_no_at(s, 0);
    let (out, stripped) = removal(s, 0);
    if stripped {
        lemma_tidy_no_at(out, 0, seq![]);
    } else {
        lemma_removal_copies(s, 0);
        assert(s.subrange(0, s.len() as int) =~= s);
    }
}

} // verus!
