//! Character-level text helpers shared by the transpiler and the lint plugins.
//!
//! All text is handled as sequences of `char`; the specifications speak of
//! `Seq<char>`, the view of `&str`, `String` and `Vec<char>` alike.
use vstd::prelude::*;
use vstd::slice::{slice_subrange, slice_to_vec};

verus! {

broadcast use vstd::string::group_string_axioms;

/// Unicode `White_Space`, the set that `char::is_whitespace` and
/// `str::trim` use.
pub open spec fn spec_is_ws(c: char) -> bool {
    ||| ('\u{9}' <= c && c <= '\u{d}')
    ||| c == ' '
    ||| c == '\u{85}'
    ||| c == '\u{a0}'
    ||| c == '\u{1680}'
    ||| ('\u{2000}' <= c && c <= '\u{200a}')
    ||| c == '\u{2028}'
    ||| c == '\u{2029}'
    ||| c == '\u{202f}'
    ||| c == '\u{205f}'
    ||| c == '\u{3000}'
}

/// ASCII letters and digits, what `u8::is_ascii_alphanumeric` accepts.
pub open spec fn spec_is_alnum(c: char) -> bool {
    ('a' <= c && c <= 'z') || ('A' <= c && c <= 'Z') || ('0' <= c && c <= '9')
}

/// A character of an identifier: an ASCII letter or digit, or `_`.
pub open spec fn spec_is_word(c: char) -> bool {
    spec_is_alnum(c) || c == '_'
}

pub fn is_ws(c: char) -> (r: bool)
    ensures
        r == spec_is_ws(c),
{
    ('\u{9}' <= c && c <= '\u{d}') || c == ' ' || c == '\u{85}' || c == '\u{a0}' || c
        == '\u{1680}' || ('\u{2000}' <= c && c <= '\u{200a}') || c == '\u{2028}' || c
        == '\u{2029}' || c == '\u{202f}' || c == '\u{205f}' || c == '\u{3000}'
}

pub fn is_alnum(c: char) -> (r: bool)
    ensures
        r == spec_is_alnum(c),
{
    ('a' <= c && c <= 'z') || ('A' <= c && c <= 'Z') || ('0' <= c && c <= '9')
}

pub fn is_word(c: char) -> (r: bool)
    ensures
        r == spec_is_word(c),
{
    is_alnum(c) || c == '_'
}

/// The first index at or after `j` that does not hold white space.
pub open spec fn ws_end(s: Seq<char>, j: int) -> int
    decreases s.len() - j,
{
    if 0 <= j < s.len() && spec_is_ws(s[j]) {
        ws_end(s, j + 1)
    } else {
        j
    }
}

pub proof fn lemma_ws_end_bounds(s: Seq<char>, j: int)
    ensures
        j >= 0 ==> j <= ws_end(s, j),
        0 <= j <= s.len() ==> ws_end(s, j) <= s.len(),
        0 <= j ==> forall|k: int| j <= k < ws_end(s, j) ==> spec_is_ws(#[trigger] s[k]),
        0 <= j < s.len() && spec_is_ws(s[j]) ==> j < ws_end(s, j),
    decreases s.len() - j,
{
    if 0 <= j < s.len() && spec_is_ws(s[j]) {
        lemma_ws_end_bounds(s, j + 1);
    }
}

/// `s` without its leading white space.
pub open spec fn trim_start(s: Seq<char>) -> Seq<char>
    decreases s.len(),
{
    if s.len() > 0 && spec_is_ws(s[0]) {
        trim_start(s.subrange(1, s.len() as int))
    } else {
        s
    }
}

/// `s` without its trailing white space.
pub open spec fn trim_end(s: Seq<char>) -> Seq<char>
    decreases s.len(),
{
    if s.len() > 0 && spec_is_ws(s.last()) {
        trim_end(s.drop_last())
    } else {
        s
    }
}

/// `s` without leading and trailing white space (`str::trim`).
pub open spec fn trim(s: Seq<char>) -> Seq<char> {
    trim_end(trim_start(s))
}

pub open spec fn starts_with(s: Seq<char>, p: Seq<char>) -> bool {
    p.len() <= s.len() && s.subrange(0, p.len() as int) == p
}

pub open spec fn ends_with(s: Seq<char>, p: Seq<char>) -> bool {
    p.len() <= s.len() && s.subrange(s.len() - p.len(), s.len() as int) == p
}

/// `str::strip_prefix`.
pub open spec fn strip_prefix(s: Seq<char>, p: Seq<char>) -> Option<Seq<char>> {
    if starts_with(s, p) {
        Some(s.subrange(p.len() as int, s.len() as int))
    } else {
        None
    }
}

/// `p` occurs in `s` starting at index `i`.
pub open spec fn occurs_at(s: Seq<char>, p: Seq<char>, i: int) -> bool {
    0 <= i && i + p.len() <= s.len() && s.subrange(i, i + p.len()) == p
}

/// `str::contains` with a string pattern.
pub open spec fn contains(s: Seq<char>, p: Seq<char>) -> bool {
    exists|i: int| occurs_at(s, p, i)
}

/// Two spaces per level of nesting.
pub open spec fn indent(level: nat) -> Seq<char> {
    Seq::new(2 * level, |_i: int| ' ')
}

/// The lines of `s` as `str::lines` yields them: split after each `'\n'`,
/// with that `'\n'` and a `'\r'` just before it removed; a final line ending
/// yields no extra empty line.
pub open spec fn lines(s: Seq<char>) -> Seq<Seq<char>>
    decreases s.len(),
{
    if s.len() == 0 {
        seq![]
    } else {
        proof {
            lemma_first_index_of(s, '\n');
        }
        match first_index_of(s, '\n') {
            None => seq![s],
            Some(k) => {
                let line = s.subrange(0, k);
                let line = if line.len() > 0 && line.last() == '\r' {
                    line.drop_last()
                } else {
                    line
                };
                seq![line] + lines(s.subrange(k + 1, s.len() as int))
            },
        }
    }
}

/// The index of the first occurrence of `c` in `s`.
pub open spec fn first_index_of(s: Seq<char>, c: char) -> Option<int>
    decreases s.len(),
{
    if s.len() == 0 {
        None
    } else if s[0] == c {
        Some(0)
    } else {
        match first_index_of(s.subrange(1, s.len() as int), c) {
            Some(k) => Some(k + 1),
            None => None,
        }
    }
}

pub proof fn lemma_first_index_of(s: Seq<char>, c: char)
    ensures
        first_index_of(s, c) matches Some(k) ==> 0 <= k < s.len() && s[k] == c && forall|
            j: int,
        | 0 <= j < k ==> s[j] != c,
        first_index_of(s, c) is None ==> forall|j: int| 0 <= j < s.len() ==> s[j] != c,
    decreases s.len(),
{
    if s.len() > 0 && s[0] != c {
        lemma_first_index_of(s.subrange(1, s.len() as int), c);
        let t = s.subrange(1, s.len() as int);
        assert forall|j: int| 1 <= j < s.len() implies s[j] == t[j - 1] by {}
    }
}

/// The characters of a string slice, in order.
pub fn chars_of(s: &str) -> (v: Vec<char>)
    ensures
        v@ == s@,
{
    let mut v: Vec<char> = Vec::new();
    for c in it: s.chars()
        invariant
            v@ == it.seq().take(it.index() as int),
            it.seq() == s@,
    {
        v.push(c);
    }
    v
}

/// Collects characters into a `String` (`FromIterator<char> for String`),
/// which appends them in order.
#[verifier::external_body]
pub fn string_of(chars: &[char]) -> (s: String)
    ensures
        s@ == chars@,
{
    chars.iter().collect()
}

/// A copy of `s[a..b]`.
pub fn copy_range(s: &[char], a: usize, b: usize) -> (r: Vec<char>)
    requires
        a <= b <= s@.len(),
    ensures
        r@ == s@.subrange(a as int, b as int),
{
    slice_to_vec(slice_subrange(s, a, b))
}

/// Appends the characters of `t` to `v`.
pub fn push_all(v: &mut Vec<char>, t: &[char])
    ensures
        final(v)@ == old(v)@ + t@,
{
    let ghost start = v@;
    for i in 0..t.len()
        invariant
            v@ == start + t@.subrange(0, i as int),
    {
        v.push(t[i]);
        assert(start + t@.subrange(0, i + 1) =~= start + t@.subrange(0, i as int) + seq![t@[i as int]]);
    }
    assert(t@.subrange(0, t@.len() as int) =~= t@);
}

/// Appends the characters of a string literal to `v`.
pub fn push_str(v: &mut Vec<char>, t: &str)
    ensures
        final(v)@ == old(v)@ + t@,
{
    let c = chars_of(t);
    push_all(v, &c);
}

pub fn starts_with_at(s: &[char], p: &[char], i: usize) -> (r: bool)
    requires
        i <= s@.len(),
    ensures
        r == starts_with(s@.subrange(i as int, s@.len() as int), p@),
{
    let ghost t = s@.subrange(i as int, s@.len() as int);
    if p.len() > s.len() - i {
        return false;
    }
    let mut k: usize = 0;
    while k < p.len()
        invariant
            i + p@.len() <= s@.len(),
            k <= p@.len(),
            t == s@.subrange(i as int, s@.len() as int),
            s@.len() <= usize::MAX,
            forall|j: int| 0 <= j < k ==> s@[i + j] == p@[j],
        decreases p@.len() - k,
    {
        if s[i + k] != p[k] {
            assert(t.subrange(0, p@.len() as int)[k as int] != p@[k as int]);
            return false;
        }
        k = k + 1;
    }
    assert(t.subrange(0, p@.len() as int) =~= p@);
    true
}

pub fn has_prefix(s: &[char], p: &[char]) -> (r: bool)
    ensures
        r == starts_with(s@, p@),
{
    let r = starts_with_at(s, p, 0);
    assert(s@.subrange(0, s@.len() as int) =~= s@);
    r
}

pub fn has_suffix(s: &[char], p: &[char]) -> (r: bool)
    ensures
        r == ends_with(s@, p@),
{
    if p.len() > s.len() {
        return false;
    }
    let i = s.len() - p.len();
    let r = starts_with_at(s, p, i);
    assert(s@.subrange(i as int, s@.len() as int).subrange(0, p@.len() as int) =~= s@.subrange(
        i as int,
        s@.len() as int,
    ));
    r
}

/// `str::strip_prefix`.
pub fn strip_prefix_of(s: &[char], p: &[char]) -> (r: Option<Vec<char>>)
    ensures
        r matches Some(v) ==> strip_prefix(s@, p@) == Some(v@),
        r is None ==> strip_prefix(s@, p@) is None,
{
    if has_prefix(s, p) {
        Some(copy_range(s, p.len(), s.len()))
    } else {
        None
    }
}

/// `str::contains` with a string pattern.
pub fn contains_str(s: &[char], p: &[char]) -> (r: bool)
    ensures
        r == contains(s@, p@),
{
    if p.len() > s.len() {
        assert forall|i: int| !occurs_at(s@, p@, i) by {}
        return false;
    }
    let last = s.len() - p.len();
    let mut i: usize = 0;
    loop
        invariant
            p@.len() <= s@.len(),
            last == s@.len() - p@.len(),
            i <= last,
            forall|j: int| 0 <= j < i ==> !occurs_at(s@, p@, j),
        decreases last - i,
    {
        assert(s@.subrange(i as int, s@.len() as int).subrange(0, p@.len() as int) =~= s@.subrange(
            i as int,
            i + p@.len(),
        ));
        if starts_with_at(s, p, i) {
            assert(occurs_at(s@, p@, i as int));
            return true;
        }
        if i == last {
            assert forall|j: int| !occurs_at(s@, p@, j) by {
                if 0 <= j <= last {
                }
            }
            return false;
        }
        i = i + 1;
    }
}

pub proof fn lemma_trim_start_skip(s: Seq<char>, i: int)
    requires
        0 <= i <= s.len(),
        forall|j: int| 0 <= j < i ==> spec_is_ws(s[j]),
    ensures
        trim_start(s) == trim_start(s.subrange(i, s.len() as int)),
    decreases i,
{
    if i > 0 {
        let t = s.subrange(1, s.len() as int);
        assert forall|j: int| 0 <= j < i - 1 implies spec_is_ws(t[j]) by {
            assert(t[j] == s[j + 1]);
        }
        lemma_trim_start_skip(t, i - 1);
        assert(t.subrange(i - 1, t.len() as int) =~= s.subrange(i, s.len() as int));
    } else {
        assert(s.subrange(0, s.len() as int) =~= s);
    }
}

pub proof fn lemma_trim_end_take(s: Seq<char>, i: int)
    requires
        0 <= i <= s.len(),
        forall|j: int| i <= j < s.len() ==> spec_is_ws(s[j]),
    ensures
        trim_end(s) == trim_end(s.subrange(0, i)),
    decreases s.len() - i,
{
    if i < s.len() {
        let t = s.drop_last();
        lemma_trim_end_take(t, i);
        assert(t.subrange(0, i) =~= s.subrange(0, i));
    } else {
        assert(s.subrange(0, s.len() as int) =~= s);
    }
}

/// `str::trim`.
pub fn trim_of(s: &[char]) -> (r: Vec<char>)
    ensures
        r@ == trim(s@),
{
    let mut a: usize = 0;
    while a < s.len() && is_ws(s[a])
        invariant
            a <= s@.len(),
            forall|j: int| 0 <= j < a ==> spec_is_ws(s@[j]),
        decreases s@.len() - a,
    {
        a = a + 1;
    }
    proof {
        lemma_trim_start_skip(s@, a as int);
    }
    let ghost t = s@.subrange(a as int, s@.len() as int);
    assert(trim_start(t) == t);
    let mut b: usize = s.len();
    while b > a && is_ws(s[b - 1])
        invariant
            a <= b <= s@.len(),
            forall|j: int| b <= j < s@.len() ==> spec_is_ws(s@[j]),
        decreases b,
    {
        b = b - 1;
    }
    proof {
        assert forall|j: int| b - a <= j < t.len() implies spec_is_ws(t[j]) by {
            assert(t[j] == s@[a + j]);
        }
        lemma_trim_end_take(t, b - a);
        let u = t.subrange(0, b - a);
        assert(u =~= s@.subrange(a as int, b as int));
        if u.len() > 0 {
            assert(u.last() == s@[b - 1]);
        }
        assert(trim_end(u) == u);
    }
    copy_range(s, a, b)
}

/// `"  "` repeated `level` times.
pub fn indent_of(level: usize) -> (r: Vec<char>)
    ensures
        r@ == indent(level as nat),
{
    let mut r: Vec<char> = Vec::new();
    for i in 0..level
        invariant
            r@ =~= Seq::new(2 * i as nat, |_i: int| ' '),
    {
        r.push(' ');
        r.push(' ');
    }
    r
}

/// `str::lines`.
pub fn lines_of(s: &[char]) -> (r: Vec<Vec<char>>)
    ensures
        r@.len() == lines(s@).len(),
        forall|i: int| 0 <= i < r@.len() ==> #[trigger] r@[i]@ == lines(s@)[i],
{
    let mut r: Vec<Vec<char>> = Vec::new();
    let mut start: usize = 0;
    let ghost mut acc: Seq<Seq<char>> = seq![];
    proof {
        assert(s@.subrange(0, s@.len() as int) =~= s@);
    }
    while start < s.len()
        invariant
            start <= s@.len(),
            r@.len() == acc.len(),
            forall|i: int| 0 <= i < r@.len() ==> #[trigger] r@[i]@ == acc[i],
            acc + lines(s@.subrange(start as int, s@.len() as int)) == lines(s@),
        decreases s@.len() - start,
    {
        let ghost rest = s@.subrange(start as int, s@.len() as int);
        let mut k: usize = start;
        while k < s.len() && s[k] != '\n'
            invariant
                start <= k <= s@.len(),
                forall|j: int| start <= j < k ==> s@[j] != '\n',
            decreases s@.len() - k,
        {
            k = k + 1;
        }
        proof {
            lemma_first_index_of(rest, '\n');
            assert forall|j: int| 0 <= j < k - start implies rest[j] != '\n' by {
                assert(rest[j] == s@[start + j]);
            }
        }
        let mut end: usize = k;
        if k < s.len() && end > start && s[end - 1] == '\r' {
            end = end - 1;
        }
        let line = copy_range(s, start, end);
        proof {
            if k < s.len() {
                assert(rest[k - start] == '\n');
                assert(first_index_of(rest, '\n') == Some((k - start) as int)) by {
                    match first_index_of(rest, '\n') {
                        Some(m) => {
                            if m < k - start {
                                assert(rest[m] == s@[start + m]);
                            }
                            if m > k - start {
                            }
                        },
                        None => {},
                    }
                }
                let l0 = rest.subrange(0, k - start);
                assert(l0 =~= s@.subrange(start as int, k as int));
                if l0.len() > 0 && l0.last() == '\r' {
                    assert(line@ =~= l0.drop_last());
                } else {
                    assert(line@ =~= l0);
                }
                assert(rest.subrange(k - start + 1, rest.len() as int) =~= s@.subrange(
                    k + 1,
                    s@.len() as int,
                ));
            } else {
                assert(first_index_of(rest, '\n') is None) by {
                    match first_index_of(rest, '\n') {
                        Some(m) => {
                            assert(rest[m] == s@[start + m]);
                        },
                        None => {},
                    }
                }
                assert(line@ =~= rest);
                assert(lines(rest) == seq![rest]);
            }
        }
        r.push(line);
        proof {
            acc = acc.push(line@);
        }
        if k < s.len() {
            start = k + 1;
        } else {
            start = s.len();
            proof {
                assert(acc + lines(s@.subrange(start as int, s@.len() as int)) =~= acc);
            }
        }
    }
    proof {
        assert(lines(s@.subrange(start as int, s@.len() as int)) == Seq::<Seq<char>>::empty());
        assert(acc + Seq::<Seq<char>>::empty() =~= acc);
    }
    r
}


/// The first index at or after `j` that holds white space.
pub open spec fn non_ws_end(s: Seq<char>, j: int) -> int
    decreases s.len() - j,
{
    if 0 <= j < s.len() && !spec_is_ws(s[j]) {
        non_ws_end(s, j + 1)
    } else {
        j
    }
}

pub proof fn lemma_non_ws_end_bounds(s: Seq<char>, j: int)
    ensures
        j >= 0 ==> j <= non_ws_end(s, j),
        0 <= j <= s.len() ==> non_ws_end(s, j) <= s.len(),
        0 <= j < s.len() && !spec_is_ws(s[j]) ==> j < non_ws_end(s, j),
    decreases s.len() - j,
{
    if 0 <= j < s.len() && !spec_is_ws(s[j]) {
        lemma_non_ws_end_bounds(s, j + 1);
    }
}

/// The first white-space separated word of `s` (`split_whitespace().next()`).
pub open spec fn first_word(s: Seq<char>) -> Option<Seq<char>> {
    let a = ws_end(s, 0);
    if a < s.len() {
        Some(s.subrange(a, non_ws_end(s, a)))
    } else {
        None
    }
}

pub fn first_word_of(s: &[char]) -> (r: Option<Vec<char>>)
    ensures
        r matches Some(w) ==> first_word(s@) == Some(w@),
        r is None ==> first_word(s@) is None,
{
    proof {
        lemma_ws_end_bounds(s@, 0);
    }
    let mut a: usize = 0;
    while a < s.len() && is_ws(s[a])
        invariant
            a <= s@.len(),
            ws_end(s@, 0) == ws_end(s@, a as int),
        decreases s@.len() - a,
    {
        a = a + 1;
    }
    if a >= s.len() {
        return None;
    }
    proof {
        lemma_non_ws_end_bounds(s@, a as int);
    }
    let mut b: usize = a;
    while b < s.len() && !is_ws(s[b])
        invariant
            a <= b <= s@.len(),
            non_ws_end(s@, a as int) == non_ws_end(s@, b as int),
        decreases s@.len() - b,
    {
        b = b + 1;
    }
    Some(copy_range(s, a, b))
}

/// Whether two texts are equal.
pub fn same_text(a: &[char], b: &[char]) -> (r: bool)
    ensures
        r == (a@ == b@),
{
    if a.len() != b.len() {
        return false;
    }
    let mut i: usize = 0;
    while i < a.len()
        invariant
            a@.len() == b@.len(),
            i <= a@.len(),
            forall|j: int| 0 <= j < i ==> a@[j] == b@[j],
        decreases a@.len() - i,
    {
        if a[i] != b[i] {
            return false;
        }
        i = i + 1;
    }
    assert(a@ =~= b@);
    true
}

/// The views of a list of texts.
pub open spec fn views(v: Seq<Vec<char>>) -> Seq<Seq<char>> {
    v.map_values(|x: Vec<char>| x@)
}

/// Whether `x` is one of the texts in `v`.
pub fn list_contains(v: &Vec<Vec<char>>, x: &[char]) -> (r: bool)
    ensures
        r == views(v@).contains(x@),
{
    let mut i: usize = 0;
    while i < v.len()
        invariant
            i <= v@.len(),
            forall|j: int| 0 <= j < i ==> v@[j]@ != x@,
        decreases v@.len() - i,
    {
        if same_text(&v[i], x) {
            assert(views(v@)[i as int] == x@);
            return true;
        }
        i = i + 1;
    }
    assert forall|j: int| 0 <= j < views(v@).len() implies views(v@)[j] != x@ by {
        assert(views(v@)[j] == v@[j]@);
    }
    false
}

} // verus!
