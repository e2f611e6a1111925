//! Lint plugins that look for common mistakes in generated RBS text.
use vstd::prelude::*;
use crate::text::{
    trim, trim_of, starts_with, has_prefix, contains, contains_str, lines, lines_of, chars_of,
    push_all, push_str, string_of, copy_range, spec_is_word, is_word, occurs_at,
};

verus! {

broadcast use vstd::string::group_string_axioms;

/// A lint over generated RBS text. `check` reports, for each problem, the
/// method it was found in and a message.
pub trait SentinelPlugin: Send + Sync {
    fn name(&self) -> &str;

    fn check(&self, content: &str) -> Vec<(String, String)>;
}

/// `s` with every occurrence of `pat`, read from the left without overlap,
/// replaced by `rep` (`str::replace`).
pub open spec fn replace_all(s: Seq<char>, pat: Seq<char>, rep: Seq<char>) -> Seq<char>
    decreases s.len(),
{
    if s.len() == 0 || pat.len() == 0 {
        s
    } else if starts_with(s, pat) {
        rep + replace_all(s.subrange(pat.len() as int, s.len() as int), pat, rep)
    } else {
        seq![s[0]] + replace_all(s.subrange(1, s.len() as int), pat, rep)
    }
}

/// The part of `s` before its first `:` (`s.split(':').next()`).
pub open spec fn before_colon(s: Seq<char>) -> Seq<char>
    decreases s.len(),
{
    if s.len() == 0 || s[0] == ':' {
        seq![]
    } else {
        seq![s[0]] + before_colon(s.subrange(1, s.len() as int))
    }
}

/// A line that declares a method.
pub open spec fn is_def_line(line: Seq<char>) -> bool {
    starts_with(trim(line), "def "@)
}

/// The method a `def` line declares: the text before the first `:`, with
/// `def ` removed and trimmed.
pub open spec fn def_name(line: Seq<char>) -> Seq<char> {
    trim(replace_all(before_colon(line), "def "@, seq![]))
}

/// Reading the lines from `i` on, with `cur` the method the previous lines
/// were in: an issue for each line where `found` finds one, reported against
/// the method the line is in.
pub open spec fn issues_from(
    ls: Seq<Seq<char>>,
    i: int,
    cur: Seq<char>,
    found: spec_fn(Seq<char>) -> Option<Seq<char>>,
) -> Seq<(Seq<char>, Seq<char>)>
    decreases ls.len() - i,
{
    if i < 0 || i >= ls.len() {
        seq![]
    } else {
        let line = ls[i];
        let here = if is_def_line(line) {
            def_name(line)
        } else {
            cur
        };
        (match found(line) {
            Some(msg) => seq![(here, msg)],
            None => seq![],
        }) + issues_from(ls, i + 1, here, found)
    }
}

/// At most one issue per line.
pub proof fn lemma_issues_per_line(
    ls: Seq<Seq<char>>,
    i: int,
    cur: Seq<char>,
    found: spec_fn(Seq<char>) -> Option<Seq<char>>,
)
    requires
        0 <= i <= ls.len(),
    ensures
        issues_from(ls, i, cur, found).len() <= ls.len() - i,
    decreases ls.len() - i,
{
    if i < ls.len() {
        let line = ls[i];
        let here = if is_def_line(line) {
            def_name(line)
        } else {
            cur
        };
        lemma_issues_per_line(ls, i + 1, here, found);
    }
}

pub open spec fn issue_views(v: Seq<(String, String)>) -> Seq<(Seq<char>, Seq<char>)> {
    v.map_values(|p: (String, String)| (p.0@, p.1@))
}

fn replace_all_of(s: &Vec<char>, pat: &Vec<char>, rep: &Vec<char>) -> (r: Vec<char>)
    ensures
        r@ == replace_all(s@, pat@, rep@),
{
    let mut out: Vec<char> = Vec::new();
    let mut i: usize = 0;
    assert(s@.subrange(0, s@.len() as int) =~= s@);
    while i < s.len()
        invariant
            i <= s@.len(),
            replace_all(s@, pat@, rep@) == out@ + replace_all(s@.subrange(i as int, s@.len() as int), pat@, rep@),
        decreases s@.len() - i,
    {
        let ghost rest = s@.subrange(i as int, s@.len() as int);
        if pat.len() == 0 {
            let tail = copy_range(s, i, s.len());
            push_all(&mut out, &tail);
            assert(out@ + replace_all(s@.subrange(s@.len() as int, s@.len() as int), pat@, rep@) =~= out@);
            i = s.len();
        } else if crate::text::starts_with_at(s, pat, i) {
            push_all(&mut out, rep);
            assert(rest.subrange(pat@.len() as int, rest.len() as int) =~= s@.subrange(i + pat@.len(), s@.len() as int));
            i = i + pat.len();
        } else {
            out.push(s[i]);
            assert(rest.subrange(1, rest.len() as int) =~= s@.subrange(i + 1, s@.len() as int));
            assert(rest[0] == s@[i as int]);
            i = i + 1;
        }
    }
    assert(out@ + replace_all(s@.subrange(i as int, s@.len() as int), pat@, rep@) =~= out@);
    out
}

fn before_colon_of(s: &Vec<char>) -> (r: Vec<char>)
    ensures
        r@ == before_colon(s@),
{
    let mut i: usize = 0;
    while i < s.len() && s[i] != ':'
        invariant
            i <= s@.len(),
            forall|j: int| 0 <= j < i ==> s@[j] != ':',
        decreases s@.len() - i,
    {
        i = i + 1;
    }
    proof {
        lemma_before_colon(s@, i as int);
    }
    copy_range(s, 0, i)
}

proof fn lemma_before_colon(s: Seq<char>, k: int)
    requires
        0 <= k <= s.len(),
        forall|j: int| 0 <= j < k ==> s[j] != ':',
        k == s.len() || s[k] == ':',
    ensures
        before_colon(s) == s.subrange(0, k),
    decreases k,
{
    if k > 0 {
        let t = s.subrange(1, s.len() as int);
        assert forall|j: int| 0 <= j < k - 1 implies t[j] != ':' by {
            assert(t[j] == s[j + 1]);
        }
        if k < s.len() {
            assert(t[k - 1] == s[k]);
        }
        lemma_before_colon(t, k - 1);
        assert(s.subrange(0, k) =~= seq![s[0]] + t.subrange(0, k - 1));
    } else {
        assert(s.subrange(0, 0) =~= Seq::<char>::empty());
    }
}

fn def_name_of(line: &Vec<char>) -> (r: Vec<char>)
    ensures
        r@ == def_name(line@),
{
    let head = before_colon_of(line);
    let pat = chars_of("def ");
    let empty: Vec<char> = Vec::new();
    assert(empty@ =~= Seq::<char>::empty());
    let replaced = replace_all_of(&head, &pat, &empty);
    trim_of(&replaced)
}

/// The three lints.
pub enum LintKind {
    VoidArgument,
    AngleBracket,
    TypeCase,
}

pub open spec fn void_message() -> Seq<char> {
    "Uses 'void' as an argument (use '()' instead)"@
}

/// A `void` parameter: the line contains `: void ->` or `(void)`.
pub open spec fn void_issue(line: Seq<char>) -> Option<Seq<char>> {
    if contains(line, ": void ->"@) || contains(line, "(void)"@) {
        Some(void_message())
    } else {
        None
    }
}

/// The start of the identifier that ends just before `j`: identifier
/// characters and `:` walked back over.
pub open spec fn ident_start(line: Seq<char>, j: int) -> int
    decreases j,
{
    if j > 0 && (spec_is_word(line[j - 1]) || line[j - 1] == ':') {
        ident_start(line, j - 1)
    } else {
        j
    }
}

pub open spec fn is_upper(c: char) -> bool {
    'A' <= c && c <= 'Z'
}

/// Reading from index `i`, the first `Name<` written with angle brackets:
/// a `<` right after an identifier character, where the identifier (with any
/// `::` path) starts with an upper-case letter or `:`.
pub open spec fn angle_ident(line: Seq<char>, i: int) -> Option<Seq<char>>
    decreases line.len() - i,
{
    if i < 0 || i >= line.len() {
        None
    } else if line[i] == '<' && i > 0 && spec_is_word(line[i - 1]) && {
        let st = ident_start(line, i - 1);
        is_upper(line[st]) || line[st] == ':'
    } {
        Some(line.subrange(ident_start(line, i - 1), i))
    } else {
        angle_ident(line, i + 1)
    }
}

pub open spec fn angle_message(ident: Seq<char>) -> Seq<char> {
    "'"@ + ident + "<...>' uses angle brackets. RBS uses square brackets: '"@ + ident + "[...]'"@
}

/// Generic types written `Name<...>` on a line that is not a comment.
pub open spec fn angle_issue(line: Seq<char>) -> Option<Seq<char>> {
    if starts_with(trim(line), "#"@) {
        None
    } else {
        match angle_ident(line, 0) {
            Some(ident) => Some(angle_message(ident)),
            None => None,
        }
    }
}

pub open spec fn primitives() -> Seq<Seq<char>> {
    seq!["string"@, "integer"@, "boolean"@, "array"@, "hash"@]
}

/// `pat` occurs in `line` where the character after it, if any, is not an
/// identifier character: the name it ends with stands as a whole word.
pub open spec fn occurs_as_word(line: Seq<char>, pat: Seq<char>) -> bool {
    exists|i: int|
        #[trigger] occurs_at(line, pat, i) && (i + pat.len() == line.len() || !spec_is_word(
            line[i + pat.len()],
        ))
}

/// A lower-case primitive `p` written as a type: `(p)`, `[p]`, or `: p` and
/// `-> p` with no identifier character following, so that names such as
/// `string_helper` do not count.
pub open spec fn lowercase_use(line: Seq<char>, p: Seq<char>) -> bool {
    contains(line, "("@ + p + ")"@) || occurs_as_word(line, ": "@ + p) || contains(line, "["@ + p + "]"@)
        || occurs_as_word(line, "-> "@ + p)
}

fn occurs_as_word_of(s: &Vec<char>, p: &Vec<char>) -> (r: bool)
    ensures
        r == occurs_as_word(s@, p@),
{
    if p.len() > s.len() {
        assert forall|i: int| !occurs_at(s@, p@, i) by {}
        return false;
    }
    let last = s.len() - p.len();
    let mut i: usize = 0;
    loop
        invariant
            p@.len() <= s@.len(),
            last == s@.len() - p@.len(),
            i <= last,
            forall|j: int|
                0 <= j < i ==> !(#[trigger] occurs_at(s@, p@, j) && (j + p@.len() == s@.len() || !spec_is_word(
                    s@[j + p@.len()],
                ))),
        decreases last - i,
    {
        assert(s@.subrange(i as int, s@.len() as int).subrange(0, p@.len() as int) =~= s@.subrange(
            i as int,
            i + p@.len(),
        ));
        if crate::text::starts_with_at(s, p, i) {
            assert(occurs_at(s@, p@, i as int));
            let e = i + (s.len() - last);
            if e == s.len() || !is_word(s[e]) {
                return true;
            }
        }
        if i == last {
            assert forall|j: int|
                !(#[trigger] occurs_at(s@, p@, j) && (j + p@.len() == s@.len() || !spec_is_word(
                    s@[j + p@.len()],
                ))) by {
                if 0 <= j <= last {
                }
            }
            return false;
        }
        i = i + 1;
    }
}

pub open spec fn type_case_message(p: Seq<char>) -> Seq<char> {
    "Found lowercase type '"@ + p + "'. RBS requires 'String', 'Integer', 'Array', etc."@
}

/// The first primitive, in the order `string`, `integer`, `boolean`,
/// `array`, `hash`, that the line uses in lower case.
pub open spec fn type_case_from(line: Seq<char>, k: int) -> Option<Seq<char>>
    decreases primitives().len() - k,
{
    if k < 0 || k >= primitives().len() {
        None
    } else if lowercase_use(line, primitives()[k]) {
        Some(type_case_message(primitives()[k]))
    } else {
        type_case_from(line, k + 1)
    }
}

pub open spec fn find_issue(kind: LintKind, line: Seq<char>) -> Option<Seq<char>> {
    match kind {
        LintKind::VoidArgument => void_issue(line),
        LintKind::AngleBracket => angle_issue(line),
        LintKind::TypeCase => type_case_from(line, 0),
    }
}

pub open spec fn lint_fn(kind: LintKind) -> spec_fn(Seq<char>) -> Option<Seq<char>> {
    |line: Seq<char>| find_issue(kind, line)
}

fn void_issue_of(line: &Vec<char>) -> (r: Option<Vec<char>>)
    ensures
        opt_chars(r) == void_issue(line@),
{
    if contains_str(line, &chars_of(": void ->")) || contains_str(line, &chars_of("(void)")) {
        Some(chars_of("Uses 'void' as an argument (use '()' instead)"))
    } else {
        None
    }
}

pub open spec fn opt_chars(o: Option<Vec<char>>) -> Option<Seq<char>> {
    match o {
        Some(v) => Some(v@),
        None => None,
    }
}

fn ident_start_of(line: &Vec<char>, j: usize) -> (r: usize)
    requires
        j <= line@.len(),
    ensures
        r as int == ident_start(line@, j as int),
        r <= j,
{
    let mut k = j;
    while k > 0 && (is_word(line[k - 1]) || line[k - 1] == ':')
        invariant
            k <= j <= line@.len(),
            ident_start(line@, j as int) == ident_start(line@, k as int),
        decreases k,
    {
        k = k - 1;
    }
    k
}

fn angle_issue_of(line: &Vec<char>) -> (r: Option<Vec<char>>)
    ensures
        opt_chars(r) == angle_issue(line@),
{
    let trimmed = trim_of(line);
    if has_prefix(&trimmed, &chars_of("#")) {
        return None;
    }
    let mut i: usize = 0;
    while i < line.len()
        invariant
            i <= line@.len(),
            !starts_with(trim(line@), "#"@),
            angle_ident(line@, 0) == angle_ident(line@, i as int),
        decreases line@.len() - i,
    {
        if line[i] == '<' && i > 0 && is_word(line[i - 1]) {
            let st = ident_start_of(line, i - 1);
            let first = line[st];
            if ('A' <= first && first <= 'Z') || first == ':' {
                let ident = copy_range(line, st, i);
                let mut msg = chars_of("'");
                push_all(&mut msg, &ident);
                push_str(&mut msg, "<...>' uses angle brackets. RBS uses square brackets: '");
                push_all(&mut msg, &ident);
                push_str(&mut msg, "[...]'");
                assert(angle_ident(line@, i as int) == Some(ident@));
                assert(msg@ =~= angle_message(ident@));
                return Some(msg);
            }
        }
        i = i + 1;
    }
    None
}

fn type_case_of(line: &Vec<char>) -> (r: Option<Vec<char>>)
    ensures
        opt_chars(r) == type_case_from(line@, 0),
{
    let names = [chars_of("string"), chars_of("integer"), chars_of("boolean"), chars_of("array"), chars_of("hash")];
    let mut k: usize = 0;
    while k < 5
        invariant
            k <= 5,
            names@.len() == 5,
            forall|q: int| 0 <= q < 5 ==> #[trigger] names@[q]@ == primitives()[q],
            type_case_from(line@, 0) == type_case_from(line@, k as int),
        decreases 5 - k,
    {
        let p = &names[k];
        let mut a = chars_of("(");
        push_all(&mut a, p);
        push_str(&mut a, ")");
        let mut b = chars_of(": ");
        push_all(&mut b, p);
        let mut c = chars_of("[");
        push_all(&mut c, p);
        push_str(&mut c, "]");
        let mut d = chars_of("-> ");
        push_all(&mut d, p);
        if contains_str(line, &a) || occurs_as_word_of(line, &b) || contains_str(line, &c) || occurs_as_word_of(
            line,
            &d,
        ) {
            let mut msg = chars_of("Found lowercase type '");
            push_all(&mut msg, p);
            push_str(&mut msg, "'. RBS requires 'String', 'Integer', 'Array', etc.");
            return Some(msg);
        }
        k = k + 1;
    }
    None
}

fn find_issue_of(kind: &LintKind, line: &Vec<char>) -> (r: Option<Vec<char>>)
    ensures
        opt_chars(r) == find_issue(*kind, line@),
{
    match kind {
        LintKind::VoidArgument => void_issue_of(line),
        LintKind::AngleBracket => angle_issue_of(line),
        LintKind::TypeCase => type_case_of(line),
    }
}

/// Runs a lint over `content`, with `initial` the method reported before any
/// `def` line.
fn run_lint(content: &str, initial: &str, kind: LintKind) -> (r: Vec<(String, String)>)
    ensures
        issue_views(r@) == issues_from(lines(content@), 0, initial@, lint_fn(kind)),
{
    let c = chars_of(content);
    let ls = lines_of(&c);
    let ghost lv = lines(content@);
    let mut cur = chars_of(initial);
    let mut issues: Vec<(String, String)> = Vec::new();
    assert(issue_views(issues@) =~= Seq::<(Seq<char>, Seq<char>)>::empty());
    let def_kw = chars_of("def ");
    for i in 0..ls.len()
        invariant
            lv == lines(content@),
            ls@.len() == lv.len(),
            forall|k: int| 0 <= k < ls@.len() ==> #[trigger] ls@[k]@ == lv[k],
            def_kw@ == "def "@,
            issues_from(lv, 0, initial@, lint_fn(kind)) == issue_views(issues@) + issues_from(
                lv,
                i as int,
                cur@,
                lint_fn(kind),
            ),
    {
        let line = &ls[i];
        assert(lv[i as int] == line@);
        let ghost old_cur = cur@;
        let ghost prev = issue_views(issues@);
        let trimmed = trim_of(line);
        if has_prefix(&trimmed, &def_kw) {
            cur = def_name_of(line);
        }
        assert(cur@ == if is_def_line(line@) { def_name(line@) } else { old_cur });
        let found = find_issue_of(&kind, line);
        assert((lint_fn(kind))(line@) == find_issue(kind, line@));
        match found {
            Some(msg) => {
                issues.push((string_of(&cur), string_of(&msg)));
                assert(issue_views(issues@) =~= prev.push((cur@, msg@)));
                assert(issues_from(lv, i as int, old_cur, lint_fn(kind)) == seq![(cur@, msg@)] + issues_from(lv, i + 1, cur@, lint_fn(kind)));
                assert(issue_views(issues@) + issues_from(lv, i + 1, cur@, lint_fn(kind)) =~= prev + issues_from(lv, i as int, old_cur, lint_fn(kind)));
            },
            None => {
                assert(issues_from(lv, i as int, old_cur, lint_fn(kind)) =~= issues_from(lv, i + 1, cur@, lint_fn(kind)));
            },
        }
    }
    assert(issue_views(issues@) + issues_from(lv, ls@.len() as int, cur@, lint_fn(kind)) =~= issue_views(issues@));
    issues
}

/// Whether the `<` at `i` follows an identifier character, and the run of
/// identifier characters and `:` that ends just before it starts with an
/// upper-case letter or `:`.
pub open spec fn angle_at(line: Seq<char>, i: int) -> bool {
    &&& 0 < i < line.len()
    &&& line[i] == '<'
    &&& spec_is_word(line[i - 1])
    &&& (is_upper(line[ident_start(line, i - 1)]) || line[ident_start(line, i - 1)] == ':')
}

proof fn lemma_ident_start(line: Seq<char>, j: int)
    requires
        0 <= j <= line.len(),
    ensures
        0 <= ident_start(line, j) <= j,
        forall|k: int| ident_start(line, j) <= k < j ==> spec_is_word(#[trigger] line[k]) || line[k] == ':',
        ident_start(line, j) == 0 || !(spec_is_word(line[ident_start(line, j) - 1]) || line[ident_start(line, j) - 1]
            == ':'),
    decreases j,
{
    if j > 0 && (spec_is_word(line[j - 1]) || line[j - 1] == ':') {
        lemma_ident_start(line, j - 1);
    }
}

proof fn lemma_angle_ident(line: Seq<char>, i: int)
    requires
        0 <= i <= line.len(),
    ensures
        angle_ident(line, i) matches Some(id) ==> exists|k: int|
            i <= k && #[trigger] angle_at(line, k) && (forall|j: int| i <= j < k ==> !angle_at(line, j)) && id
                == line.subrange(ident_start(line, k - 1), k),
        angle_ident(line, i) is None ==> forall|k: int| i <= k ==> !#[trigger] angle_at(line, k),
    decreases line.len() - i,
{
    if i < line.len() {
        lemma_angle_ident(line, i + 1);
        if angle_at(line, i) {
            assert(forall|j: int| i <= j < i ==> !angle_at(line, j));
        } else {
            if let Some(id) = angle_ident(line, i + 1) {
                let k = choose|k: int|
                    i + 1 <= k && #[trigger] angle_at(line, k) && (forall|j: int| i + 1 <= j < k ==> !angle_at(line, j))
                        && id == line.subrange(ident_start(line, k - 1), k);
                assert(forall|j: int| i <= j < k ==> !angle_at(line, j));
            }
        }
    }
}

/// The angle-bracket lint, line by line: a comment line gives no issue;
/// any other line gives one issue exactly when some `<` follows an
/// identifier character whose run of identifier characters and `:`
/// (taken as far back as it goes) starts upper-case or with `:`; the issue
/// names the run before the first such `<`.
pub proof fn law_angle_issue_per_line(line: Seq<char>)
    ensures
        starts_with(trim(line), "#"@) ==> angle_issue(line) is None,
        !starts_with(trim(line), "#"@) ==> match angle_issue(line) {
            Some(msg) => exists|k: int|
                #[trigger] angle_at(line, k) && (forall|j: int| 0 <= j < k ==> !angle_at(line, j)) && msg
                    == angle_message(line.subrange(ident_start(line, k - 1), k)),
            None => forall|k: int| !#[trigger] angle_at(line, k),
        },
        forall|j: int|
            0 <= j <= line.len() ==> {
                let st = #[trigger] ident_start(line, j);
                &&& 0 <= st <= j
                &&& forall|k: int| st <= k < j ==> spec_is_word(#[trigger] line[k]) || line[k] == ':'
                &&& (st == 0 || !(spec_is_word(line[st - 1]) || line[st - 1] == ':'))
            },
{
    lemma_angle_ident(line, 0);
    assert forall|j: int| 0 <= j <= line.len() implies {
        let st = #[trigger] ident_start(line, j);
        &&& 0 <= st <= j
        &&& forall|k: int| st <= k < j ==> spec_is_word(#[trigger] line[k]) || line[k] == ':'
        &&& (st == 0 || !(spec_is_word(line[st - 1]) || line[st - 1] == ':'))
    } by {
        lemma_ident_start(line, j);
    }
    if !starts_with(trim(line), "#"@) {
        if angle_ident(line, 0) is None {
            assert forall|k: int| !#[trigger] angle_at(line, k) by {
                if k < 0 {
                }
            }
        }
    }
}

/// Whether `line` writes the lower-case primitive `p` as a type: `(p)`,
/// `[p]`, or `: p` or `-> p` with no identifier character following.
pub open spec fn writes_lowercase(line: Seq<char>, p: Seq<char>) -> bool {
    contains(line, "("@ + p + ")"@) || occurs_as_word(line, ": "@ + p) || contains(line, "["@ + p + "]"@)
        || occurs_as_word(line, "-> "@ + p)
}

/// The type-case lint checks exactly `string`, `integer`, `boolean`, `array`
/// and `hash`, in that order: a line gets the message naming the first of
/// them that it writes in lower case, and no message when it writes none.
pub proof fn law_type_case_primitives(line: Seq<char>)
    ensures
        type_case_from(line, 0) == (if writes_lowercase(line, "string"@) {
            Some("Found lowercase type '"@ + "string"@ + "'. RBS requires 'String', 'Integer', 'Array', etc."@)
        } else if writes_lowercase(line, "integer"@) {
            Some("Found lowercase type '"@ + "integer"@ + "'. RBS requires 'String', 'Integer', 'Array', etc."@)
        } else if writes_lowercase(line, "boolean"@) {
            Some("Found lowercase type '"@ + "boolean"@ + "'. RBS requires 'String', 'Integer', 'Array', etc."@)
        } else if writes_lowercase(line, "array"@) {
            Some("Found lowercase type '"@ + "array"@ + "'. RBS requires 'String', 'Integer', 'Array', etc."@)
        } else if writes_lowercase(line, "hash"@) {
            Some("Found lowercase type '"@ + "hash"@ + "'. RBS requires 'String', 'Integer', 'Array', etc."@)
        } else {
            None
        }),
{
    reveal_with_fuel(type_case_from, 6);
    assert(primitives()[0] == "string"@);
    assert(primitives()[1] == "integer"@);
    assert(primitives()[2] == "boolean"@);
    assert(primitives()[3] == "array"@);
    assert(primitives()[4] == "hash"@);
}

} // verus!

verus! {

/// Flags `void` used as a parameter type.
pub struct VoidArgumentPlugin;

/// Flags generic types written with angle brackets (`Array<Hash>`), which RBS
/// writes with square brackets.
pub struct AngleBracketPlugin;

/// Flags primitive types written in lower case (`string`, `integer`, ...).
pub struct TypeCasePlugin;

/// The issues a lint reports for `content`: at most one per line.
pub open spec fn lint_issues(kind: LintKind, initial: Seq<char>, content: Seq<char>) -> Seq<
    (Seq<char>, Seq<char>),
> {
    issues_from(lines(content), 0, initial, lint_fn(kind))
}

impl SentinelPlugin for VoidArgumentPlugin {
    fn name(&self) -> (r: &str)
        ensures
            r@ == "Void Argument"@,
    {
        "Void Argument"
    }

    /// Each line with `: void ->` or `(void)`, reported against the method
    /// being declared (`unknown` before the first `def`).
    fn check(&self, content: &str) -> (r: Vec<(String, String)>)
        ensures
            issue_views(r@) == lint_issues(LintKind::VoidArgument, "unknown"@, content@),
            r@.len() <= lines(content@).len(),
    {
        let r = run_lint(content, "unknown", LintKind::VoidArgument);
        proof {
            lemma_issues_per_line(lines(content@), 0, "unknown"@, lint_fn(LintKind::VoidArgument));
        }
        r
    }
}

impl SentinelPlugin for AngleBracketPlugin {
    fn name(&self) -> (r: &str)
        ensures
            r@ == "Angle Bracket"@,
    {
        "Angle Bracket"
    }

    /// The first `Name<` on each non-comment line, reported against the
    /// method being declared (`top-level` before the first `def`).
    fn check(&self, content: &str) -> (r: Vec<(String, String)>)
        ensures
            issue_views(r@) == lint_issues(LintKind::AngleBracket, "top-level"@, content@),
            r@.len() <= lines(content@).len(),
    {
        let r = run_lint(content, "top-level", LintKind::AngleBracket);
        proof {
            lemma_issues_per_line(lines(content@), 0, "top-level"@, lint_fn(LintKind::AngleBracket));
        }
        r
    }
}

impl SentinelPlugin for TypeCasePlugin {
    fn name(&self) -> (r: &str)
        ensures
            r@ == "Type Case"@,
    {
        "Type Case"
    }

    /// The first lower-case primitive on each line, reported against the
    /// method being declared (`top-level` before the first `def`).
    fn check(&self, content: &str) -> (r: Vec<(String, String)>)
        ensures
            issue_views(r@) == lint_issues(LintKind::TypeCase, "top-level"@, content@),
            r@.len() <= lines(content@).len(),
    {
        let r = run_lint(content, "top-level", LintKind::TypeCase);
        proof {
            lemma_issues_per_line(lines(content@), 0, "top-level"@, lint_fn(LintKind::TypeCase));
        }
        r
    }
}

} // verus!
