//! Layout of wide records and parameter lists: more than
//! [`MULTILINE_THRESHOLD`] top-level entries go on lines of their own.
use vstd::prelude::*;
use crate::text::{trim, trim_of, push_all, push_str, copy_range};

verus! {

broadcast use vstd::string::group_string_axioms;

/// Record types and method-parameter lists with more than this many top-level
/// entries are emitted on multiple lines.
pub const MULTILINE_THRESHOLD: usize = 3;

pub open spec fn opens(c: char) -> bool {
    c == '{' || c == '(' || c == '['
}

pub open spec fn closes(c: char) -> bool {
    c == '}' || c == ')' || c == ']'
}

/// Splitting from index `i` with `depth` brackets open, the segment `cur`
/// read so far, and the segments `acc` already complete.
pub open spec fn split_run(s: Seq<char>, i: int, depth: nat, cur: Seq<char>, acc: Seq<Seq<char>>) -> Seq<
    Seq<char>,
>
    decreases s.len() - i,
{
    if i < 0 || i >= s.len() {
        let last = trim(cur);
        if last.len() > 0 {
            acc.push(last)
        } else {
            acc
        }
    } else {
        let c = s[i];
        if opens(c) {
            split_run(s, i + 1, depth + 1, cur.push(c), acc)
        } else if closes(c) {
            split_run(s, i + 1, if depth > 0 { (depth - 1) as nat } else { 0 }, cur.push(c), acc)
        } else if c == ',' && depth == 0 {
            let seg = trim(cur);
            split_run(s, i + 1, depth, seq![], if seg.len() > 0 { acc.push(seg) } else { acc })
        } else {
            split_run(s, i + 1, depth, cur.push(c), acc)
        }
    }
}

/// The segments of `s` between commas that stand outside every bracket,
/// each trimmed, empty ones left out.
pub open spec fn split_commas(s: Seq<char>) -> Seq<Seq<char>> {
    split_run(s, 0, 0, seq![], seq![])
}

/// Each entry on a line of its own after `ind`, followed by `",\n"`.
pub open spec fn entry_lines(entries: Seq<Seq<char>>, ind: Seq<char>) -> Seq<char>
    decreases entries.len(),
{
    if entries.len() == 0 {
        seq![]
    } else {
        entry_lines(entries.drop_last(), ind) + ind + entries.last() + ",\n"@
    }
}

/// The entries of a record `{ ... }`, when `s` is one (after trimming).
pub open spec fn record_body(s: Seq<char>) -> Option<Seq<char>> {
    let t = trim(s);
    if t.len() >= 2 && t[0] == '{' && t.last() == '}' {
        Some(trim(t.subrange(1, t.len() - 1)))
    } else {
        None
    }
}

/// A record with more than [`MULTILINE_THRESHOLD`] entries laid out one entry
/// per line; anything else unchanged.
pub open spec fn format_record(s: Seq<char>, field_indent: Seq<char>, close_indent: Seq<char>) -> Seq<char> {
    match record_body(s) {
        None => s,
        Some(inner) => {
            let entries = split_commas(inner);
            if entries.len() <= MULTILINE_THRESHOLD {
                s
            } else {
                "{\n"@ + entry_lines(entries, field_indent) + close_indent + "}"@
            }
        },
    }
}

/// Reading from index `i` with `depth` brackets open, the index of the bracket
/// that brings the depth back to zero.
pub open spec fn close_index(t: Seq<char>, i: int, depth: int) -> Option<int>
    decreases t.len() - i,
{
    if i < 0 || i >= t.len() {
        None
    } else if opens(t[i]) {
        close_index(t, i + 1, depth + 1)
    } else if closes(t[i]) {
        if depth - 1 == 0 {
            Some(i)
        } else {
            close_index(t, i + 1, depth - 1)
        }
    } else {
        close_index(t, i + 1, depth)
    }
}

/// A signature `(params) rest` with more than [`MULTILINE_THRESHOLD`]
/// parameters laid out one parameter per line; anything else unchanged.
pub open spec fn format_sig(sig: Seq<char>, param_indent: Seq<char>, close_indent: Seq<char>) -> Seq<char> {
    let t = trim(sig);
    if !(t.len() > 0 && t[0] == '(') {
        sig
    } else {
        match close_index(t, 0, 0) {
            None => sig,
            Some(p) => {
                let inner = trim(t.subrange(1, p));
                let after = trim(t.subrange(p + 1, t.len() as int));
                let entries = split_commas(inner);
                if entries.len() <= MULTILINE_THRESHOLD {
                    sig
                } else {
                    "(\n"@ + entry_lines(entries, param_indent) + close_indent + ")"@ + (if after.len()
                        > 0 {
                        " "@ + after
                    } else {
                        seq![]
                    })
                }
            },
        }
    }
}

/// Splits `s` at commas outside `{}`, `()` and `[]`, trimming each segment and
/// dropping empty ones.
pub fn split_top_level_commas(s: &[char]) -> (r: Vec<Vec<char>>)
    ensures
        r@.len() == split_commas(s@).len(),
        forall|i: int| 0 <= i < r@.len() ==> #[trigger] r@[i]@ == split_commas(s@)[i],
{
    let mut result: Vec<Vec<char>> = Vec::new();
    let ghost mut acc: Seq<Seq<char>> = seq![];
    let mut depth: usize = 0;
    let mut current: Vec<char> = Vec::new();
    let mut i: usize = 0;
    while i < s.len()
        invariant
            i <= s@.len(),
            depth <= i,
            result@.len() == acc.len(),
            forall|k: int| 0 <= k < result@.len() ==> #[trigger] result@[k]@ == acc[k],
            split_commas(s@) == split_run(s@, i as int, depth as nat, current@, acc),
        decreases s@.len() - i,
    {
        let c = s[i];
        if c == '{' || c == '(' || c == '[' {
            depth = depth + 1;
            current.push(c);
        } else if c == '}' || c == ')' || c == ']' {
            depth = if depth > 0 { depth - 1 } else { 0 };
            current.push(c);
        } else if c == ',' && depth == 0 {
            let seg = trim_of(&current);
            current = Vec::new();
            if seg.len() > 0 {
                proof {
                    acc = acc.push(seg@);
                }
                result.push(seg);
            }
        } else {
            current.push(c);
        }
        i = i + 1;
    }
    let last = trim_of(&current);
    if last.len() > 0 {
        proof {
            acc = acc.push(last@);
        }
        result.push(last);
    }
    result
}

fn push_entry_lines(out: &mut Vec<char>, entries: &Vec<Vec<char>>, ind: &[char])
    ensures
        final(out)@ == old(out)@ + entry_lines(entries@.map_values(|e: Vec<char>| e@), ind@),
{
    let ghost start = out@;
    let ghost views = entries@.map_values(|e: Vec<char>| e@);
    for k in 0..entries.len()
        invariant
            views == entries@.map_values(|e: Vec<char>| e@),
            out@ == start + entry_lines(views.subrange(0, k as int), ind@),
    {
        push_all(out, ind);
        push_all(out, &entries[k]);
        push_str(out, ",\n");
        proof {
            let pre = views.subrange(0, k + 1);
            assert(pre.drop_last() =~= views.subrange(0, k as int));
            assert(pre.last() == entries@[k as int]@);
            assert(out@ =~= start + entry_lines(pre, ind@));
        }
    }
    assert(views.subrange(0, entries@.len() as int) =~= views);
}

/// When `s` is a record type `{ ... }` with more than [`MULTILINE_THRESHOLD`]
/// entries, the record with each entry on a line of its own after
/// `field_indent` and the closing brace after `close_indent`; otherwise `s`
/// unchanged.
pub fn maybe_format_record(s: &[char], field_indent: &[char], close_indent: &[char]) -> (r: Vec<char>)
    ensures
        r@ == format_record(s@, field_indent@, close_indent@),
        record_body(s@) is None ==> r@ == s@,
        record_body(s@) matches Some(inner) && split_commas(inner).len() <= MULTILINE_THRESHOLD
            ==> r@ == s@,
{
    let t = trim_of(s);
    if !(t.len() >= 2 && t[0] == '{' && t[t.len() - 1] == '}') {
        return vstd::slice::slice_to_vec(s);
    }
    let body = copy_range(&t, 1, t.len() - 1);
    let inner = trim_of(&body);
    let entries = split_top_level_commas(&inner);
    if entries.len() <= MULTILINE_THRESHOLD {
        return vstd::slice::slice_to_vec(s);
    }
    let mut out: Vec<char> = Vec::new();
    push_str(&mut out, "{\n");
    proof {
        assert(entries@.map_values(|e: Vec<char>| e@) =~= split_commas(inner@));
    }
    push_entry_lines(&mut out, &entries, field_indent);
    push_all(&mut out, close_indent);
    push_str(&mut out, "}");
    out
}

fn close_index_of(t: &[char]) -> (r: Option<usize>)
    requires
        t@.len() > 0,
        t@[0] == '(',
    ensures
        r matches Some(p) ==> close_index(t@, 0, 0) == Some(p as int) && 1 <= p < t@.len(),
        r is None ==> close_index(t@, 0, 0) is None,
{
    let mut depth: usize = 0;
    let mut i: usize = 0;
    while i < t.len()
        invariant
            i <= t@.len(),
            t@.len() > 0,
            t@[0] == '(',
            depth <= i,
            i > 0 ==> depth >= 1,
            close_index(t@, 0, 0) == close_index(t@, i as int, depth as int),
        decreases t@.len() - i,
    {
        let c = t[i];
        if c == '(' || c == '{' || c == '[' {
            depth = depth + 1;
        } else if c == ')' || c == '}' || c == ']' {
            if depth == 1 {
                return Some(i);
            }
            depth = depth - 1;
        }
        i = i + 1;
    }
    None
}

/// When `sig` starts with a parameter list `( ... )` holding more than
/// [`MULTILINE_THRESHOLD`] top-level parameters, the signature with each
/// parameter on a line of its own after `param_indent`, the closing
/// parenthesis after `close_indent` and the rest (` -> T`) after it; otherwise
/// `sig` unchanged.
pub fn maybe_format_sig(sig: &[char], param_indent: &[char], close_indent: &[char]) -> (r: Vec<char>)
    ensures
        r@ == format_sig(sig@, param_indent@, close_indent@),
        !(trim(sig@).len() > 0 && trim(sig@)[0] == '(') ==> r@ == sig@,
{
    let t = trim_of(sig);
    if !(t.len() > 0 && t[0] == '(') {
        return vstd::slice::slice_to_vec(sig);
    }
    let p = match close_index_of(&t) {
        Some(p) => p,
        None => { return vstd::slice::slice_to_vec(sig); },
    };
    let body = copy_range(&t, 1, p);
    let inner = trim_of(&body);
    let rest = copy_range(&t, p + 1, t.len());
    let after = trim_of(&rest);
    let entries = split_top_level_commas(&inner);
    if entries.len() <= MULTILINE_THRESHOLD {
        return vstd::slice::slice_to_vec(sig);
    }
    let mut out: Vec<char> = Vec::new();
    push_str(&mut out, "(\n");
    proof {
        assert(entries@.map_values(|e: Vec<char>| e@) =~= split_commas(inner@));
    }
    push_entry_lines(&mut out, &entries, param_indent);
    push_all(&mut out, close_indent);
    push_str(&mut out, ")");
    if after.len() > 0 {
        push_str(&mut out, " ");
        push_all(&mut out, &after);
    }
    proof {
        if after@.len() == 0 {
            assert(out@ =~= out@ + Seq::<char>::empty());
        }
    }
    out
}

} // verus!
