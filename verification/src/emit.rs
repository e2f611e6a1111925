//! Writing the RBS text for what a file declares.
use vstd::prelude::*;
use crate::text::{indent, indent_of, occurs_at, trim, trim_of, push_all, push_str, copy_range, chars_of, views};
use crate::format::{format_record, format_sig, maybe_format_record, maybe_format_sig};
use crate::structure::{ClassInfo, InfoView, Members, MembersView, SubModule, sub_views, pair_views, triple_views, first_occurrence, lemma_first_occurrence};

verus! {

broadcast use vstd::string::group_string_axioms;

pub open spec fn header() -> Seq<char> {
    "# Generated by Sentinel - Do not edit manually\n\n"@
}

/// A type alias line's text: when the definition is a record after ` = `,
/// laid out by [`format_record`] with fields at `ind` plus two spaces and the
/// closing brace at `ind`.
pub open spec fn alias_text(alias: Seq<char>, ind: Seq<char>) -> Seq<char> {
    match first_occurrence(alias, " = "@) {
        Some(p) => alias.subrange(0, p + 3) + format_record(
            trim(alias.subrange(p + 3, alias.len() as int)),
            ind + "  "@,
            ind,
        ),
        None => alias,
    }
}

pub open spec fn alias_lines(aliases: Seq<Seq<char>>, ind: Seq<char>) -> Seq<char>
    decreases aliases.len(),
{
    if aliases.len() == 0 {
        seq![]
    } else {
        alias_lines(aliases.drop_last(), ind) + ind + alias_text(aliases.last(), ind) + "\n"@
    }
}

pub open spec fn attr_lines(attrs: Seq<(Seq<char>, Seq<char>, Seq<char>)>, ind: Seq<char>) -> Seq<char>
    decreases attrs.len(),
{
    if attrs.len() == 0 {
        seq![]
    } else {
        let a = attrs.last();
        attr_lines(attrs.drop_last(), ind) + ind + a.0 + " "@ + a.1 + ": "@ + a.2 + "\n"@
    }
}

/// `def <prefix><name>: <signature>` lines, signatures laid out by
/// [`format_sig`] with parameters at `ind` plus two spaces.
pub open spec fn def_lines(ms: Seq<(Seq<char>, Seq<char>)>, prefix: Seq<char>, ind: Seq<char>) -> Seq<char>
    decreases ms.len(),
{
    if ms.len() == 0 {
        seq![]
    } else {
        let m = ms.last();
        def_lines(ms.drop_last(), prefix, ind) + ind + "def "@ + prefix + m.0 + ": "@ + format_sig(
            m.1,
            ind + "  "@,
            ind,
        ) + "\n"@
    }
}

/// The members at indentation `ind`: type aliases, attributes, class
/// methods, then instance methods.
pub open spec fn member_lines(m: MembersView, ind: Seq<char>) -> Seq<char> {
    alias_lines(m.type_aliases, ind) + attr_lines(m.attributes, ind) + def_lines(
        m.self_methods,
        "self."@,
        ind,
    ) + def_lines(m.methods, seq![], ind)
}

pub open spec fn sub_lines(subs: Seq<(Seq<char>, MembersView)>, ind: Seq<char>) -> Seq<char>
    decreases subs.len(),
{
    if subs.len() == 0 {
        seq![]
    } else {
        let s = subs.last();
        sub_lines(subs.drop_last(), ind) + ind + "module "@ + s.0 + "\n"@ + member_lines(
            s.1,
            ind + "  "@,
        ) + ind + "end\n"@
    }
}

pub open spec fn module_lines(mods: Seq<Seq<char>>) -> Seq<char>
    decreases mods.len(),
{
    if mods.len() == 0 {
        seq![]
    } else {
        module_lines(mods.drop_last()) + indent((mods.len() - 1) as nat) + "module "@ + mods.last()
            + "\n"@
    }
}

/// `end` lines closing `n` modules, innermost first.
pub open spec fn end_lines(n: nat) -> Seq<char>
    decreases n,
{
    if n == 0 {
        seq![]
    } else {
        indent((n - 1) as nat) + "end\n"@ + end_lines((n - 1) as nat)
    }
}

/// ` < Parent` after a class name, when superclasses are written and the
/// class has a plain constant path as its superclass; modules get none.
pub open spec fn parent_text(info: InfoView, emit_superclasses: bool) -> Seq<char> {
    if emit_superclasses && !info.is_module && info.superclass is Some {
        " < "@ + info.superclass.unwrap()
    } else {
        seq![]
    }
}

/// The RBS text for what a file declares: the header, the enclosing modules,
/// the class or module with its members and nested modules, and the `end`s.
pub open spec fn render(info: InfoView, emit_superclasses: bool) -> Seq<char> {
    let depth = info.modules.len();
    let ci = indent(depth);
    let mi = indent(depth + 1);
    header() + module_lines(info.modules) + ci + (if info.is_module {
        "module"@
    } else {
        "class"@
    }) + " "@ + info.class_name + parent_text(info, emit_superclasses) + "\n"@ + member_lines(info.m, mi)
        + sub_lines(info.subs, mi) + ci + "end\n"@ + end_lines(depth)
}

/// A module is never written with a parent, whatever the setting.
pub proof fn law_modules_never_get_parent(info: InfoView)
    requires
        info.is_module,
    ensures
        render(info, true) == render(info, false),
{
}

/// With superclasses off, the text does not depend on the superclass: the
/// class is written as if it had none.
pub proof fn law_parent_only_when_enabled(info: InfoView)
    ensures
        render(info, false) == render(InfoView { superclass: None, ..info }, true),
{
}

/// With superclasses on, a class with a plain parent is written as
/// `class Name < Parent`, and all else is as with the setting off.
pub proof fn law_parent_written_on_class_line(info: InfoView, parent: Seq<char>)
    requires
        !info.is_module,
        info.superclass == Some(parent),
    ensures
        ({
            let depth = info.modules.len();
            let before = header() + module_lines(info.modules) + indent(depth) + "class"@ + " "@ + info.class_name;
            &&& render(info, false) == before + render(info, false).subrange(before.len() as int, render(info, false).len() as int)
            &&& render(info, true) == before + " < "@ + parent + render(info, false).subrange(before.len() as int, render(info, false).len() as int)
        }),
{
    let depth = info.modules.len();
    let before = header() + module_lines(info.modules) + indent(depth) + "class"@ + " "@ + info.class_name;
    let after = "\n"@ + member_lines(info.m, indent(depth + 1)) + sub_lines(info.subs, indent(depth + 1)) + indent(depth) + "end\n"@ + end_lines(depth);
    assert(render(info, false) =~= before + after);
    assert(render(info, true) =~= before + " < "@ + parent + after);
    assert(render(info, false).subrange(before.len() as int, render(info, false).len() as int) =~= after);
}

fn find_eq_sign(s: &[char]) -> (r: Option<usize>)
    ensures
        r matches Some(p) ==> first_occurrence(s@, " = "@) == Some(p as int) && p + 3 <= s@.len(),
        r is None ==> first_occurrence(s@, " = "@) is None,
{
    proof {
        reveal_strlit(" = ");
        lemma_first_occurrence(s@, " = "@);
    }
    let pat = chars_of(" = ");
    if s.len() < 3 {
        assert forall|j: int| !occurs_at(s@, " = "@, j) by {}
        return None;
    }
    let last = s.len() - 3;
    let mut i: usize = 0;
    loop
        invariant
            pat@ == " = "@,
            " = "@.len() == 3,
            last + 3 == s@.len(),
            i <= last,
            forall|j: int| 0 <= j < i ==> !occurs_at(s@, " = "@, j),
            first_occurrence(s@, " = "@) matches Some(k) ==> occurs_at(s@, " = "@, k) && forall|j: int|
                0 <= j < k ==> !occurs_at(s@, " = "@, j),
            first_occurrence(s@, " = "@) is None ==> forall|j: int| !occurs_at(s@, " = "@, j),
        decreases last - i,
    {
        assert(s@.subrange(i as int, s@.len() as int).subrange(0, 3) =~= s@.subrange(i as int, i + 3));
        if crate::text::starts_with_at(s, &pat, i) {
            assert(occurs_at(s@, " = "@, i as int));
            assert(first_occurrence(s@, " = "@) == Some(i as int)) by {
                match first_occurrence(s@, " = "@) {
                    Some(m) => {
                        if m < i {}
                        if m > i {}
                    },
                    None => {},
                }
            }
            return Some(i);
        }
        if i == last {
            assert forall|j: int| !occurs_at(s@, " = "@, j) by {
                if 0 <= j && j + 3 <= s@.len() {
                    assert(j <= i);
                }
            }
            assert(first_occurrence(s@, " = "@) is None) by {
                match first_occurrence(s@, " = "@) { Some(_) => {}, None => {} }
            }
            return None;
        }
        i = i + 1;
    }
}

fn push_alias_lines(out: &mut Vec<char>, aliases: &Vec<Vec<char>>, ind: &Vec<char>)
    ensures
        final(out)@ == old(out)@ + alias_lines(views(aliases@), ind@),
{
    let ghost start = out@;
    let ghost av = views(aliases@);
    let mut field_ind = vstd::slice::slice_to_vec(ind.as_slice());
    push_str(&mut field_ind, "  ");
    for k in 0..aliases.len()
        invariant
            av == views(aliases@),
            field_ind@ == ind@ + "  "@,
            out@ == start + alias_lines(av.subrange(0, k as int), ind@),
    {
        let alias = &aliases[k];
        assert(av[k as int] == alias@);
        push_all(out, ind);
        let alias_len = alias.len();
        match find_eq_sign(alias.as_slice()) {
            Some(p) => {
                assert(p + 3 <= alias@.len());
                let lhs = copy_range(alias, 0, p + 3);
                let rhs_raw = copy_range(alias, p + 3, alias.len());
                let rhs = trim_of(&rhs_raw);
                let formatted = maybe_format_record(&rhs, &field_ind, ind);
                push_all(out, &lhs);
                push_all(out, &formatted);
            },
            None => {
                push_all(out, alias);
            },
        }
        push_str(out, "\n");
        proof {
            let pre = av.subrange(0, k + 1);
            assert(pre.drop_last() =~= av.subrange(0, k as int));
            assert(pre.last() == alias@);
            assert(out@ =~= start + alias_lines(pre, ind@));
        }
    }
    assert(av.subrange(0, av.len() as int) =~= av);
}

fn push_attr_lines(out: &mut Vec<char>, attrs: &Vec<(Vec<char>, Vec<char>, Vec<char>)>, ind: &Vec<char>)
    ensures
        final(out)@ == old(out)@ + attr_lines(triple_views(attrs@), ind@),
{
    let ghost start = out@;
    let ghost av = triple_views(attrs@);
    for k in 0..attrs.len()
        invariant
            av == triple_views(attrs@),
            out@ == start + attr_lines(av.subrange(0, k as int), ind@),
    {
        let a = &attrs[k];
        push_all(out, ind);
        push_all(out, &a.0);
        push_str(out, " ");
        push_all(out, &a.1);
        push_str(out, ": ");
        push_all(out, &a.2);
        push_str(out, "\n");
        proof {
            let pre = av.subrange(0, k + 1);
            assert(pre.drop_last() =~= av.subrange(0, k as int));
            assert(pre.last() == (a.0@, a.1@, a.2@));
            assert(out@ =~= start + attr_lines(pre, ind@));
        }
    }
    assert(av.subrange(0, av.len() as int) =~= av);
}

fn def_line(name: &Vec<char>, sig: &Vec<char>, class_method: bool, ind: &Vec<char>, param_ind: &Vec<char>) -> (r: Vec<char>)
    requires
        param_ind@ == ind@ + "  "@,
    ensures
        r@ == ind@ + "def "@ + (if class_method { "self."@ } else { Seq::<char>::empty() }) + name@ + ": "@
            + format_sig(sig@, ind@ + "  "@, ind@) + "\n"@,
{
    let mut out: Vec<char> = Vec::new();
    push_all(&mut out, ind);
    push_str(&mut out, "def ");
    if class_method {
        push_str(&mut out, "self.");
    }
    push_all(&mut out, name);
    push_str(&mut out, ": ");
    let formatted = maybe_format_sig(sig, param_ind, ind);
    push_all(&mut out, &formatted);
    push_str(&mut out, "\n");
    proof {
        if !class_method {
            assert(ind@ + "def "@ + Seq::<char>::empty() =~= ind@ + "def "@);
        }
    }
    assert(out@ =~= ind@ + "def "@ + (if class_method { "self."@ } else { Seq::<char>::empty() }) + name@ + ": "@
        + format_sig(sig@, ind@ + "  "@, ind@) + "\n"@);
    out
}

fn push_def_lines(out: &mut Vec<char>, ms: &Vec<(Vec<char>, Vec<char>)>, class_method: bool, ind: &Vec<char>)
    ensures
        final(out)@ == old(out)@ + def_lines(pair_views(ms@), if class_method { "self."@ } else { seq![] }, ind@),
{
    let ghost start = out@;
    let ghost mv = pair_views(ms@);
    let ghost prefix: Seq<char> = if class_method { "self."@ } else { seq![] };
    let mut param_ind = vstd::slice::slice_to_vec(ind.as_slice());
    push_str(&mut param_ind, "  ");
    for k in 0..ms.len()
        invariant
            mv == pair_views(ms@),
            prefix == if class_method { "self."@ } else { Seq::<char>::empty() },
            param_ind@ == ind@ + "  "@,
            out@ == start + def_lines(mv.subrange(0, k as int), prefix, ind@),
    {
        let m = &ms[k];
        let line = def_line(&m.0, &m.1, class_method, ind, &param_ind);
        push_all(out, &line);
        proof {
            let pre = mv.subrange(0, k + 1);
            assert(pre.drop_last() =~= mv.subrange(0, k as int));
            assert(pre.last() == (m.0@, m.1@));
            assert(out@ =~= start + def_lines(pre, prefix, ind@));
        }
    }
    assert(mv.subrange(0, mv.len() as int) =~= mv);
}

fn push_member_lines(out: &mut Vec<char>, m: &Members, ind: &Vec<char>)
    ensures
        final(out)@ == old(out)@ + member_lines(m@, ind@),
{
    push_alias_lines(out, &m.type_aliases, ind);
    push_attr_lines(out, &m.attributes, ind);
    push_def_lines(out, &m.self_methods, true, ind);
    push_def_lines(out, &m.methods, false, ind);
    assert(out@ =~= old(out)@ + member_lines(m@, ind@));
}

fn sub_block(s: &SubModule, ind: &Vec<char>, inner: &Vec<char>) -> (r: Vec<char>)
    ensures
        r@ == ind@ + "module "@ + s.name@ + "\n"@ + member_lines(s.members@, inner@) + ind@ + "end\n"@,
{
    let mut piece: Vec<char> = Vec::new();
    push_all(&mut piece, ind);
    push_str(&mut piece, "module ");
    push_all(&mut piece, &s.name);
    push_str(&mut piece, "\n");
    push_member_lines(&mut piece, &s.members, inner);
    push_all(&mut piece, ind);
    push_str(&mut piece, "end\n");
    assert(piece@ =~= ind@ + "module "@ + s.name@ + "\n"@ + member_lines(s.members@, inner@) + ind@ + "end\n"@);
    piece
}

#[verifier::spinoff_prover]
#[verifier::rlimit(40)]
fn push_sub_lines(out: &mut Vec<char>, subs: &Vec<SubModule>, ind: &Vec<char>)
    ensures
        final(out)@ == old(out)@ + sub_lines(sub_views(subs@), ind@),
{
    let ghost start = out@;
    let ghost sv = sub_views(subs@);
    let mut inner = vstd::slice::slice_to_vec(ind.as_slice());
    push_str(&mut inner, "  ");
    for k in 0..subs.len()
        invariant
            sv == sub_views(subs@),
            inner@ == ind@ + "  "@,
            out@ == start + sub_lines(sv.subrange(0, k as int), ind@),
    {
        let s = &subs[k];
        let piece = sub_block(s, ind, &inner);
        let ghost before = out@;
        push_all(out, &piece);
        assert(out@ == before + piece@);
        proof {
            let pre = sv.subrange(0, k + 1);
            assert(pre.drop_last() =~= sv.subrange(0, k as int));
            assert(pre.last() == (s.name@, s.members@));
            assert(sub_lines(pre, ind@) == sub_lines(sv.subrange(0, k as int), ind@) + piece@);
            assert(out@ =~= start + sub_lines(pre, ind@));
        }
    }
    assert(sv.subrange(0, sv.len() as int) =~= sv);
}

/// Writes the RBS text for what a file declares.
#[verifier::spinoff_prover]
#[verifier::rlimit(40)]
pub fn render_info(info: &ClassInfo, emit_superclasses: bool) -> (r: Vec<char>)
    ensures
        r@ == render(info@, emit_superclasses),
{
    let mut out = chars_of("# Generated by Sentinel - Do not edit manually\n\n");
    let ghost mods = views(info.modules@);
    for i in 0..info.modules.len()
        invariant
            mods == views(info.modules@),
            out@ == header() + module_lines(mods.subrange(0, i as int)),
    {
        let ind = indent_of(i);
        push_all(&mut out, &ind);
        push_str(&mut out, "module ");
        push_all(&mut out, &info.modules[i]);
        push_str(&mut out, "\n");
        proof {
            let pre = mods.subrange(0, i + 1);
            assert(pre.drop_last() =~= mods.subrange(0, i as int));
            assert(pre.last() == info.modules@[i as int]@);
        }
        assert(out@ =~= header() + module_lines(mods.subrange(0, i + 1)));
    }
    assert(mods.subrange(0, mods.len() as int) =~= mods);
    let depth = info.modules.len();
    let class_indent = indent_of(depth);
    let mut member_indent = vstd::slice::slice_to_vec(class_indent.as_slice());
    push_str(&mut member_indent, "  ");
    proof {
        reveal_strlit("  ");
    }
    assert(member_indent@ =~= indent((depth + 1) as nat));
    push_all(&mut out, &class_indent);
    if info.is_module {
        push_str(&mut out, "module");
    } else {
        push_str(&mut out, "class");
    }
    push_str(&mut out, " ");
    push_all(&mut out, &info.class_name);
    if emit_superclasses && !info.is_module {
        match &info.superclass {
            Some(p) => {
                push_str(&mut out, " < ");
                push_all(&mut out, p);
            },
            None => {},
        }
    }
    proof {
        let pt = parent_text(info@, emit_superclasses);
        if pt.len() == 0 {
            assert(out@ =~= out@ + pt);
        }
    }
    push_str(&mut out, "\n");
    push_member_lines(&mut out, &info.members, &member_indent);
    push_sub_lines(&mut out, &info.sub_modules, &member_indent);
    push_all(&mut out, &class_indent);
    push_str(&mut out, "end\n");
    let ghost before_ends = out@;
    let mut i = depth;
    while i > 0
        invariant
            i <= depth,
            before_ends + end_lines(depth as nat) == out@ + end_lines(i as nat),
        decreases i,
    {
        let ghost prev = out@;
        i = i - 1;
        let ind = indent_of(i);
        push_all(&mut out, &ind);
        push_str(&mut out, "end\n");
        assert(prev + end_lines((i + 1) as nat) =~= out@ + end_lines(i as nat));
    }
    assert(out@ + end_lines(0) =~= out@);
    out
}

} // verus!
