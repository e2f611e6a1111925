//! What a Ruby file declares, read off its syntax tree: the module nesting,
//! the class or module that carries annotations, and its annotated methods,
//! attributes and type aliases.
use vstd::prelude::*;
use crate::syntax::SyntaxNode;
use crate::text::{
    spec_is_word, is_word,
    trim, trim_of, starts_with, ends_with, strip_prefix, strip_prefix_of, has_prefix, has_suffix,
    chars_of, push_all, push_str, same_text, views, occurs_at,
};
use crate::balance::{balanced, is_balanced};
use crate::annotations::{strip, strip_annotations};
use crate::shared::{SharedDir, resolve_import, resolve_import_in};

verus! {

broadcast use vstd::string::group_string_axioms;

/// The annotated members of a class or module.
pub struct Members {
    /// Instance methods: name and signature.
    pub methods: Vec<(Vec<char>, Vec<char>)>,
    /// Class methods (`def self.x`, `class << self`): name and signature.
    pub self_methods: Vec<(Vec<char>, Vec<char>)>,
    /// Type aliases, each `type <name> = <definition>`.
    pub type_aliases: Vec<Vec<char>>,
    /// Attributes: `attr_reader`/`attr_writer`/`attr_accessor`, name, type.
    pub attributes: Vec<(Vec<char>, Vec<char>, Vec<char>)>,
}

#[verifier::ext_equal]
pub struct MembersView {
    pub methods: Seq<(Seq<char>, Seq<char>)>,
    pub self_methods: Seq<(Seq<char>, Seq<char>)>,
    pub type_aliases: Seq<Seq<char>>,
    pub attributes: Seq<(Seq<char>, Seq<char>, Seq<char>)>,
}

pub open spec fn pair_views(v: Seq<(Vec<char>, Vec<char>)>) -> Seq<(Seq<char>, Seq<char>)> {
    v.map_values(|p: (Vec<char>, Vec<char>)| (p.0@, p.1@))
}

pub open spec fn triple_views(v: Seq<(Vec<char>, Vec<char>, Vec<char>)>) -> Seq<
    (Seq<char>, Seq<char>, Seq<char>),
> {
    v.map_values(|p: (Vec<char>, Vec<char>, Vec<char>)| (p.0@, p.1@, p.2@))
}

impl View for Members {
    type V = MembersView;

    open spec fn view(&self) -> MembersView {
        MembersView {
            methods: pair_views(self.methods@),
            self_methods: pair_views(self.self_methods@),
            type_aliases: views(self.type_aliases@),
            attributes: triple_views(self.attributes@),
        }
    }
}

pub open spec fn no_members() -> MembersView {
    MembersView { methods: seq![], self_methods: seq![], type_aliases: seq![], attributes: seq![] }
}

/// Whether any member was found.
pub open spec fn has_members(m: MembersView) -> bool {
    m.methods.len() > 0 || m.self_methods.len() > 0 || m.type_aliases.len() > 0
        || m.attributes.len() > 0
}

impl Members {
    pub fn new() -> (r: Members)
        ensures
            r@ == no_members(),
    {
        let r = Members {
            methods: Vec::new(),
            self_methods: Vec::new(),
            type_aliases: Vec::new(),
            attributes: Vec::new(),
        };
        assert(r@.methods =~= no_members().methods);
        assert(r@.self_methods =~= no_members().self_methods);
        assert(r@.type_aliases =~= no_members().type_aliases);
        assert(r@.attributes =~= no_members().attributes);
        r
    }

    pub fn is_empty(&self) -> (r: bool)
        ensures
            r == !has_members(self@),
    {
        self.methods.len() == 0 && self.self_methods.len() == 0 && self.type_aliases.len() == 0
            && self.attributes.len() == 0
    }
}

// ---------------------------------------------------------------------------
// Reading the syntax tree

/// The first child that its parent holds under the field `f`.
pub open spec fn first_with_field(cs: Seq<SyntaxNode>, f: Seq<char>) -> Option<SyntaxNode>
    decreases cs.len(),
{
    if cs.len() == 0 {
        None
    } else if cs[0].field matches Some(g) && g@ == f {
        Some(cs[0])
    } else {
        first_with_field(cs.subrange(1, cs.len() as int), f)
    }
}

/// `Node::child_by_field_name`: the node's first child under field `f`.
pub open spec fn field_child(node: SyntaxNode, f: Seq<char>) -> Option<SyntaxNode> {
    first_with_field(node.children@, f)
}

pub fn field_child_of<'a>(node: &'a SyntaxNode, f: &str) -> (r: Option<&'a SyntaxNode>)
    ensures
        r matches Some(c) ==> field_child(*node, f@) == Some(*c),
        r is None ==> field_child(*node, f@) is None,
{
    let fc = chars_of(f);
    let ghost cs = node.children@;
    assert(cs.subrange(0, cs.len() as int) =~= cs);
    for i in 0..node.children.len()
        invariant
            cs == node.children@,
            fc@ == f@,
            first_with_field(cs, f@) == first_with_field(cs.subrange(i as int, cs.len() as int), f@),
    {
        let c = &node.children[i];
        let ghost rest = cs.subrange(i as int, cs.len() as int);
        assert(rest[0] == cs[i as int]);
        assert(rest.subrange(1, rest.len() as int) =~= cs.subrange(i + 1, cs.len() as int));
        match &c.field {
            Some(g) => {
                if same_text(g, &fc) {
                    return Some(c);
                }
            },
            None => {},
        }
    }
    assert(cs.subrange(cs.len() as int, cs.len() as int) =~= Seq::<SyntaxNode>::empty());
    None
}

/// Where each node of a body sits, once `body_statement` children are
/// inlined: `(k, None)` is the k-th child, `(k, Some(j))` the j-th child of
/// the k-th child, a `body_statement`.
pub open spec fn flat_index(cs: Seq<SyntaxNode>) -> Seq<(int, Option<int>)>
    decreases cs.len(),
{
    if cs.len() == 0 {
        seq![]
    } else {
        let k = cs.len() - 1;
        let c = cs[k];
        flat_index(cs.drop_last()) + if c.kind@ == "body_statement"@ {
            Seq::new(c.children@.len(), |j: int| (k, Some(j)))
        } else {
            seq![(k, None::<int>)]
        }
    }
}

pub open spec fn valid_place(cs: Seq<SyntaxNode>, p: (int, Option<int>)) -> bool {
    0 <= p.0 < cs.len() && match p.1 {
        Some(j) => 0 <= j < cs[p.0].children@.len(),
        None => true,
    }
}

pub open spec fn node_at(cs: Seq<SyntaxNode>, p: (int, Option<int>)) -> SyntaxNode {
    match p.1 {
        Some(j) => cs[p.0].children@[j],
        None => cs[p.0],
    }
}

pub proof fn lemma_flat_index_valid(cs: Seq<SyntaxNode>)
    ensures
        forall|i: int| 0 <= i < flat_index(cs).len() ==> valid_place(cs, #[trigger] flat_index(cs)[i]),
    decreases cs.len(),
{
    if cs.len() > 0 {
        let init = cs.drop_last();
        lemma_flat_index_valid(init);
        assert forall|i: int| 0 <= i < flat_index(cs).len() implies valid_place(cs, #[trigger] flat_index(cs)[i]) by {
            if i < flat_index(init).len() {
                assert(flat_index(cs)[i] == flat_index(init)[i]);
                assert(valid_place(init, flat_index(init)[i]));
                let p = flat_index(init)[i];
                assert(cs[p.0] == init[p.0]);
            }
        }
    }
}

/// The nodes of the node's body, with `body_statement` children inlined
/// (`flatten_children`).
pub open spec fn body_items(node: SyntaxNode) -> Seq<(int, Option<int>)> {
    flat_index(node.children@)
}

/// Every node of a node's body lies below it.
pub proof fn lemma_body_item_below(node: SyntaxNode, i: int)
    requires
        0 <= i < body_items(node).len(),
    ensures
        decreases_to!(node => node_at(node.children@, body_items(node)[i])),
{
    lemma_flat_index_valid(node.children@);
    let cs = node.children@;
    let p = body_items(node)[i];
    assert(valid_place(cs, p));
    let c = cs[p.0];
    assert(decreases_to!(node => node.children));
    assert(decreases_to!(node.children => node.children@));
    assert(decreases_to!(node.children@ => c));
    match p.1 {
        Some(j) => {
            assert(decreases_to!(c => c.children));
            assert(decreases_to!(c.children => c.children@));
            assert(decreases_to!(c.children@ => c.children@[j]));
        },
        None => {},
    }
}

fn body_items_of(node: &SyntaxNode) -> (r: Vec<(usize, Option<usize>)>)
    ensures
        r@.len() == body_items(*node).len(),
        forall|i: int| 0 <= i < r@.len() ==> (#[trigger] r@[i]).0 as int == body_items(*node)[i].0
            && match r@[i].1 {
            Some(j) => body_items(*node)[i].1 == Some(j as int),
            None => body_items(*node)[i].1 is None,
        },
{
    let mut r: Vec<(usize, Option<usize>)> = Vec::new();
    let ghost cs = node.children@;
    for k in 0..node.children.len()
        invariant
            cs == node.children@,
            r@.len() == flat_index(cs.subrange(0, k as int)).len(),
            forall|i: int| 0 <= i < r@.len() ==> (#[trigger] r@[i]).0 as int == flat_index(cs.subrange(0, k as int))[i].0
                && match r@[i].1 {
                Some(j) => flat_index(cs.subrange(0, k as int))[i].1 == Some(j as int),
                None => flat_index(cs.subrange(0, k as int))[i].1 is None,
            },
    {
        let ghost pre = cs.subrange(0, k as int);
        let ghost next = cs.subrange(0, k + 1);
        assert(next.drop_last() =~= pre);
        assert(next[k as int] == cs[k as int]);
        let c = &node.children[k];
        let ghost old_len = r@.len();
        let ghost old_r = r@;
        let bs = chars_of("body_statement");
        if same_text(&c.kind, &bs) {
            for j in 0..c.children.len()
                invariant
                    old_r.len() == old_len,
                    r@.len() == old_len + j,
                    forall|i: int| 0 <= i < old_len ==> #[trigger] r@[i] == old_r[i],
                    forall|i: int| old_len <= i < r@.len() ==> (#[trigger] r@[i]).0 == k && r@[i].1 == Some((i - old_len) as usize),
            {
                r.push((k, Some(j)));
            }
        } else {
            r.push((k, None));
        }
        assert forall|i: int| 0 <= i < r@.len() implies (#[trigger] r@[i]).0 as int == flat_index(next)[i].0
            && match r@[i].1 {
            Some(j) => flat_index(next)[i].1 == Some(j as int),
            None => flat_index(next)[i].1 is None,
        } by {
            if i < old_len {
                assert(flat_index(next)[i] == flat_index(pre)[i]);
            }
        }
    }
    assert(cs.subrange(0, cs.len() as int) =~= cs);
    r
}

} // verus!

verus! {

// ---------------------------------------------------------------------------
// Scanning a class or module body

/// The annotation (`#:` signature) and `# @rbs type` alias under way while a
/// body is read, and the members found so far.
pub struct ScanState {
    pub annotation: Option<Seq<char>>,
    pub alias: Option<Seq<char>>,
    pub m: MembersView,
}

pub open spec fn with_alias(m: MembersView, a: Seq<char>) -> MembersView {
    MembersView { type_aliases: m.type_aliases.push(a), ..m }
}

/// A finished `# @rbs type` alias is kept when its brackets balance and it
/// does not end in a dangling `|`.
pub open spec fn keep_alias(m: MembersView, alias: Seq<char>) -> MembersView {
    if balanced(alias) && !ends_with(alias, "|"@) {
        with_alias(m, "type "@ + strip(alias))
    } else {
        m
    }
}

/// Whether a node continues the alias under way: a comment that starts
/// neither a new alias nor a signature, and either begins with `|` or
/// follows an alias whose brackets are open or which ends in `|`.
pub open spec fn alias_continues(child: SyntaxNode, alias: Seq<char>) -> bool {
    let t = child.text@;
    &&& child.kind@ == "comment"@
    &&& !starts_with(t, "# @rbs type "@)
    &&& !starts_with(t, "#: "@)
    &&& match strip_prefix(t, "#"@) {
        Some(c) => starts_with(trim(c), "|"@) || !balanced(alias) || ends_with(alias, "|"@),
        None => false,
    }
}

/// Before a node is read: an alias that it does not continue is finished.
pub open spec fn settle_alias(child: SyntaxNode, st: ScanState) -> ScanState {
    match st.alias {
        Some(a) => if alias_continues(child, a) {
            st
        } else {
            ScanState { alias: None, m: keep_alias(st.m, a), ..st }
        },
        None => st,
    }
}

/// Reading a comment.
pub open spec fn comment_step(text: Seq<char>, st: ScanState, ds: Seq<SharedDir>) -> ScanState {
    match strip_prefix(text, "# @rbs type "@) {
        Some(rest) => ScanState { annotation: None, alias: Some(trim(rest)), m: st.m },
        None => match strip_prefix(text, "# @rbs import "@) {
            Some(name) => ScanState {
                annotation: None,
                alias: st.alias,
                m: MembersView {
                    type_aliases: st.m.type_aliases + resolve_import(ds, trim(name)),
                    ..st.m
                },
            },
            None => match st.alias {
                Some(a) => match strip_prefix(text, "#"@) {
                    Some(cont) => {
                        let t = trim(cont);
                        ScanState {
                            alias: Some(if t.len() > 0 { a + " "@ + t } else { a }),
                            ..st
                        }
                    },
                    None => ScanState { alias: None, ..st },
                },
                None => match strip_prefix(text, "#: "@) {
                    Some(sig) => {
                        let t = trim(sig);
                        ScanState {
                            annotation: Some(
                                match st.annotation {
                                    Some(ann) => if !balanced(ann) {
                                        ann + " "@ + t
                                    } else {
                                        t
                                    },
                                    None => t,
                                },
                            ),
                            ..st
                        }
                    },
                    None => ScanState { annotation: None, ..st },
                },
            },
        },
    }
}

/// A method defined with its pending signature, if any.
pub open spec fn method_step(child: SyntaxNode, st: ScanState, class_method: bool) -> ScanState {
    let m = match st.annotation {
        Some(sig) => match field_child(child, "name"@) {
            Some(n) => if class_method {
                MembersView { self_methods: st.m.self_methods.push((n.text@, strip(sig))), ..st.m }
            } else {
                MembersView { methods: st.m.methods.push((n.text@, strip(sig))), ..st.m }
            },
            None => st.m,
        },
        None => st.m,
    };
    ScanState { annotation: None, alias: None, m }
}

/// `s` without its leading colons (`trim_start_matches(':')`).
pub open spec fn drop_colons(s: Seq<char>) -> Seq<char>
    decreases s.len(),
{
    if s.len() > 0 && s[0] == ':' {
        drop_colons(s.subrange(1, s.len() as int))
    } else {
        s
    }
}

/// One attribute per symbol argument.
pub open spec fn attrs_from(args: Seq<SyntaxNode>, kind: Seq<char>, ty: Seq<char>) -> Seq<
    (Seq<char>, Seq<char>, Seq<char>),
>
    decreases args.len(),
{
    if args.len() == 0 {
        seq![]
    } else {
        let a = args.last();
        attrs_from(args.drop_last(), kind, ty) + if a.kind@ == "simple_symbol"@ {
            seq![(kind, drop_colons(a.text@), ty)]
        } else {
            seq![]
        }
    }
}

pub open spec fn is_attr_macro(name: Seq<char>) -> bool {
    name == "attr_reader"@ || name == "attr_writer"@ || name == "attr_accessor"@
}

/// A method call: an `attr_*` call with a pending type declares attributes.
pub open spec fn call_step(child: SyntaxNode, st: ScanState) -> ScanState {
    let m = match field_child(child, "method"@) {
        Some(mn) => if is_attr_macro(mn.text@) {
            match st.annotation {
                Some(ty) => match field_child(child, "arguments"@) {
                    Some(args) => MembersView {
                        attributes: st.m.attributes + attrs_from(args.children@, mn.text@, strip(ty)),
                        ..st.m
                    },
                    None => st.m,
                },
                None => st.m,
            }
        } else {
            st.m
        },
        None => st.m,
    };
    ScanState { annotation: None, alias: None, m }
}

/// Reading one node of a body other than `class << self`.
pub open spec fn plain_step(child: SyntaxNode, st: ScanState, singleton: bool, ds: Seq<SharedDir>) -> ScanState {
    let k = child.kind@;
    if k == "comment"@ {
        comment_step(child.text@, st, ds)
    } else if k == "method"@ {
        method_step(child, st, singleton)
    } else if k == "singleton_method"@ {
        method_step(child, st, true)
    } else if k == "call"@ {
        call_step(child, st)
    } else if k == "superclass"@ {
        st
    } else {
        ScanState { annotation: None, alias: None, m: st.m }
    }
}

/// The alias under way when the body ends is finished too.
pub open spec fn finish_scan(st: ScanState) -> MembersView {
    match st.alias {
        Some(a) => keep_alias(st.m, a),
        None => st.m,
    }
}

/// The members found in the body of `node` (its children, `body_statement`
/// inlined), added to `m`. In a `class << self` body (`singleton`), methods
/// are class methods.
pub open spec fn scan_node(node: SyntaxNode, singleton: bool, m: MembersView, ds: Seq<SharedDir>) -> MembersView
    decreases node, body_items(node).len() + 1,
{
    finish_scan(scan_items(node, 0, singleton, ScanState { annotation: None, alias: None, m }, ds))
}

pub open spec fn scan_items(
    node: SyntaxNode,
    i: int,
    singleton: bool,
    st: ScanState,
    ds: Seq<SharedDir>,
) -> ScanState
    decreases node, body_items(node).len() - i,
{
    let items = body_items(node);
    if i < 0 || i >= items.len() {
        st
    } else {
        let child = node_at(node.children@, items[i]);
        let st0 = settle_alias(child, st);
        let st1 = if child.kind@ == "singleton_class"@ {
            proof {
                lemma_body_item_below(node, i);
            }
            ScanState { annotation: None, alias: None, m: scan_node(child, true, st0.m, ds) }
        } else {
            plain_step(child, st0, singleton, ds)
        };
        scan_items(node, i + 1, singleton, st1, ds)
    }
}


/// Whether `a` begins `b`.
pub open spec fn prefix_of<A>(a: Seq<A>, b: Seq<A>) -> bool {
    a.len() <= b.len() && b.subrange(0, a.len() as int) == a
}

/// Whether the member lists of `m2` extend those of `m`, entries only being
/// appended; in a `class << self` body (`singleton`) the instance methods
/// stay as they were.
pub open spec fn members_extend(m: MembersView, m2: MembersView, singleton: bool) -> bool {
    &&& prefix_of(m.methods, m2.methods)
    &&& prefix_of(m.self_methods, m2.self_methods)
    &&& prefix_of(m.type_aliases, m2.type_aliases)
    &&& prefix_of(m.attributes, m2.attributes)
    &&& (singleton ==> m2.methods == m.methods)
}

proof fn lemma_prefix_trans<A>(a: Seq<A>, b: Seq<A>, c: Seq<A>)
    requires
        prefix_of(a, b),
        prefix_of(b, c),
    ensures
        prefix_of(a, c),
{
    assert(c.subrange(0, a.len() as int) =~= c.subrange(0, b.len() as int).subrange(0, a.len() as int));
}

proof fn lemma_prefix_add<A>(a: Seq<A>, b: Seq<A>)
    ensures
        prefix_of(a, a + b),
{
    assert((a + b).subrange(0, a.len() as int) =~= a);
}

proof fn lemma_prefix_push<A>(a: Seq<A>, x: A)
    ensures
        prefix_of(a, a.push(x)),
{
    assert(a.push(x).subrange(0, a.len() as int) =~= a);
}

proof fn lemma_extend_refl(m: MembersView, singleton: bool)
    ensures
        members_extend(m, m, singleton),
{
    lemma_prefix_add(m.methods, seq![]);
    assert(m.methods + seq![] =~= m.methods);
    lemma_prefix_add(m.self_methods, seq![]);
    assert(m.self_methods + seq![] =~= m.self_methods);
    lemma_prefix_add(m.type_aliases, seq![]);
    assert(m.type_aliases + seq![] =~= m.type_aliases);
    lemma_prefix_add(m.attributes, seq![]);
    assert(m.attributes + seq![] =~= m.attributes);
}

proof fn lemma_keep_alias_extends(m: MembersView, a: Seq<char>, singleton: bool)
    ensures
        members_extend(m, keep_alias(m, a), singleton),
{
    lemma_extend_refl(m, singleton);
    lemma_prefix_push(m.type_aliases, "type "@ + strip(a));
}

proof fn lemma_settle_extends(child: SyntaxNode, st: ScanState, singleton: bool)
    ensures
        members_extend(st.m, settle_alias(child, st).m, singleton),
{
    lemma_extend_refl(st.m, singleton);
    if let Some(a) = st.alias {
        lemma_keep_alias_extends(st.m, a, singleton);
    }
}

proof fn lemma_plain_extends(child: SyntaxNode, st: ScanState, singleton: bool, ds: Seq<SharedDir>)
    ensures
        members_extend(st.m, plain_step(child, st, singleton, ds).m, singleton),
{
    let m = st.m;
    lemma_extend_refl(m, singleton);
    let k = child.kind@;
    if k == "comment"@ {
        match strip_prefix(child.text@, "# @rbs type "@) {
            Some(_) => {},
            None => match strip_prefix(child.text@, "# @rbs import "@) {
                Some(name) => {
                    lemma_prefix_add(m.type_aliases, resolve_import(ds, trim(name)));
                },
                None => {},
            },
        }
    } else if k == "method"@ || k == "singleton_method"@ {
        match st.annotation {
            Some(sig) => match field_child(child, "name"@) {
                Some(n) => {
                    lemma_prefix_push(m.self_methods, (n.text@, strip(sig)));
                    lemma_prefix_push(m.methods, (n.text@, strip(sig)));
                },
                None => {},
            },
            None => {},
        }
    } else if k == "call"@ {
        match field_child(child, "method"@) {
            Some(mn) => match st.annotation {
                Some(ty) => match field_child(child, "arguments"@) {
                    Some(args) => {
                        lemma_prefix_add(m.attributes, attrs_from(args.children@, mn.text@, strip(ty)));
                    },
                    None => {},
                },
                None => {},
            },
            None => {},
        }
    }
}

/// Reading a body only appends: every member list before is a prefix of
/// the list after, and in a `class << self` body (`singleton`) the instance
/// methods are left as they were.
pub proof fn law_scan_only_appends(node: SyntaxNode, singleton: bool, m: MembersView, ds: Seq<SharedDir>)
    ensures
        members_extend(m, scan_node(node, singleton, m, ds), singleton),
    decreases node, body_items(node).len() + 1,
{
    let st = ScanState { annotation: None, alias: None, m };
    lemma_items_extend(node, 0, singleton, st, ds);
    let fin = scan_items(node, 0, singleton, st, ds);
    lemma_extend_refl(fin.m, singleton);
    if let Some(a) = fin.alias {
        lemma_keep_alias_extends(fin.m, a, singleton);
    }
    lemma_extend_trans(m, fin.m, finish_scan(fin), singleton);
}

proof fn lemma_items_extend(node: SyntaxNode, i: int, singleton: bool, st: ScanState, ds: Seq<SharedDir>)
    ensures
        members_extend(st.m, scan_items(node, i, singleton, st, ds).m, singleton),
    decreases node, body_items(node).len() - i,
{
    let items = body_items(node);
    if i < 0 || i >= items.len() {
        lemma_extend_refl(st.m, singleton);
    } else {
        let child = node_at(node.children@, items[i]);
        let st0 = settle_alias(child, st);
        lemma_settle_extends(child, st, singleton);
        let st1 = if child.kind@ == "singleton_class"@ {
            ScanState { annotation: None, alias: None, m: scan_node(child, true, st0.m, ds) }
        } else {
            plain_step(child, st0, singleton, ds)
        };
        if child.kind@ == "singleton_class"@ {
            lemma_body_item_below(node, i);
            law_scan_only_appends(child, true, st0.m, ds);
        } else {
            lemma_plain_extends(child, st0, singleton, ds);
        }
        lemma_extend_trans(st.m, st0.m, st1.m, singleton);
        lemma_items_extend(node, i + 1, singleton, st1, ds);
        lemma_extend_trans(st.m, st1.m, scan_items(node, i + 1, singleton, st1, ds).m, singleton);
    }
}

/// Whether `x` has the form of a type alias that a body contributes: a
/// finished `# @rbs type` text `a` (brackets balanced, no dangling `|`) as
/// `type ` and `a` with its annotations stripped, or a definition that
/// `# @rbs import` of some name brings in.
pub open spec fn alias_shaped(x: Seq<char>, ds: Seq<SharedDir>) -> bool {
    (exists|a: Seq<char>| balanced(a) && !ends_with(a, "|"@) && x == "type "@ + #[trigger] strip(a))
        || (exists|n: Seq<char>| #[trigger] resolve_import(ds, n).contains(x))
}

/// Whether `t` is an annotation text with its annotations stripped.
pub open spec fn sig_shaped(t: Seq<char>) -> bool {
    exists|a: Seq<char>| t == #[trigger] strip(a)
}

/// Whether every entry that `m2` has beyond `m` has the form a body gives
/// it: aliases as [`alias_shaped`], and signatures and attribute types as
/// stripped annotation texts.
pub open spec fn added_shaped(m: MembersView, m2: MembersView, ds: Seq<SharedDir>) -> bool {
    &&& forall|i: int|
        m.type_aliases.len() <= i < m2.type_aliases.len() ==> alias_shaped(#[trigger] m2.type_aliases[i], ds)
    &&& forall|i: int| m.methods.len() <= i < m2.methods.len() ==> sig_shaped(#[trigger] m2.methods[i].1)
    &&& forall|i: int| m.self_methods.len() <= i < m2.self_methods.len() ==> sig_shaped(#[trigger] m2.self_methods[i].1)
    &&& forall|i: int| m.attributes.len() <= i < m2.attributes.len() ==> sig_shaped(#[trigger] m2.attributes[i].2)
}

proof fn lemma_shaped_refl(m: MembersView, ds: Seq<SharedDir>)
    ensures
        added_shaped(m, m, ds),
{
}

proof fn lemma_shaped_trans(m1: MembersView, m2: MembersView, m3: MembersView, singleton: bool, ds: Seq<SharedDir>)
    requires
        members_extend(m1, m2, singleton),
        members_extend(m2, m3, singleton),
        added_shaped(m1, m2, ds),
        added_shaped(m2, m3, ds),
    ensures
        added_shaped(m1, m3, ds),
{
    assert forall|i: int| m1.type_aliases.len() <= i < m3.type_aliases.len() implies alias_shaped(
        #[trigger] m3.type_aliases[i],
        ds,
    ) by {
        if i < m2.type_aliases.len() {
            assert(m3.type_aliases.subrange(0, m2.type_aliases.len() as int)[i] == m3.type_aliases[i]);
        }
    }
    assert forall|i: int| m1.methods.len() <= i < m3.methods.len() implies sig_shaped(#[trigger] m3.methods[i].1) by {
        if i < m2.methods.len() {
            assert(m3.methods.subrange(0, m2.methods.len() as int)[i] == m3.methods[i]);
        }
    }
    assert forall|i: int| m1.self_methods.len() <= i < m3.self_methods.len() implies sig_shaped(
        #[trigger] m3.self_methods[i].1,
    ) by {
        if i < m2.self_methods.len() {
            assert(m3.self_methods.subrange(0, m2.self_methods.len() as int)[i] == m3.self_methods[i]);
        }
    }
    assert forall|i: int| m1.attributes.len() <= i < m3.attributes.len() implies sig_shaped(
        #[trigger] m3.attributes[i].2,
    ) by {
        if i < m2.attributes.len() {
            assert(m3.attributes.subrange(0, m2.attributes.len() as int)[i] == m3.attributes[i]);
        }
    }
}

proof fn lemma_keep_alias_shaped(m: MembersView, a: Seq<char>, ds: Seq<SharedDir>)
    ensures
        added_shaped(m, keep_alias(m, a), ds),
{
    if balanced(a) && !ends_with(a, "|"@) {
        let m2 = keep_alias(m, a);
        assert(m2.type_aliases[m.type_aliases.len() as int] == "type "@ + strip(a));
    }
}

proof fn lemma_attrs_from(args: Seq<SyntaxNode>, kind: Seq<char>, ty: Seq<char>)
    ensures
        forall|i: int| 0 <= i < attrs_from(args, kind, ty).len() ==> (#[trigger] attrs_from(args, kind, ty)[i]).2 == ty,
    decreases args.len(),
{
    if args.len() > 0 {
        let init = args.drop_last();
        lemma_attrs_from(init, kind, ty);
        let a = args.last();
        let pre = attrs_from(init, kind, ty);
        let tail: Seq<(Seq<char>, Seq<char>, Seq<char>)> = if a.kind@ == "simple_symbol"@ {
            seq![(kind, drop_colons(a.text@), ty)]
        } else {
            seq![]
        };
        assert(attrs_from(args, kind, ty) == pre + tail);
        assert forall|i: int| 0 <= i < attrs_from(args, kind, ty).len() implies (#[trigger] attrs_from(
            args,
            kind,
            ty,
        )[i]).2 == ty by {
            if i < pre.len() {
                assert((pre + tail)[i] == pre[i]);
            } else {
                assert((pre + tail)[i] == tail[i - pre.len()]);
            }
        }
    }
}

proof fn lemma_plain_shaped(child: SyntaxNode, st: ScanState, singleton: bool, ds: Seq<SharedDir>)
    ensures
        added_shaped(st.m, plain_step(child, st, singleton, ds).m, ds),
{
    let m = st.m;
    let m2 = plain_step(child, st, singleton, ds).m;
    let k = child.kind@;
    if k == "comment"@ {
        match strip_prefix(child.text@, "# @rbs type "@) {
            Some(_) => {},
            None => match strip_prefix(child.text@, "# @rbs import "@) {
                Some(name) => {
                    let imported = resolve_import(ds, trim(name));
                    assert forall|i: int| m.type_aliases.len() <= i < m2.type_aliases.len() implies alias_shaped(
                        #[trigger] m2.type_aliases[i],
                        ds,
                    ) by {
                        let j = i - m.type_aliases.len();
                        assert(m2.type_aliases[i] == imported[j]);
                        assert(imported.contains(m2.type_aliases[i]));
                    }
                },
                None => {},
            },
        }
    } else if k == "method"@ || k == "singleton_method"@ {
        match st.annotation {
            Some(sig) => {
                assert(sig_shaped(strip(sig)));
            },
            None => {},
        }
    } else if k == "call"@ {
        match field_child(child, "method"@) {
            Some(mn) => match st.annotation {
                Some(ty) => match field_child(child, "arguments"@) {
                    Some(args) => {
                        let added = attrs_from(args.children@, mn.text@, strip(ty));
                        lemma_attrs_from(args.children@, mn.text@, strip(ty));
                        assert forall|i: int| m.attributes.len() <= i < m2.attributes.len() implies sig_shaped(
                            #[trigger] m2.attributes[i].2,
                        ) by {
                            if is_attr_macro(mn.text@) {
                                assert(m2.attributes[i] == added[i - m.attributes.len()]);
                                assert(m2.attributes[i].2 == strip(ty));
                            }
                        }
                    },
                    None => {},
                },
                None => {},
            },
            None => {},
        }
    }
}

/// Each entry that reading a body adds has the form its annotation gives:
/// a type alias is `type ` and a finished `# @rbs type` text (brackets
/// balanced, no dangling `|`) with its annotations stripped, or a definition
/// that an `# @rbs import` brings in; a method signature or attribute type is
/// a `#:` text with its annotations stripped.
pub proof fn law_scan_entries_shaped(node: SyntaxNode, singleton: bool, m: MembersView, ds: Seq<SharedDir>)
    ensures
        added_shaped(m, scan_node(node, singleton, m, ds), ds),
    decreases node, body_items(node).len() + 1,
{
    let st = ScanState { annotation: None, alias: None, m };
    lemma_items_shaped(node, 0, singleton, st, ds);
    lemma_items_extend(node, 0, singleton, st, ds);
    let fin = scan_items(node, 0, singleton, st, ds);
    lemma_extend_refl(fin.m, singleton);
    lemma_shaped_refl(fin.m, ds);
    if let Some(a) = fin.alias {
        lemma_keep_alias_extends(fin.m, a, singleton);
        lemma_keep_alias_shaped(fin.m, a, ds);
    }
    lemma_shaped_trans(m, fin.m, finish_scan(fin), singleton, ds);
}

proof fn lemma_items_shaped(node: SyntaxNode, i: int, singleton: bool, st: ScanState, ds: Seq<SharedDir>)
    ensures
        added_shaped(st.m, scan_items(node, i, singleton, st, ds).m, ds),
    decreases node, body_items(node).len() - i,
{
    let items = body_items(node);
    if i < 0 || i >= items.len() {
        lemma_shaped_refl(st.m, ds);
    } else {
        let child = node_at(node.children@, items[i]);
        let st0 = settle_alias(child, st);
        lemma_settle_extends(child, st, singleton);
        lemma_shaped_refl(st.m, ds);
        if let Some(a) = st.alias {
            lemma_keep_alias_shaped(st.m, a, ds);
        }
        let st1 = if child.kind@ == "singleton_class"@ {
            ScanState { annotation: None, alias: None, m: scan_node(child, true, st0.m, ds) }
        } else {
            plain_step(child, st0, singleton, ds)
        };
        if child.kind@ == "singleton_class"@ {
            lemma_body_item_below(node, i);
            law_scan_only_appends(child, true, st0.m, ds);
            law_scan_entries_shaped(child, true, st0.m, ds);
        } else {
            lemma_plain_extends(child, st0, singleton, ds);
            lemma_plain_shaped(child, st0, singleton, ds);
        }
        lemma_shaped_trans(st.m, st0.m, st1.m, singleton, ds);
        lemma_extend_trans(st.m, st0.m, st1.m, singleton);
        lemma_items_shaped(node, i + 1, singleton, st1, ds);
        lemma_items_extend(node, i + 1, singleton, st1, ds);
        lemma_shaped_trans(st.m, st1.m, scan_items(node, i + 1, singleton, st1, ds).m, singleton, ds);
    }
}

proof fn lemma_extend_trans(m1: MembersView, m2: MembersView, m3: MembersView, singleton: bool)
    requires
        members_extend(m1, m2, singleton),
        members_extend(m2, m3, singleton),
    ensures
        members_extend(m1, m3, singleton),
{
    lemma_prefix_trans(m1.methods, m2.methods, m3.methods);
    lemma_prefix_trans(m1.self_methods, m2.self_methods, m3.self_methods);
    lemma_prefix_trans(m1.type_aliases, m2.type_aliases, m3.type_aliases);
    lemma_prefix_trans(m1.attributes, m2.attributes, m3.attributes);
}

} // verus!

verus! {

pub open spec fn opt_view(o: Option<Vec<char>>) -> Option<Seq<char>> {
    match o {
        Some(v) => Some(v@),
        None => None,
    }
}

pub open spec fn state_of(ann: Option<Vec<char>>, alias: Option<Vec<char>>, m: Members) -> ScanState {
    ScanState { annotation: opt_view(ann), alias: opt_view(alias), m: m@ }
}

fn keep_alias_of(m: &mut Members, alias: &Vec<char>)
    ensures
        final(m)@ == keep_alias(old(m)@, alias@),
{
    let bar = chars_of("|");
    if is_balanced(alias) && !has_suffix(alias, &bar) {
        let mut a = chars_of("type ");
        let stripped = strip_annotations(alias);
        push_all(&mut a, &stripped);
        m.type_aliases.push(a);
        assert(m@ =~= with_alias(old(m)@, "type "@ + strip(alias@)));
    }
}

fn alias_continues_of(child: &SyntaxNode, alias: &Vec<char>) -> (r: bool)
    ensures
        r == alias_continues(*child, alias@),
{
    let comment = chars_of("comment");
    if !same_text(&child.kind, &comment) {
        return false;
    }
    let rbs_type = chars_of("# @rbs type ");
    let sig = chars_of("#: ");
    if has_prefix(&child.text, &rbs_type) || has_prefix(&child.text, &sig) {
        return false;
    }
    let hash = chars_of("#");
    let bar = chars_of("|");
    match strip_prefix_of(&child.text, &hash) {
        Some(c) => {
            let t = trim_of(&c);
            has_prefix(&t, &bar) || !is_balanced(alias) || has_suffix(alias, &bar)
        },
        None => false,
    }
}

fn settle_alias_of(
    child: &SyntaxNode,
    ann: &Option<Vec<char>>,
    alias: &mut Option<Vec<char>>,
    m: &mut Members,
)
    ensures
        state_of(*ann, *final(alias), *final(m)) == settle_alias(*child, state_of(*ann, *old(alias), *old(m))),
{
    let finished = match alias {
        Some(a) => !alias_continues_of(child, a),
        None => false,
    };
    if finished {
        let a = alias.take();
        match a {
            Some(a) => keep_alias_of(m, &a),
            None => {},
        }
    }
}

fn join_space(a: &Vec<char>, t: &Vec<char>) -> (r: Vec<char>)
    ensures
        r@ == a@ + " "@ + t@,
{
    let mut r = vstd::slice::slice_to_vec(a.as_slice());
    push_str(&mut r, " ");
    push_all(&mut r, t);
    r
}

fn comment_step_of(
    text: &Vec<char>,
    ann: &mut Option<Vec<char>>,
    alias: &mut Option<Vec<char>>,
    m: &mut Members,
    dirs: &Vec<SharedDir>,
)
    ensures
        state_of(*final(ann), *final(alias), *final(m)) == comment_step(
            text@,
            state_of(*old(ann), *old(alias), *old(m)),
            dirs@,
        ),
{
    let rbs_type = chars_of("# @rbs type ");
    let rbs_import = chars_of("# @rbs import ");
    let hash = chars_of("#");
    let sig_prefix = chars_of("#: ");
    match strip_prefix_of(text, &rbs_type) {
        Some(rest) => {
            *alias = Some(trim_of(&rest));
            *ann = None;
            return;
        },
        None => {},
    }
    match strip_prefix_of(text, &rbs_import) {
        Some(name) => {
            let name = trim_of(&name);
            let imported = resolve_import_in(dirs, &name);
            let ghost before = views(m.type_aliases@);
            for k in 0..imported.len()
                invariant
                    views(m.type_aliases@) == before + views(imported@).subrange(0, k as int),
                    m.methods == old(m).methods,
                    m.self_methods == old(m).self_methods,
                    m.attributes == old(m).attributes,
            {
                let ghost prev = views(m.type_aliases@);
                m.type_aliases.push(vstd::slice::slice_to_vec(imported[k].as_slice()));
                assert(views(m.type_aliases@) =~= prev.push(imported@[k as int]@));
                assert(views(imported@).subrange(0, k + 1) =~= views(imported@).subrange(0, k as int).push(imported@[k as int]@));
                assert(views(m.type_aliases@) =~= before + views(imported@).subrange(0, k + 1));
            }
            assert(views(imported@).subrange(0, imported@.len() as int) =~= views(imported@));
            *ann = None;
            return;
        },
        None => {},
    }
    let alias_pending = alias.is_some();
    if alias_pending {
        match strip_prefix_of(text, &hash) {
            Some(cont) => {
                let t = trim_of(&cont);
                if t.len() > 0 {
                    let a = alias.take();
                    match a {
                        Some(a) => {
                            *alias = Some(join_space(&a, &t));
                        },
                        None => {},
                    }
                }
            },
            None => {
                *alias = None;
            },
        }
        return;
    }
    match strip_prefix_of(text, &sig_prefix) {
        Some(sig) => {
            let t = trim_of(&sig);
            let next = match ann {
                Some(a) => if !is_balanced(a) {
                    join_space(a, &t)
                } else {
                    t
                },
                None => t,
            };
            *ann = Some(next);
        },
        None => {
            *ann = None;
        },
    }
}

fn method_step_of(
    child: &SyntaxNode,
    ann: &mut Option<Vec<char>>,
    alias: &mut Option<Vec<char>>,
    m: &mut Members,
    class_method: bool,
)
    ensures
        state_of(*final(ann), *final(alias), *final(m)) == method_step(
            *child,
            state_of(*old(ann), *old(alias), *old(m)),
            class_method,
        ),
{
    *alias = None;
    let a = ann.take();
    match a {
        Some(sig) => match field_child_of(child, "name") {
            Some(n) => {
                let name = vstd::slice::slice_to_vec(n.text.as_slice());
                let stripped = strip_annotations(&sig);
                if class_method {
                    m.self_methods.push((name, stripped));
                } else {
                    m.methods.push((name, stripped));
                }
                assert(m@.methods =~= method_step(*child, state_of(*old(ann), *old(alias), *old(m)), class_method).m.methods);
                assert(m@.self_methods =~= method_step(*child, state_of(*old(ann), *old(alias), *old(m)), class_method).m.self_methods);
            },
            None => {},
        },
        None => {},
    }
}

/// `trim_start_matches(':')`.
fn drop_colons_of(s: &Vec<char>) -> (r: Vec<char>)
    ensures
        r@ == drop_colons(s@),
{
    let mut i: usize = 0;
    assert(s@.subrange(0, s@.len() as int) =~= s@);
    while i < s.len() && s[i] == ':'
        invariant
            i <= s@.len(),
            drop_colons(s@) == drop_colons(s@.subrange(i as int, s@.len() as int)),
        decreases s@.len() - i,
    {
        proof {
            let t = s@.subrange(i as int, s@.len() as int);
            assert(t.subrange(1, t.len() as int) =~= s@.subrange(i + 1, s@.len() as int));
        }
        i = i + 1;
    }
    copy_range_vec(s, i)
}

fn copy_range_vec(s: &Vec<char>, i: usize) -> (r: Vec<char>)
    requires
        i <= s@.len(),
    ensures
        r@ == s@.subrange(i as int, s@.len() as int),
{
    crate::text::copy_range(s.as_slice(), i, s.len())
}

fn call_step_of(
    child: &SyntaxNode,
    ann: &mut Option<Vec<char>>,
    alias: &mut Option<Vec<char>>,
    m: &mut Members,
)
    ensures
        state_of(*final(ann), *final(alias), *final(m)) == call_step(
            *child,
            state_of(*old(ann), *old(alias), *old(m)),
        ),
{
    *alias = None;
    let a = ann.take();
    match field_child_of(child, "method") {
        Some(mn) => {
            let reader = chars_of("attr_reader");
            let writer = chars_of("attr_writer");
            let accessor = chars_of("attr_accessor");
            let is_attr = same_text(&mn.text, &reader) || same_text(&mn.text, &writer) || same_text(
                &mn.text,
                &accessor,
            );
            if is_attr {
                match a {
                    Some(ty) => match field_child_of(child, "arguments") {
                        Some(args) => {
                            let stripped = strip_annotations(&ty);
                            let ghost before = triple_views(m.attributes@);
                            let ghost cs = args.children@;
                            let symbol = chars_of("simple_symbol");
                            for k in 0..args.children.len()
                                invariant
                                    cs == args.children@,
                                    symbol@ == "simple_symbol"@,
                                    triple_views(m.attributes@) == before + attrs_from(
                                        cs.subrange(0, k as int),
                                        mn.text@,
                                        stripped@,
                                    ),
                                    m.methods == old(m).methods,
                                    m.self_methods == old(m).self_methods,
                                    m.type_aliases == old(m).type_aliases,
                            {
                                let arg = &args.children[k];
                                assert(cs.subrange(0, k + 1).drop_last() =~= cs.subrange(0, k as int));
                                assert(cs.subrange(0, k + 1).last() == cs[k as int]);
                                if same_text(&arg.kind, &symbol) {
                                    let attr_name = drop_colons_of(&arg.text);
                                    let kind = vstd::slice::slice_to_vec(mn.text.as_slice());
                                    let ty_copy = vstd::slice::slice_to_vec(stripped.as_slice());
                                    let ghost prev = triple_views(m.attributes@);
                                    let ghost entry = (kind@, attr_name@, ty_copy@);
                                    m.attributes.push((kind, attr_name, ty_copy));
                                    assert(triple_views(m.attributes@) =~= prev.push(entry));
                                    assert(triple_views(m.attributes@) =~= before + attrs_from(
                                        cs.subrange(0, k + 1),
                                        mn.text@,
                                        stripped@,
                                    ));
                                } else {
                                    assert(attrs_from(cs.subrange(0, k + 1), mn.text@, stripped@) =~= attrs_from(cs.subrange(0, k as int), mn.text@, stripped@));
                                }
                            }
                            assert(cs.subrange(0, cs.len() as int) =~= cs);
                            assert(m@ =~= call_step(*child, state_of(*old(ann), *old(alias), *old(m))).m);
                        },
                        None => {},
                    },
                    None => {},
                }
            }
        },
        None => {},
    }
}

fn plain_step_of(
    child: &SyntaxNode,
    ann: &mut Option<Vec<char>>,
    alias: &mut Option<Vec<char>>,
    m: &mut Members,
    singleton: bool,
    dirs: &Vec<SharedDir>,
)
    ensures
        state_of(*final(ann), *final(alias), *final(m)) == plain_step(
            *child,
            state_of(*old(ann), *old(alias), *old(m)),
            singleton,
            dirs@,
        ),
{
    let k = &child.kind;
    if same_text(k, &chars_of("comment")) {
        comment_step_of(&child.text, ann, alias, m, dirs);
    } else if same_text(k, &chars_of("method")) {
        method_step_of(child, ann, alias, m, singleton);
    } else if same_text(k, &chars_of("singleton_method")) {
        method_step_of(child, ann, alias, m, true);
    } else if same_text(k, &chars_of("call")) {
        call_step_of(child, ann, alias, m);
    } else if same_text(k, &chars_of("superclass")) {
    } else {
        *ann = None;
        *alias = None;
    }
}

/// Scans the body of `node` (children with `body_statement` inlined) for
/// annotated methods, attributes and type aliases, adding them to `m`.
pub fn scan_body(node: &SyntaxNode, singleton: bool, m: &mut Members, dirs: &Vec<SharedDir>)
    ensures
        final(m)@ == scan_node(*node, singleton, old(m)@, dirs@),
    decreases node,
{
    let items = body_items_of(node);
    let mut ann: Option<Vec<char>> = None;
    let mut alias: Option<Vec<char>> = None;
    let ghost target = scan_items(*node, 0, singleton, state_of(ann, alias, *m), dirs@);
    proof {
        lemma_flat_index_valid(node.children@);
    }
    for i in 0..items.len()
        invariant
            items@.len() == body_items(*node).len(),
            forall|q: int| 0 <= q < items@.len() ==> (#[trigger] items@[q]).0 as int == body_items(*node)[q].0
                && match items@[q].1 {
                Some(j) => body_items(*node)[q].1 == Some(j as int),
                None => body_items(*node)[q].1 is None,
            },
            forall|q: int| 0 <= q < body_items(*node).len() ==> valid_place(node.children@, #[trigger] body_items(*node)[q]),
            target == scan_items(*node, i as int, singleton, state_of(ann, alias, *m), dirs@),
    {
        let (k, sub) = items[i];
        assert(valid_place(node.children@, body_items(*node)[i as int]));
        let child: &SyntaxNode = match sub {
            Some(j) => &node.children[k].children[j],
            None => &node.children[k],
        };
        assert(*child == node_at(node.children@, body_items(*node)[i as int]));
        settle_alias_of(child, &ann, &mut alias, m);
        if same_text(&child.kind, &chars_of("singleton_class")) {
            proof {
                lemma_body_item_below(*node, i as int);
            }
            scan_body(child, true, m, dirs);
            ann = None;
            alias = None;
        } else {
            plain_step_of(child, &mut ann, &mut alias, m, singleton, dirs);
        }
    }
    match alias {
        Some(a) => keep_alias_of(m, &a),
        None => {},
    }
}

} // verus!

verus! {

// ---------------------------------------------------------------------------
// Walking the whole tree

/// A module nested in the annotated module, with its own members
/// (such as `ClassMethods` in a concern).
pub struct SubModule {
    pub name: Vec<char>,
    pub members: Members,
}

/// What a file declares: the enclosing modules, the annotated class or
/// module with its members, and nested annotated modules.
pub struct ClassInfo {
    pub modules: Vec<Vec<char>>,
    pub class_name: Vec<char>,
    pub is_module: bool,
    /// The superclass of the class, when written as a plain constant path.
    pub superclass: Option<Vec<char>>,
    pub members: Members,
    pub sub_modules: Vec<SubModule>,
}

#[verifier::ext_equal]
pub struct InfoView {
    pub modules: Seq<Seq<char>>,
    pub class_name: Seq<char>,
    pub is_module: bool,
    pub superclass: Option<Seq<char>>,
    pub m: MembersView,
    pub subs: Seq<(Seq<char>, MembersView)>,
}

pub open spec fn sub_views(v: Seq<SubModule>) -> Seq<(Seq<char>, MembersView)> {
    v.map_values(|s: SubModule| (s.name@, s.members@))
}

impl View for ClassInfo {
    type V = InfoView;

    open spec fn view(&self) -> InfoView {
        InfoView {
            modules: views(self.modules@),
            class_name: self.class_name@,
            is_module: self.is_module,
            superclass: opt_view(self.superclass),
            m: self.members@,
            subs: sub_views(self.sub_modules@),
        }
    }
}

/// The leftmost index at which `sep` occurs in `s`.
pub open spec fn first_occurrence(s: Seq<char>, sep: Seq<char>) -> Option<int>
    decreases s.len(),
{
    if occurs_at(s, sep, 0) {
        Some(0)
    } else if s.len() == 0 {
        None
    } else {
        match first_occurrence(s.subrange(1, s.len() as int), sep) {
            Some(k) => Some(k + 1),
            None => None,
        }
    }
}

pub proof fn lemma_first_occurrence(s: Seq<char>, sep: Seq<char>)
    ensures
        first_occurrence(s, sep) matches Some(k) ==> occurs_at(s, sep, k) && forall|j: int|
            0 <= j < k ==> !occurs_at(s, sep, j),
        first_occurrence(s, sep) is None ==> forall|j: int| !occurs_at(s, sep, j),
    decreases s.len(),
{
    if !occurs_at(s, sep, 0) && s.len() > 0 {
        let t = s.subrange(1, s.len() as int);
        lemma_first_occurrence(t, sep);
        assert forall|j: int| 1 <= j implies occurs_at(s, sep, j) == occurs_at(t, sep, j - 1) by {
            if j + sep.len() <= s.len() {
                assert(s.subrange(j, j + sep.len()) =~= t.subrange(j - 1, j - 1 + sep.len()));
            }
        }
    }
}

/// `s` split at each `::` (`str::split("::")`).
pub open spec fn split_path(s: Seq<char>) -> Seq<Seq<char>>
    decreases s.len(),
{
    proof {
        lemma_first_occurrence(s, "::"@);
        reveal_strlit("::");
    }
    match first_occurrence(s, "::"@) {
        None => seq![s],
        Some(k) => seq![s.subrange(0, k)] + split_path(s.subrange(k + 2, s.len() as int)),
    }
}

pub open spec fn unknown_class() -> Seq<char> {
    "UnknownClass"@
}

/// The first node that is not the `<` token.
pub open spec fn first_not_lt(cs: Seq<SyntaxNode>) -> Option<SyntaxNode>
    decreases cs.len(),
{
    if cs.len() == 0 {
        None
    } else if cs[0].kind@ != "<"@ {
        Some(cs[0])
    } else {
        first_not_lt(cs.subrange(1, cs.len() as int))
    }
}

/// A constant name: an ASCII upper-case letter, then identifier characters.
pub open spec fn is_const_segment(s: Seq<char>) -> bool {
    s.len() > 0 && 'A' <= s[0] && s[0] <= 'Z' && forall|j: int| 0 <= j < s.len() ==> spec_is_word(#[trigger] s[j])
}

/// A plain constant path such as `Bar`, `Foo::Bar` or `::Foo::Bar`.
pub open spec fn is_const_path(t: Seq<char>) -> bool {
    forall|i: int|
        0 <= i < split_path(path_body(t)).len() ==> is_const_segment(
            #[trigger] split_path(path_body(t))[i],
        )
}

/// A constant path without its leading `::`, if it has one.
pub open spec fn path_body(t: Seq<char>) -> Seq<char> {
    if starts_with(t, "::"@) {
        t.subrange(2, t.len() as int)
    } else {
        t
    }
}

/// The superclass of a `class` node as written, when it is a plain constant
/// path; `None` for no superclass or an expression such as `Struct.new(:a)`.
pub open spec fn superclass_of(node: SyntaxNode) -> Option<Seq<char>> {
    match field_child(node, "superclass"@) {
        Some(sc) => match first_not_lt(sc.children@) {
            Some(e) => if is_const_path(e.text@) {
                Some(e.text@)
            } else {
                None
            },
            None => None,
        },
        None => None,
    }
}

/// Walking the tree from `node`, with `stack` the modules that enclose it.
/// A `class` records the enclosing modules, its name and the members of its
/// body (anything found before is dropped); a named `module` is walked into,
/// and then becomes the annotated module itself when no class was found and
/// its own body has members, or, when a nested module was captured and the
/// module's own body has members, the annotated module with the nested one
/// kept as a sub-module.
pub open spec fn walk(node: SyntaxNode, stack: Seq<Seq<char>>, info: InfoView, ds: Seq<SharedDir>) -> InfoView
    decreases node, 1nat,
{
    if node.kind@ == "module"@ && field_child(node, "name"@) is Some {
        let name = field_child(node, "name"@).unwrap().text@;
        let info1 = walk_seq(node.children@, stack + split_path(name), info, ds);
        if info1.class_name == unknown_class() {
            let m2 = scan_node(node, false, info1.m, ds);
            if has_members(m2) {
                InfoView { modules: stack, class_name: name, is_module: true, m: m2, ..info1 }
            } else {
                InfoView { m: m2, ..info1 }
            }
        } else if info1.is_module {
            let pm = scan_node(node, false, no_members(), ds);
            if has_members(pm) {
                InfoView {
                    modules: stack,
                    class_name: name,
                    is_module: true,
                    m: pm,
                    subs: info1.subs.push((info1.class_name, info1.m)),
                    ..info1
                }
            } else {
                info1
            }
        } else {
            info1
        }
    } else if node.kind@ == "class"@ {
        InfoView {
            modules: stack,
            is_module: false,
            class_name: match field_child(node, "name"@) {
                Some(n) => n.text@,
                None => info.class_name,
            },
            superclass: superclass_of(node),
            m: scan_node(node, false, no_members(), ds),
            subs: info.subs,
        }
    } else {
        walk_seq(node.children@, stack, info, ds)
    }
}

pub open spec fn walk_seq(cs: Seq<SyntaxNode>, stack: Seq<Seq<char>>, info: InfoView, ds: Seq<SharedDir>) -> InfoView
    decreases cs, 0nat,
{
    if cs.len() == 0 {
        info
    } else {
        walk_seq(cs.subrange(1, cs.len() as int), stack, walk(cs[0], stack, info, ds), ds)
    }
}

pub open spec fn initial_info() -> InfoView {
    InfoView {
        modules: seq![],
        class_name: unknown_class(),
        is_module: false,
        superclass: None,
        m: no_members(),
        subs: seq![],
    }
}

/// What the file whose syntax tree is `root` declares.
pub open spec fn collect(root: SyntaxNode, ds: Seq<SharedDir>) -> InfoView {
    walk(root, seq![], initial_info(), ds)
}


/// The last `class` node in document order below `node` (itself included),
/// not looking inside a class, with the module names that enclose it: each
/// named `module` on the way adds its name split at `::`.
pub open spec fn last_class(node: SyntaxNode, stack: Seq<Seq<char>>) -> Option<(SyntaxNode, Seq<Seq<char>>)>
    decreases node, 1nat,
{
    if node.kind@ == "module"@ && field_child(node, "name"@) is Some {
        last_class_seq(node.children@, stack + split_path(field_child(node, "name"@).unwrap().text@))
    } else if node.kind@ == "class"@ {
        Some((node, stack))
    } else {
        last_class_seq(node.children@, stack)
    }
}

/// [`last_class`] over a sequence of sibling nodes.
pub open spec fn last_class_seq(cs: Seq<SyntaxNode>, stack: Seq<Seq<char>>) -> Option<(SyntaxNode, Seq<Seq<char>>)>
    decreases cs, 0nat,
{
    if cs.len() == 0 {
        None
    } else {
        match last_class_seq(cs.subrange(1, cs.len() as int), stack) {
            Some(found) => Some(found),
            None => last_class(cs[0], stack),
        }
    }
}

/// Whether a class node has a name other than the placeholder.
pub open spec fn properly_named(c: SyntaxNode) -> bool {
    field_child(c, "name"@) is Some && field_child(c, "name"@).unwrap().text@ != unknown_class()
}

/// Whether `info` reports the class `c`, enclosed by the modules `st`, with
/// only the members of its body.
pub open spec fn reports_class(info: InfoView, c: SyntaxNode, st: Seq<Seq<char>>, ds: Seq<SharedDir>) -> bool {
    &&& !info.is_module
    &&& info.class_name == field_child(c, "name"@).unwrap().text@
    &&& info.modules == st
    &&& info.superclass == superclass_of(c)
    &&& info.m == scan_node(c, false, no_members(), ds)
}

proof fn lemma_walk_no_class(node: SyntaxNode, stack: Seq<Seq<char>>, info: InfoView, ds: Seq<SharedDir>)
    requires
        last_class(node, stack) is None,
        !info.is_module,
        info.class_name != unknown_class(),
    ensures
        walk(node, stack, info, ds) == info,
    decreases node, 1nat,
{
    if node.kind@ == "module"@ && field_child(node, "name"@) is Some {
        let name = field_child(node, "name"@).unwrap().text@;
        lemma_walk_seq_no_class(node.children@, stack + split_path(name), info, ds);
    } else if node.kind@ == "class"@ {
    } else {
        lemma_walk_seq_no_class(node.children@, stack, info, ds);
    }
}

proof fn lemma_walk_seq_no_class(cs: Seq<SyntaxNode>, stack: Seq<Seq<char>>, info: InfoView, ds: Seq<SharedDir>)
    requires
        last_class_seq(cs, stack) is None,
        !info.is_module,
        info.class_name != unknown_class(),
    ensures
        walk_seq(cs, stack, info, ds) == info,
    decreases cs, 0nat,
{
    if cs.len() > 0 {
        lemma_walk_no_class(cs[0], stack, info, ds);
        lemma_walk_seq_no_class(cs.subrange(1, cs.len() as int), stack, info, ds);
    }
}

proof fn lemma_walk_last_class(node: SyntaxNode, stack: Seq<Seq<char>>, info: InfoView, ds: Seq<SharedDir>)
    requires
        last_class(node, stack) matches Some(found) && properly_named(found.0),
    ensures
        reports_class(walk(node, stack, info, ds), last_class(node, stack).unwrap().0, last_class(node, stack).unwrap().1, ds),
    decreases node, 1nat,
{
    if node.kind@ == "module"@ && field_child(node, "name"@) is Some {
        let name = field_child(node, "name"@).unwrap().text@;
        lemma_walk_seq_last_class(node.children@, stack + split_path(name), info, ds);
    } else if node.kind@ == "class"@ {
    } else {
        lemma_walk_seq_last_class(node.children@, stack, info, ds);
    }
}

proof fn lemma_walk_seq_last_class(cs: Seq<SyntaxNode>, stack: Seq<Seq<char>>, info: InfoView, ds: Seq<SharedDir>)
    requires
        last_class_seq(cs, stack) matches Some(found) && properly_named(found.0),
    ensures
        reports_class(
            walk_seq(cs, stack, info, ds),
            last_class_seq(cs, stack).unwrap().0,
            last_class_seq(cs, stack).unwrap().1,
            ds,
        ),
    decreases cs, 0nat,
{
    let rest = cs.subrange(1, cs.len() as int);
    let info1 = walk(cs[0], stack, info, ds);
    if last_class_seq(rest, stack) is Some {
        lemma_walk_seq_last_class(rest, stack, info1, ds);
    } else {
        lemma_walk_last_class(cs[0], stack, info, ds);
        lemma_walk_seq_no_class(rest, stack, info1, ds);
    }
}

/// A concern: when a named module has members of its own and the walk of
/// its body found an annotated nested module, the module is reported with
/// exactly the members of its own body, and the nested module is appended
/// to the sub-modules under its own name with the members found for it.
pub proof fn law_concern_keeps_members_apart(node: SyntaxNode, stack: Seq<Seq<char>>, info: InfoView, ds: Seq<SharedDir>)
    requires
        node.kind@ == "module"@,
        field_child(node, "name"@) is Some,
        ({
            let name = field_child(node, "name"@).unwrap().text@;
            let inner = walk_seq(node.children@, stack + split_path(name), info, ds);
            &&& inner.class_name != unknown_class()
            &&& inner.is_module
            &&& has_members(scan_node(node, false, no_members(), ds))
        }),
    ensures
        ({
            let name = field_child(node, "name"@).unwrap().text@;
            let inner = walk_seq(node.children@, stack + split_path(name), info, ds);
            let r = walk(node, stack, info, ds);
            &&& r.is_module
            &&& r.class_name == name
            &&& r.modules == stack
            &&& r.m == scan_node(node, false, no_members(), ds)
            &&& r.subs.len() == inner.subs.len() + 1
            &&& r.subs.subrange(0, inner.subs.len() as int) == inner.subs
            &&& r.subs.last() == (inner.class_name, inner.m)
        }),
{
    let name = field_child(node, "name"@).unwrap().text@;
    let inner = walk_seq(node.children@, stack + split_path(name), info, ds);
    let r = walk(node, stack, info, ds);
    assert(r.subs == inner.subs.push((inner.class_name, inner.m)));
    assert(r.subs.subrange(0, inner.subs.len() as int) =~= inner.subs);
}

/// A file reports its last class in document order (not counting classes
/// inside classes) when it has a name: not a module, that name, the modules
/// that enclose it, its superclass as written, and the members of its body
/// only.
pub proof fn law_walk_reports_last_class(root: SyntaxNode, ds: Seq<SharedDir>)
    requires
        last_class(root, seq![]) matches Some(found) && properly_named(found.0),
    ensures
        reports_class(collect(root, ds), last_class(root, seq![]).unwrap().0, last_class(root, seq![]).unwrap().1, ds),
{
    lemma_walk_last_class(root, seq![], initial_info(), ds);
}

} // verus!

verus! {

fn copy_list(v: &Vec<Vec<char>>) -> (r: Vec<Vec<char>>)
    ensures
        views(r@) == views(v@),
{
    let mut r: Vec<Vec<char>> = Vec::new();
    for i in 0..v.len()
        invariant
            views(r@) == views(v@).subrange(0, i as int),
    {
        let ghost prev = views(r@);
        r.push(vstd::slice::slice_to_vec(v[i].as_slice()));
        assert(views(r@) =~= prev.push(v@[i as int]@));
        assert(views(v@).subrange(0, i + 1) =~= views(v@).subrange(0, i as int).push(v@[i as int]@));
    }
    assert(views(v@).subrange(0, v@.len() as int) =~= views(v@));
    r
}

/// `str::split("::")`.
pub fn split_path_of(s: &[char]) -> (r: Vec<Vec<char>>)
    ensures
        views(r@) == split_path(s@),
{
    proof {
        reveal_strlit("::");
    }
    let mut r: Vec<Vec<char>> = Vec::new();
    let mut start: usize = 0;
    assert(s@.subrange(0, s@.len() as int) =~= s@);
    assert(views(r@) =~= Seq::<Seq<char>>::empty());
    assert("::"@ =~= seq![':', ':']);
    loop
        invariant
            "::"@ =~= seq![':', ':'],
            start <= s@.len(),
            split_path(s@) == views(r@) + split_path(s@.subrange(start as int, s@.len() as int)),
        decreases s@.len() - start,
    {
        let ghost rest = s@.subrange(start as int, s@.len() as int);
        proof {
            lemma_first_occurrence(rest, "::"@);
        }
        // find the leftmost "::" at or after `start`
        let mut k: usize = start;
        let mut found = false;
        while k < s.len() && !found
            invariant
                "::"@ =~= seq![':', ':'],
                start <= k <= s@.len(),
                rest == s@.subrange(start as int, s@.len() as int),
                found ==> k + 1 < s@.len() && s@[k as int] == ':' && s@[k + 1] == ':',
                forall|j: int| 0 <= j < k - start ==> !occurs_at(rest, "::"@, j),
            decreases s@.len() - k, if found { 0int } else { 1int },
        {
            if k + 1 < s.len() && s[k] == ':' && s[k + 1] == ':' {
                found = true;
            } else {
                assert(!occurs_at(rest, "::"@, k - start)) by {
                    if occurs_at(rest, "::"@, k - start) {
                        assert(rest.subrange(k - start, k - start + 2)[0] == s@[k as int]);
                        assert(rest.subrange(k - start, k - start + 2)[1] == s@[k + 1]);
                    }
                }
                k = k + 1;
            }
        }
        if found {
            proof {
                lemma_first_occurrence(rest, "::"@);
                assert(rest.subrange(k - start, k - start + 2) =~= "::"@);
                assert(occurs_at(rest, "::"@, k - start));
                assert(first_occurrence(rest, "::"@) == Some((k - start) as int)) by {
                    match first_occurrence(rest, "::"@) {
                        Some(m) => {
                            if m < k - start {
                            }
                            if m > k - start {
                            }
                        },
                        None => {},
                    }
                }
            }
            let seg = crate::text::copy_range(s, start, k);
            let ghost prev = views(r@);
            r.push(seg);
            proof {
                assert(rest.subrange(0, k - start) =~= s@.subrange(start as int, k as int));
                assert(views(r@) =~= prev.push(rest.subrange(0, k - start)));
                assert(rest.subrange(k - start + 2, rest.len() as int) =~= s@.subrange(k + 2, s@.len() as int));
                assert(views(r@) + split_path(s@.subrange(k + 2, s@.len() as int)) =~= prev + (seq![rest.subrange(0, k - start)] + split_path(rest.subrange(k - start + 2, rest.len() as int))));
            }
            start = k + 2;
        } else {
            proof {
                lemma_first_occurrence(rest, "::"@);
                assert forall|j: int| !occurs_at(rest, "::"@, j) by {
                    if 0 <= j && j + 2 <= rest.len() {
                        assert(j < k - start);
                    }
                }
                assert(first_occurrence(rest, "::"@) is None) by {
                    match first_occurrence(rest, "::"@) {
                        Some(m) => {},
                        None => {},
                    }
                }
            }
            let seg = crate::text::copy_range(s, start, s.len());
            let ghost prev = views(r@);
            r.push(seg);
            assert(views(r@) =~= prev + seq![rest]);
            return r;
        }
    }
}

fn truncate_stack(stack: &mut Vec<Vec<char>>, len: usize)
    requires
        len <= old(stack)@.len(),
    ensures
        views(final(stack)@) == views(old(stack)@).subrange(0, len as int),
{
    stack.truncate(len);
    assert(views(stack@) =~= views(old(stack)@).subrange(0, len as int));
}

fn walk_of(
    node: &SyntaxNode,
    stack: &mut Vec<Vec<char>>,
    info: &mut ClassInfo,
    dirs: &Vec<SharedDir>,
)
    ensures
        views(final(stack)@) == views(old(stack)@),
        final(info)@ == walk(*node, views(old(stack)@), old(info)@, dirs@),
    decreases node,
{
    let module_kind = chars_of("module");
    let class_kind = chars_of("class");
    let ghost st0 = views(stack@);
    if same_text(&node.kind, &module_kind) {
        match field_child_of(node, "name") {
            Some(name_node) => {
                let name = &name_node.text;
                let segments = split_path_of(name);
                let old_len = stack.len();
                assert(st0.len() == old_len);
                for k in 0..segments.len()
                    invariant
                        stack@.len() == old_len + k,
                        views(stack@) == st0 + views(segments@).subrange(0, k as int),
                {
                    let ghost prev = views(stack@);
                    stack.push(vstd::slice::slice_to_vec(segments[k].as_slice()));
                    assert(views(stack@) =~= prev.push(segments@[k as int]@));
                    assert(views(segments@).subrange(0, k + 1) =~= views(segments@).subrange(0, k as int).push(segments@[k as int]@));
                }
                assert(views(segments@).subrange(0, segments@.len() as int) =~= views(segments@));
                let ghost inner = views(stack@);
                walk_children(node, stack, info, dirs);
                let unknown = chars_of("UnknownClass");
                if same_text(&info.class_name, &unknown) {
                    scan_body(node, false, &mut info.members, dirs);
                    if !info.members.is_empty() {
                        truncate_stack(stack, old_len);
                        assert(views(stack@) =~= st0);
                        info.modules = copy_list(stack);
                        info.class_name = vstd::slice::slice_to_vec(name.as_slice());
                        info.is_module = true;
                        return;
                    }
                } else if info.is_module {
                    let mut parent = Members::new();
                    scan_body(node, false, &mut parent, dirs);
                    if !parent.is_empty() {
                        let ghost prev_subs = sub_views(info.sub_modules@);
                        let ghost prev_name = info.class_name@;
                        let ghost prev_m = info.members@;
                        let mut nested_members = Members::new();
                        core::mem::swap(&mut nested_members, &mut info.members);
                        let nested = SubModule {
                            name: vstd::slice::slice_to_vec(info.class_name.as_slice()),
                            members: nested_members,
                        };
                        info.sub_modules.push(nested);
                        assert(sub_views(info.sub_modules@) =~= prev_subs.push((prev_name, prev_m)));
                        info.members = parent;
                        truncate_stack(stack, old_len);
                        assert(views(stack@) =~= st0);
                        info.modules = copy_list(stack);
                        info.class_name = vstd::slice::slice_to_vec(name.as_slice());
                        info.is_module = true;
                        return;
                    }
                }
                truncate_stack(stack, old_len);
                assert(views(stack@) =~= st0);
                return;
            },
            None => {},
        }
    } else if same_text(&node.kind, &class_kind) {
        info.modules = copy_list(stack);
        info.is_module = false;
        match field_child_of(node, "name") {
            Some(n) => {
                info.class_name = vstd::slice::slice_to_vec(n.text.as_slice());
            },
            None => {},
        }
        info.superclass = superclass_of_node(node);
        info.members = Members::new();
        scan_body(node, false, &mut info.members, dirs);
        return;
    }
    proof {
        reveal_strlit("module");
        reveal_strlit("class");
        assert("module"@[0] != "class"@[0]);
        assert("module"@ != "class"@);
    }
    assert(walk(*node, st0, info@, dirs@) == walk_seq(node.children@, st0, info@, dirs@));
    walk_children(node, stack, info, dirs);
}

fn walk_children(
    node: &SyntaxNode,
    stack: &mut Vec<Vec<char>>,
    info: &mut ClassInfo,
    dirs: &Vec<SharedDir>,
)
    ensures
        views(final(stack)@) == views(old(stack)@),
        final(info)@ == walk_seq(node.children@, views(old(stack)@), old(info)@, dirs@),
    decreases node, 0nat,
{
    let ghost cs = node.children@;
    let ghost st0 = views(stack@);
    let ghost target = walk_seq(cs, st0, info@, dirs@);
    assert(cs.subrange(0, cs.len() as int) =~= cs);
    for i in 0..node.children.len()
        invariant
            cs == node.children@,
            views(stack@) == st0,
            target == walk_seq(cs.subrange(i as int, cs.len() as int), st0, info@, dirs@),
    {
        let ghost rest = cs.subrange(i as int, cs.len() as int);
        assert(rest[0] == cs[i as int]);
        assert(rest.subrange(1, rest.len() as int) =~= cs.subrange(i + 1, cs.len() as int));
        walk_of(&node.children[i], stack, info, dirs);
    }
}

} // verus!

verus! {

/// Walks a whole syntax tree with no enclosing modules.
pub fn walk_children_from_root(root: &SyntaxNode, info: &mut ClassInfo, dirs: &Vec<SharedDir>)
    ensures
        final(info)@ == walk(*root, seq![], old(info)@, dirs@),
{
    let mut stack: Vec<Vec<char>> = Vec::new();
    assert(views(stack@) =~= Seq::<Seq<char>>::empty());
    walk_of(root, &mut stack, info, dirs);
}

} // verus!

verus! {

fn first_not_lt_of<'a>(cs: &'a Vec<SyntaxNode>) -> (r: Option<&'a SyntaxNode>)
    ensures
        r matches Some(c) ==> first_not_lt(cs@) == Some(*c),
        r is None ==> first_not_lt(cs@) is None,
{
    let lt = chars_of("<");
    let ghost v = cs@;
    assert(v.subrange(0, v.len() as int) =~= v);
    for i in 0..cs.len()
        invariant
            v == cs@,
            lt@ == "<"@,
            first_not_lt(v) == first_not_lt(v.subrange(i as int, v.len() as int)),
    {
        let ghost rest = v.subrange(i as int, v.len() as int);
        assert(rest[0] == v[i as int]);
        assert(rest.subrange(1, rest.len() as int) =~= v.subrange(i + 1, v.len() as int));
        if !same_text(&cs[i].kind, &lt) {
            return Some(&cs[i]);
        }
    }
    assert(v.subrange(v.len() as int, v.len() as int) =~= Seq::<SyntaxNode>::empty());
    None
}

fn is_const_segment_of(s: &Vec<char>) -> (r: bool)
    ensures
        r == is_const_segment(s@),
{
    if s.len() == 0 || !('A' <= s[0] && s[0] <= 'Z') {
        return false;
    }
    for j in 0..s.len()
        invariant
            forall|k: int| 0 <= k < j ==> spec_is_word(#[trigger] s@[k]),
    {
        if !is_word(s[j]) {
            return false;
        }
    }
    true
}

fn is_const_path_of(t: &Vec<char>) -> (r: bool)
    ensures
        r == is_const_path(t@),
{
    proof {
        reveal_strlit("::");
        assert(t@.subrange(0, t@.len() as int) =~= t@);
    }
    let sep = chars_of("::");
    assert(sep@.len() == 2);
    let body = if has_prefix(t, &sep) {
        crate::text::copy_range(t, 2, t.len())
    } else {
        crate::text::copy_range(t, 0, t.len())
    };
    assert(body@ == path_body(t@));
    let segs = split_path_of(&body);
    for i in 0..segs.len()
        invariant
            views(segs@) == split_path(body@),
            body@ == path_body(t@),
            forall|k: int| 0 <= k < i ==> is_const_segment(#[trigger] split_path(body@)[k]),
    {
        assert(views(segs@)[i as int] == segs@[i as int]@);
        if !is_const_segment_of(&segs[i]) {
            assert(!is_const_segment(split_path(body@)[i as int]));
            return false;
        }
    }
    true
}

/// The superclass of a `class` node, when written as a plain constant path.
pub fn superclass_of_node(node: &SyntaxNode) -> (r: Option<Vec<char>>)
    ensures
        opt_view(r) == superclass_of(*node),
{
    match field_child_of(node, "superclass") {
        Some(sc) => match first_not_lt_of(&sc.children) {
            Some(e) => if is_const_path_of(&e.text) {
                Some(vstd::slice::slice_to_vec(e.text.as_slice()))
            } else {
                None
            },
            None => None,
        },
        None => None,
    }
}

} // verus!
