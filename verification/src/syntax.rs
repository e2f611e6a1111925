//! A plain model of the Ruby syntax tree that tree-sitter builds, and the
//! conversion from tree-sitter's nodes into it.
use vstd::prelude::*;
use crate::text::chars_of;

verus! {

#[verifier::external_type_specification]
#[verifier::external_body]
pub struct ExParser(tree_sitter::Parser);

#[verifier::external_type_specification]
#[verifier::external_body]
pub struct ExTree(tree_sitter::Tree);

#[verifier::external_type_specification]
#[verifier::external_body]
pub struct ExNode<'a>(tree_sitter::Node<'a>);

#[verifier::external_type_specification]
#[verifier::external_body]
pub struct ExTreeCursor<'a>(tree_sitter::TreeCursor<'a>);

/// One node of a syntax tree: its grammar kind, the source text it spans
/// (empty if its byte range does not fall on character boundaries), the field
/// name under which its parent holds it (if any), and all of its children,
/// named and anonymous, in source order.
pub struct SyntaxNode {
    pub kind: Vec<char>,
    pub text: Vec<char>,
    pub field: Option<Vec<char>>,
    pub children: Vec<SyntaxNode>,
}

/// A tree-sitter parser that holds the Ruby grammar. [`ruby_parser`] is the
/// only way to make one, and nothing in the library sets a timeout or a
/// cancellation flag on it.
pub struct RubyParser {
    parser: tree_sitter::Parser,
}

/// `tree_sitter::Parser::set_language` with `tree_sitter_ruby::language()` on
/// a new parser (`tree_sitter::Parser::new`). tree-sitter-ruby's grammar has
/// ABI version 14, inside the range 13..=14 that `set_language` accepts, so
/// the language error it would report does not arise. Nothing is claimed of
/// the parser, which is opaque here.
#[verifier::external_body]
pub(crate) fn ruby_parser() -> RubyParser {
    let mut parser = tree_sitter::Parser::new();
    parser.set_language(tree_sitter_ruby::language()).expect("Error loading Ruby grammar");
    RubyParser { parser }
}

/// The number of bytes UTF-8 takes for `c`.
pub open spec fn utf8_width(c: char) -> nat {
    if (c as u32) < 0x80 {
        1
    } else if (c as u32) < 0x800 {
        2
    } else if (c as u32) < 0x10000 {
        3
    } else {
        4
    }
}

/// The byte offset, in the UTF-8 form of `s`, of its character at index `i`.
pub open spec fn byte_offset(s: Seq<char>, i: int) -> nat
    decreases i,
{
    if i <= 0 || s.len() == 0 {
        0
    } else {
        byte_offset(s, i - 1) + utf8_width(s[i - 1])
    }
}

/// The text between two byte offsets of the UTF-8 form of `s`, when both
/// fall on character boundaries and `start` does not come after `end`.
pub open spec fn byte_range(s: Seq<char>, start: nat, end: nat) -> Option<Seq<char>> {
    if exists|i: int, j: int|
        0 <= i <= j <= s.len() && #[trigger] byte_offset(s, i) == start && #[trigger] byte_offset(s, j) == end {
        let (i, j) = choose|i: int, j: int|
            0 <= i <= j <= s.len() && #[trigger] byte_offset(s, i) == start && #[trigger] byte_offset(s, j)
                == end;
        Some(s.subrange(i, j))
    } else {
        None
    }
}

/// `str::get` with a byte range (`start..end`), which gives `None` exactly
/// where indexing would panic.
#[verifier::external_body]
fn str_range(s: &str, start: usize, end: usize) -> (r: Option<&str>)
    ensures
        match r {
            Some(t) => byte_range(s@, start as nat, end as nat) == Some(t@),
            None => byte_range(s@, start as nat, end as nat) is None,
        },
{
    s.get(start..end)
}

// ---------------------------------------------------------------------------
// The tree tree-sitter builds for a source, named node by node. A node is
// named by the source and its path: the child indices that lead to it from
// the root.

/// `tree_sitter::Node::kind` of the node at `path` in the tree of `source`.
pub uninterp spec fn ts_kind(source: Seq<char>, path: Seq<usize>) -> Seq<char>;

/// `tree_sitter::Node::start_byte` of the node at `path` in the tree of
/// `source`.
pub uninterp spec fn ts_start(source: Seq<char>, path: Seq<usize>) -> usize;

/// `tree_sitter::Node::end_byte` of the node at `path` in the tree of
/// `source`.
pub uninterp spec fn ts_end(source: Seq<char>, path: Seq<usize>) -> usize;

/// `tree_sitter::Node::child_count` of the node at `path` in the tree of
/// `source`.
pub uninterp spec fn ts_child_count(source: Seq<char>, path: Seq<usize>) -> usize;

/// `tree_sitter::TreeCursor::field_name` on the node at `path` (not the
/// root) in the tree of `source`: the field under which its parent holds it.
pub uninterp spec fn ts_field(source: Seq<char>, path: Seq<usize>) -> Option<Seq<char>>;

/// The text of the node at `path` in the tree of `source`: the source between
/// its byte offsets, or nothing when they do not fall on character
/// boundaries.
pub open spec fn ts_text(source: Seq<char>, path: Seq<usize>) -> Seq<char> {
    match byte_range(source, ts_start(source, path) as nat, ts_end(source, path) as nat) {
        Some(t) => t,
        None => seq![],
    }
}

pub open spec fn opt_text(o: Option<Vec<char>>) -> Option<Seq<char>> {
    match o {
        Some(v) => Some(v@),
        None => None,
    }
}

/// Whether `n` is the node at `path` in the tree of `source`, with all that
/// lies below it down to `levels` levels (below that, no children are kept).
/// The field of `n` itself is not part of this: it belongs to its parent.
pub open spec fn is_tree_at(n: SyntaxNode, source: Seq<char>, path: Seq<usize>, levels: nat) -> bool
    decreases n, 0nat,
{
    &&& n.kind@ == ts_kind(source, path)
    &&& n.text@ == ts_text(source, path)
    &&& if levels == 0 {
        n.children@.len() == 0
    } else {
        n.children@.len() == ts_child_count(source, path) && children_at(
            n.children@,
            0,
            source,
            path,
            (levels - 1) as nat,
        )
    }
}

/// Whether the nodes of `cs` from index `i` on are the children at those
/// indices of the node at `path`, each under its field.
pub open spec fn children_at(cs: Seq<SyntaxNode>, i: int, source: Seq<char>, path: Seq<usize>, levels: nat) -> bool
    decreases cs, cs.len() - i,
{
    if 0 <= i < cs.len() {
        &&& opt_text(cs[i].field) == ts_field(source, path.push(i as usize))
        &&& is_tree_at(cs[i], source, path.push(i as usize), levels)
        &&& children_at(cs, i + 1, source, path, levels)
    } else {
        true
    }
}

/// The deepest nesting kept when a tree is converted; no syntax tree held in
/// memory is deeper.
pub open spec fn all_levels() -> nat {
    usize::MAX as nat
}

/// A parsed tree together with the source it was parsed from; [`parse_source`]
/// is the only way to make one.
struct ParsedTree<'s> {
    tree: tree_sitter::Tree,
    source: &'s str,
}

/// A node of a [`ParsedTree`] with its path from the root; only
/// [`tree_root`] and [`cursor_node`] make one.
struct PathNode<'s, 't> {
    node: tree_sitter::Node<'t>,
    source: &'s str,
    path: Vec<usize>,
}

/// A cursor standing on the child `index` of the node at `parent`; only
/// [`first_child`] and [`next_sibling`] make one.
struct ChildCursor<'s, 't> {
    cursor: tree_sitter::TreeCursor<'t>,
    source: &'s str,
    parent: Vec<usize>,
    index: usize,
}

/// `tree_sitter::Parser::parse` of `source` with no previous tree. Its
/// documentation gives `None` only for a parser with no language, after a
/// timeout, or after a cancellation flag is flipped; a [`RubyParser`] has the
/// Ruby grammar and neither of the others, so a tree comes back, kept with
/// its source.
#[verifier::external_body]
fn parse_source<'s>(parser: &mut RubyParser, source: &'s str) -> (r: Option<ParsedTree<'s>>)
    ensures
        r is Some,
        r matches Some(t) ==> t.source@ == source@,
{
    match parser.parser.parse(source, None) {
        Some(tree) => Some(ParsedTree { tree, source }),
        None => None,
    }
}

/// `tree_sitter::Tree::root_node`: the node at the empty path.
#[verifier::external_body]
fn tree_root<'s, 't>(t: &'t ParsedTree<'s>) -> (r: PathNode<'s, 't>)
    ensures
        r.source@ == t.source@,
        r.path@ == Seq::<usize>::empty(),
{
    PathNode { node: t.tree.root_node(), source: t.source, path: Vec::new() }
}

/// `tree_sitter::Node::kind` (tree-sitter unwraps the kind name as UTF-8;
/// the Ruby grammar's names are ASCII).
#[verifier::external_body]
fn node_kind<'s, 't>(n: &PathNode<'s, 't>) -> (r: &'static str)
    ensures
        r@ == ts_kind(n.source@, n.path@),
{
    n.node.kind()
}

/// `tree_sitter::Node::start_byte`.
#[verifier::external_body]
fn node_start_byte<'s, 't>(n: &PathNode<'s, 't>) -> (r: usize)
    ensures
        r == ts_start(n.source@, n.path@),
{
    n.node.start_byte()
}

/// `tree_sitter::Node::end_byte`.
#[verifier::external_body]
fn node_end_byte<'s, 't>(n: &PathNode<'s, 't>) -> (r: usize)
    ensures
        r == ts_end(n.source@, n.path@),
{
    n.node.end_byte()
}

/// `tree_sitter::Node::child_count`.
#[verifier::external_body]
fn node_child_count<'s, 't>(n: &PathNode<'s, 't>) -> (r: usize)
    ensures
        r == ts_child_count(n.source@, n.path@),
{
    n.node.child_count()
}

/// `tree_sitter::TreeCursor::goto_first_child` on a cursor made by
/// `tree_sitter::Node::walk`: it moves to the first child, and succeeds,
/// exactly when the node has children (`child_count` counts the same
/// children the cursor visits).
#[verifier::external_body]
fn first_child<'s, 't>(n: &PathNode<'s, 't>) -> (r: Option<ChildCursor<'s, 't>>)
    ensures
        r is Some <==> ts_child_count(n.source@, n.path@) > 0,
        r matches Some(c) ==> c.source@ == n.source@ && c.parent@ == n.path@ && c.index == 0,
{
    let mut cursor = n.node.walk();
    match cursor.goto_first_child() {
        true => Some(ChildCursor { cursor, source: n.source, parent: n.path.clone(), index: 0 }),
        false => None,
    }
}

/// `tree_sitter::TreeCursor::goto_next_sibling`: it moves to the next child
/// of the same parent, and succeeds, exactly when there is one. `next` is the
/// index of that child.
#[verifier::external_body]
fn next_sibling<'s, 't>(c: ChildCursor<'s, 't>, next: usize) -> (r: Option<ChildCursor<'s, 't>>)
    requires
        next == c.index + 1,
    ensures
        r is Some <==> next < ts_child_count(c.source@, c.parent@),
        r matches Some(d) ==> d.source@ == c.source@ && d.parent@ == c.parent@ && d.index == next,
{
    let mut c = c;
    match c.cursor.goto_next_sibling() {
        true => Some(ChildCursor { index: next, ..c }),
        false => None,
    }
}

/// `tree_sitter::TreeCursor::node`: the child the cursor stands on, at
/// `path`, which the caller gives.
#[verifier::external_body]
fn cursor_node<'s, 't>(c: &ChildCursor<'s, 't>, path: Vec<usize>) -> (r: PathNode<'s, 't>)
    requires
        path@ == c.parent@.push(c.index),
    ensures
        r.source@ == c.source@,
        r.path@ == path@,
{
    PathNode { node: c.cursor.node(), source: c.source, path }
}

/// `tree_sitter::TreeCursor::field_name` on the child the cursor stands on
/// (tree-sitter unwraps the field name as UTF-8; the Ruby grammar's names are
/// ASCII).
#[verifier::external_body]
fn cursor_field_name<'s, 't>(c: &ChildCursor<'s, 't>) -> (r: Option<&'static str>)
    ensures
        match r {
            Some(f) => ts_field(c.source@, c.parent@.push(c.index)) == Some(f@),
            None => ts_field(c.source@, c.parent@.push(c.index)) is None,
        },
{
    c.cursor.field_name()
}

proof fn lemma_children_at(cs: Seq<SyntaxNode>, i: int, source: Seq<char>, path: Seq<usize>, levels: nat)
    requires
        0 <= i <= cs.len(),
        forall|k: int|
            i <= k < cs.len() ==> opt_text(#[trigger] cs[k].field) == ts_field(source, path.push(k as usize))
                && is_tree_at(cs[k], source, path.push(k as usize), levels),
    ensures
        children_at(cs, i, source, path, levels),
    decreases cs.len() - i,
{
    if i < cs.len() {
        lemma_children_at(cs, i + 1, source, path, levels);
    }
}

/// Converts a node and, down to `levels` levels, what lies below it.
/// Children are visited the way `Node::children` does: a cursor moved to the
/// first child and then from sibling to sibling.
fn convert_node<'s, 't>(n: &PathNode<'s, 't>, levels: usize) -> (r: SyntaxNode)
    ensures
        r.field is None,
        is_tree_at(r, n.source@, n.path@, levels as nat),
    decreases levels,
{
    let kind = chars_of(node_kind(n));
    let text = match str_range(n.source, node_start_byte(n), node_end_byte(n)) {
        Some(t) => chars_of(t),
        None => Vec::new(),
    };
    let mut children: Vec<SyntaxNode> = Vec::new();
    let count = node_child_count(n);
    if levels > 0 {
        let mut cur = first_child(n);
        let mut k: usize = 0;
        while k < count
            invariant
                levels > 0,
                count == ts_child_count(n.source@, n.path@),
                k <= count,
                children@.len() == k,
                k < count ==> (cur matches Some(c) && c.source@ == n.source@ && c.parent@ == n.path@ && c.index == k),
                forall|q: int|
                    0 <= q < k ==> opt_text(#[trigger] children@[q].field) == ts_field(
                        n.source@,
                        n.path@.push(q as usize),
                    ) && is_tree_at(children@[q], n.source@, n.path@.push(q as usize), (levels - 1) as nat),
            decreases count - k,
        {
            let c = match cur {
                Some(c) => c,
                None => {
                    return SyntaxNode { kind, text, field: None, children };
                },
            };
            let mut path = n.path.clone();
            path.push(k);
            let child = cursor_node(&c, path);
            let field = match cursor_field_name(&c) {
                Some(f) => Some(chars_of(f)),
                None => None,
            };
            let mut converted = convert_node(&child, levels - 1);
            let ghost before = converted;
            converted.field = field;
            assert(is_tree_at(converted, n.source@, n.path@.push(k), (levels - 1) as nat) == is_tree_at(
                before,
                n.source@,
                n.path@.push(k),
                (levels - 1) as nat,
            ));
            children.push(converted);
            cur = next_sibling(c, k + 1);
            k = k + 1;
        }
        proof {
            lemma_children_at(children@, 0, n.source@, n.path@, (levels - 1) as nat);
        }
    }
    SyntaxNode { kind, text, field: None, children }
}

/// Parses Ruby source and returns the tree in the library's own form: the
/// tree tree-sitter builds for `source`, node by node, with the root under no
/// field.
pub(crate) fn parse_ruby(parser: &mut RubyParser, source: &str) -> (r: SyntaxNode)
    ensures
        r.field is None,
        is_tree_at(r, source@, Seq::<usize>::empty(), all_levels()),
{
    match parse_source(parser, source) {
        Some(tree) => {
            let root = tree_root(&tree);
            convert_node(&root, usize::MAX)
        },
        None => {
            proof {
                assert(false);
            }
            SyntaxNode { kind: Vec::new(), text: Vec::new(), field: None, children: Vec::new() }
        },
    }
}

} // verus!
