//! The transpiler: Ruby source with `#:` and `# @rbs` annotations in, RBS
//! signature text out.
use vstd::prelude::*;
use crate::syntax::{SyntaxNode, RubyParser, ruby_parser, parse_ruby, is_tree_at, all_levels};
use crate::structure::{ClassInfo, Members, collect, walk_children_from_root};
use crate::emit::{render, render_info};
use crate::shared::{SharedDir, references, references_type_chars, single_import, resolve_single_import};
use crate::annotations::{strip, strip_annotations as strip_chars};
use crate::format::{split_commas, split_top_level_commas as split_chars};
use crate::text::{chars_of, string_of, contains, contains_str, occurs_at, lines, lines_of, trim, trim_of, strip_prefix, strip_prefix_of};

verus! {

broadcast use vstd::string::group_string_axioms;

/// The RBS text for a file whose syntax tree is `root`, with `ds` the shared
/// type directories that `# @rbs import` reads.
pub open spec fn transpile(root: SyntaxNode, ds: Seq<SharedDir>, emit_superclasses: bool) -> Seq<char> {
    render(collect(root, ds), emit_superclasses)
}

/// Whether generated RBS text declares anything: a method, a type or an
/// attribute.
pub open spec fn spec_has_content(rbs: Seq<char>) -> bool {
    contains(rbs, "def "@) || contains(rbs, "type "@) || contains(rbs, "attr_"@)
}

proof fn lemma_contains_prefix(s: Seq<char>, p: Seq<char>, q: Seq<char>)
    requires
        contains(s, p + q),
    ensures
        contains(s, p),
{
    let i = choose|i: int| occurs_at(s, p + q, i);
    let w = s.subrange(i, i + (p + q).len());
    assert(w == p + q);
    assert(s.subrange(i, i + p.len()) =~= w.subrange(0, p.len() as int));
    assert(w.subrange(0, p.len() as int) =~= p);
    assert(occurs_at(s, p, i));
}

/// Generated text has content when it declares a method (`def `), a type
/// alias (`type `) or an attribute of any kind (`attr_reader`,
/// `attr_writer`, `attr_accessor`, or any `attr_` line), and only then.
pub proof fn law_content_means_declarations(t: Seq<char>)
    ensures
        contains(t, "attr_reader"@) ==> spec_has_content(t),
        contains(t, "attr_writer"@) ==> spec_has_content(t),
        contains(t, "attr_accessor"@) ==> spec_has_content(t),
        contains(t, "def "@) ==> spec_has_content(t),
        contains(t, "type "@) ==> spec_has_content(t),
        spec_has_content(t) ==> contains(t, "def "@) || contains(t, "type "@) || contains(t, "attr_"@),
{
    reveal_strlit("attr_");
    reveal_strlit("reader");
    reveal_strlit("writer");
    reveal_strlit("accessor");
    reveal_strlit("attr_reader");
    reveal_strlit("attr_writer");
    reveal_strlit("attr_accessor");
    assert("attr_reader"@ =~= "attr_"@ + "reader"@);
    assert("attr_writer"@ =~= "attr_"@ + "writer"@);
    assert("attr_accessor"@ =~= "attr_"@ + "accessor"@);
    if contains(t, "attr_reader"@) {
        lemma_contains_prefix(t, "attr_"@, "reader"@);
    }
    if contains(t, "attr_writer"@) {
        lemma_contains_prefix(t, "attr_"@, "writer"@);
    }
    if contains(t, "attr_accessor"@) {
        lemma_contains_prefix(t, "attr_"@, "accessor"@);
    }
}

/// The name a line imports with `# @rbs import <name>`, if it is such a line.
pub open spec fn imported_name(line: Seq<char>) -> Option<Seq<char>> {
    match strip_prefix(trim(line), "# @rbs import "@) {
        Some(rest) => Some(trim(rest)),
        None => None,
    }
}

/// The names, in line order, that the `# @rbs import` lines of `ls` ask for
/// and that looking up in `ds` finds nothing for.
pub open spec fn unresolved_in(ls: Seq<Seq<char>>, ds: Seq<SharedDir>) -> Seq<Seq<char>>
    decreases ls.len(),
{
    if ls.len() == 0 {
        seq![]
    } else {
        unresolved_in(ls.drop_last(), ds) + match imported_name(ls.last()) {
            Some(n) => if single_import(ds, n).len() == 0 {
                seq![n]
            } else {
                seq![]
            },
            None => seq![],
        }
    }
}

/// Generates RBS signatures from annotated Ruby sources.
pub struct SentinelTranspiler {
    parser: RubyParser,
    shared: Vec<SharedDir>,
    emit_superclasses: bool,
}

impl SentinelTranspiler {
    /// The shared type directories that `# @rbs import` reads.
    pub closed spec fn shared_dirs(&self) -> Seq<SharedDir> {
        self.shared@
    }

    /// Whether classes are written with their superclass.
    pub closed spec fn writes_superclasses(&self) -> bool {
        self.emit_superclasses
    }

    /// A transpiler with no shared type directories.
    pub fn new() -> (r: SentinelTranspiler)
        ensures
            r.shared_dirs().len() == 0,
            !r.writes_superclasses(),
    {
        SentinelTranspiler { parser: ruby_parser(), shared: Vec::new(), emit_superclasses: false }
    }

    /// Sets whether classes are written as `class Foo < Bar`.
    pub fn set_emit_superclasses(&mut self, emit: bool)
        ensures
            final(self).writes_superclasses() == emit,
            final(self).shared_dirs() == old(self).shared_dirs(),
    {
        self.emit_superclasses = emit;
    }

    /// Sets the shared type directories, each given as the files it lists,
    /// that `# @rbs import <name>` resolves from.
    pub fn set_shared_paths(&mut self, dirs: Vec<SharedDir>)
        ensures
            final(self).shared_dirs() == dirs@,
            final(self).writes_superclasses() == old(self).writes_superclasses(),
    {
        self.shared = dirs;
    }

    /// The RBS text for a file whose syntax tree is `root`.
    pub fn transpile_tree(&self, root: &SyntaxNode) -> (r: String)
        ensures
            r@ == transpile(*root, self.shared_dirs(), self.writes_superclasses()),
    {
        let mut info = ClassInfo {
            modules: Vec::new(),
            class_name: chars_of("UnknownClass"),
            is_module: false,
            superclass: None,
            members: Members::new(),
            sub_modules: Vec::new(),
        };
        assert(info@.modules =~= Seq::<Seq<char>>::empty());
        assert(info@.subs =~= Seq::<(Seq<char>, crate::structure::MembersView)>::empty());
        assert(info@ =~= crate::structure::initial_info());
        walk_children_from_root(root, &mut info, &self.shared);
        let out = render_info(&info, self.emit_superclasses);
        string_of(&out)
    }

    /// Parses Ruby source and returns the RBS text for it: the text that
    /// [`transpile`] gives for the syntax tree tree-sitter builds for
    /// `source`, taken node by node ([`is_tree_at`] from the root).
    pub fn transpile_source(&mut self, source: &str) -> (r: String)
        ensures
            final(self).shared_dirs() == old(self).shared_dirs(),
            final(self).writes_superclasses() == old(self).writes_superclasses(),
            exists|t: SyntaxNode|
                #[trigger] is_tree_at(t, source@, Seq::<usize>::empty(), all_levels()) && t.field is None
                    && transpile(t, old(self).shared_dirs(), old(self).writes_superclasses()) == r@,
    {
        let root = parse_ruby(&mut self.parser, source);
        let out = self.transpile_tree(&root);
        assert(is_tree_at(root, source@, Seq::<usize>::empty(), all_levels()));
        out
    }

    /// The names that `# @rbs import` lines of `source` ask for and that the
    /// shared type directories hold nothing for, in line order; each is
    /// reported as a warning.
    pub fn unresolved_imports(&self, source: &str) -> (r: Vec<String>)
        ensures
            r@.len() == unresolved_in(lines(source@), self.shared_dirs()).len(),
            forall|i: int| 0 <= i < r@.len() ==> #[trigger] r@[i]@ == unresolved_in(lines(source@), self.shared_dirs())[i],
    {
        let ls = lines_of(&chars_of(source));
        let ghost lv = lines(source@);
        let prefix = chars_of("# @rbs import ");
        let mut r: Vec<String> = Vec::new();
        assert(lv.subrange(0, 0) =~= Seq::<Seq<char>>::empty());
        for i in 0..ls.len()
            invariant
                lv == lines(source@),
                prefix@ == "# @rbs import "@,
                ls@.len() == lv.len(),
                forall|k: int| 0 <= k < ls@.len() ==> #[trigger] ls@[k]@ == lv[k],
                r@.len() == unresolved_in(lv.subrange(0, i as int), self.shared@).len(),
                forall|k: int|
                    0 <= k < r@.len() ==> #[trigger] r@[k]@ == unresolved_in(lv.subrange(0, i as int), self.shared@)[k],
        {
            let ghost pre = lv.subrange(0, i as int);
            let ghost next = lv.subrange(0, i + 1);
            assert(next.drop_last() =~= pre);
            assert(next.last() == ls@[i as int]@);
            let ghost before = unresolved_in(pre, self.shared@);
            let t = trim_of(&ls[i]);
            match strip_prefix_of(&t, &prefix) {
                Some(rest) => {
                    let name = trim_of(&rest);
                    let found = resolve_single_import(&self.shared, &name);
                    if found.len() == 0 {
                        assert(crate::text::views(found@).len() == 0);
                        r.push(string_of(&name));
                        assert(unresolved_in(next, self.shared@) == before + seq![name@]);
                    } else {
                        assert(crate::text::views(found@).len() > 0);
                        assert(unresolved_in(next, self.shared@) =~= before);
                    }
                },
                None => {
                    assert(unresolved_in(next, self.shared@) =~= before);
                },
            }
        }
        assert(lv.subrange(0, lv.len() as int) =~= lv);
        r
    }

    /// Whether generated RBS text has meaningful content worth writing.
    pub fn has_content(rbs: &str) -> (r: bool)
        ensures
            r == spec_has_content(rbs@),
    {
        let s = chars_of(rbs);
        contains_str(&s, &chars_of("def ")) || contains_str(&s, &chars_of("type ")) || contains_str(
            &s,
            &chars_of("attr_"),
        )
    }

    /// Removes `@word(...)` annotations from a signature and tidies what
    /// they leave behind; a text without annotations is returned unchanged.
    pub fn strip_annotations(s: &str) -> (r: String)
        ensures
            r@ == strip(s@),
    {
        let c = chars_of(s);
        string_of(&strip_chars(&c))
    }

    /// Splits at commas outside brackets, trimming each part and dropping
    /// empty ones.
    pub fn split_top_level_commas(s: &str) -> (r: Vec<String>)
        ensures
            r@.len() == split_commas(s@).len(),
            forall|i: int| 0 <= i < r@.len() ==> #[trigger] r@[i]@ == split_commas(s@)[i],
    {
        let c = chars_of(s);
        let parts = split_chars(&c);
        let mut r: Vec<String> = Vec::new();
        for i in 0..parts.len()
            invariant
                r@.len() == i,
                parts@.len() == split_commas(s@).len(),
                forall|k: int| 0 <= k < parts@.len() ==> #[trigger] parts@[k]@ == split_commas(s@)[k],
                forall|k: int| 0 <= k < i ==> #[trigger] r@[k]@ == split_commas(s@)[k],
        {
            r.push(string_of(&parts[i]));
        }
        r
    }

    /// Whether `alias` mentions `name` as a whole word.
    pub fn references_type(alias: &str, name: &str) -> (r: bool)
        ensures
            r == references(alias@, name@),
    {
        references_type_chars(&chars_of(alias), &chars_of(name))
    }
}

} // verus!
