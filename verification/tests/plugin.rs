use sentinel::plugin::{AngleBracketPlugin, SentinelPlugin, TypeCasePlugin, VoidArgumentPlugin};

fn check(input: &str) -> Vec<(String, String)> {
    AngleBracketPlugin.check(input)
}

#[test]
fn catches_array_angle() {
    let issues = check("  def foo: () -> Array<Hash>");
    assert_eq!(issues.len(), 1);
    assert!(issues[0].1.contains("Array"));
}

#[test]
fn catches_hash_angle() {
    let issues = check("  def bar: (Hash<String, Integer>) -> void");
    assert_eq!(issues.len(), 1);
    assert!(issues[0].1.contains("Hash"));
}

#[test]
fn ignores_square_brackets() {
    let issues = check("  def foo: () -> Array[Hash[untyped, untyped]]");
    assert!(issues.is_empty());
}

#[test]
fn ignores_class_inheritance() {
    // class Foo < Bar should not trigger
    let issues = check("class Foo < ApplicationRecord");
    assert!(issues.is_empty());
}

#[test]
fn ignores_comments() {
    let issues = check("# @return Array<Hash>");
    assert!(issues.is_empty());
}

#[test]
fn tracks_method_name() {
    let input = "  def my_method: () -> Array<String>";
    let issues = check(input);
    assert_eq!(issues[0].0, "my_method");
}

#[test]
fn angle_bracket_message_names_both_forms() {
    let issues = check("  def foo: () -> Set<Integer>");
    assert_eq!(
        issues[0].1,
        "'Set<...>' uses angle brackets. RBS uses square brackets: 'Set[...]'"
    );
}

#[test]
fn angle_bracket_one_issue_per_line() {
    let issues = check("  def foo: (Array<String>) -> Hash<Symbol, Integer>\n  def bar: () -> void\n");
    assert_eq!(issues.len(), 1);
    assert!(issues[0].1.contains("'Array<...>'"));
}

#[test]
fn angle_bracket_top_level_before_any_def() {
    let issues = check("type list = Array<String>");
    assert_eq!(issues[0].0, "top-level");
}

#[test]
fn angle_bracket_scoped_constant() {
    let issues = check("  def foo: () -> Foo::Bar<Integer>");
    assert_eq!(issues.len(), 1);
    assert!(issues[0].1.contains("'Foo::Bar<...>'"));
}

#[test]
fn void_argument_flags_void_parameter() {
    let plugin = VoidArgumentPlugin;
    let issues = plugin.check("  def run: (void) -> String\n  def ok: () -> void\n");
    assert_eq!(issues.len(), 1);
    assert_eq!(issues[0].0, "run");
    assert_eq!(issues[0].1, "Uses 'void' as an argument (use '()' instead)");
    assert_eq!(plugin.name(), "Void Argument");
}

#[test]
fn void_argument_unknown_method_before_def() {
    let issues = VoidArgumentPlugin.check("x: void -> y");
    assert_eq!(issues.len(), 1);
    assert_eq!(issues[0].0, "unknown");
}

#[test]
fn type_case_flags_first_lowercase_primitive() {
    let plugin = TypeCasePlugin;
    let issues = plugin.check("  def call: (string) -> integer\n  def ok: () -> String\n");
    assert_eq!(issues.len(), 1);
    assert_eq!(issues[0].0, "call");
    assert_eq!(
        issues[0].1,
        "Found lowercase type 'string'. RBS requires 'String', 'Integer', 'Array', etc."
    );
    assert_eq!(plugin.name(), "Type Case");
}

#[test]
fn type_case_ignores_identifiers_containing_primitive() {
    let issues = TypeCasePlugin.check("  def string_helper: () -> String");
    assert!(issues.is_empty());
}

#[test]
fn type_case_bracket_and_arrow_forms() {
    let issues = TypeCasePlugin.check("  def a: () -> Array[hash]\n  def b: () -> boolean\n");
    assert_eq!(issues.len(), 2);
    assert!(issues[0].1.contains("'hash'"));
    assert!(issues[1].1.contains("'boolean'"));
    assert_eq!(AngleBracketPlugin.name(), "Angle Bracket");
}

#[test]
fn type_case_ignores_longer_identifiers() {
    assert!(TypeCasePlugin.check("  def foo: () -> string_helper").is_empty());
    assert!(TypeCasePlugin.check("  def foo: (x: integer_like) -> void").is_empty());
    let at_end = TypeCasePlugin.check("  def foo: () -> string");
    assert_eq!(at_end.len(), 1);
    assert_eq!(at_end[0].0, "foo");
    assert_eq!(TypeCasePlugin.check("  def bar: (name: string, n: Integer) -> void").len(), 1);
    assert_eq!(TypeCasePlugin.check("  def baz: (Array[hash]) -> void").len(), 1);
}
