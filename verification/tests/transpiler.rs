use sentinel::transpiler::SentinelTranspiler;
use sentinel::shared::{SharedDir, SharedFile};

fn transpile(source: &str) -> String {
    let mut transpiler = SentinelTranspiler::new();
    transpiler.transpile_source(source)
}

fn shared_dir(files: &[(&str, &str)]) -> SharedDir {
    SharedDir {
        files: files
            .iter()
            .map(|(name, contents)| SharedFile {
                name: name.to_string(),
                contents: Some(contents.to_string()),
            })
            .collect(),
    }
}

fn transpile_with_shared(dir: SharedDir, source: &str) -> String {
    let mut transpiler = SentinelTranspiler::new();
    transpiler.set_shared_paths(vec![dir]);
    transpiler.transpile_source(source)
}

#[test]
fn test_simple_class_name() {
        let source = "class User < ApplicationRecord\n  #: () -> String\n  def name\n  end\nend\n";
        let result = transpile(source);
        // No modules, just class
        assert!(result.contains("class User\n"), "Got: {}", result);
        assert!(result.contains("  def name: () -> String"), "Got: {}", result);
}

#[test]
fn test_scope_resolution_class_name() {
        let source = "class ApplicantFilter::Set < ApplicationRecord\n  #: (String) -> String\n  def combinator_for(key)\n  end\nend\n";
        let result = transpile(source);
        // Compact syntax: no enclosing modules, class name keeps ::
        assert!(result.contains("class ApplicantFilter::Set\n"), "Got: {}", result);
}

#[test]
fn test_nested_modules() {
        let source = "module Tool\n  module IdleRuleHandlers\n    class Set < Tool::WorkflowBase\n      #: () -> void\n      def perform\n      end\n    end\n  end\nend\n";
        let result = transpile(source);
        // Must emit nested modules, not flat qualified name
        assert!(result.contains("module Tool\n"), "Expected module Tool, got: {}", result);
        assert!(result.contains("  module IdleRuleHandlers\n"), "Expected module IdleRuleHandlers, got: {}", result);
        assert!(result.contains("    class Set\n"), "Expected class Set, got: {}", result);
        assert!(result.contains("      def perform: () -> void"), "Expected indented method, got: {}", result);
        // Verify closing ends
        assert!(result.contains("    end\n  end\nend\n"), "Expected nested ends, got: {}", result);
}

#[test]
fn test_single_module_wrap() {
        let source = "module Admin\n  class UsersController\n    #: (Integer) -> User\n    def show(id)\n    end\n  end\nend\n";
        let result = transpile(source);
        assert!(result.contains("module Admin\n"), "Got: {}", result);
        assert!(result.contains("  class UsersController\n"), "Got: {}", result);
        assert!(result.contains("    def show: (Integer) -> User"), "Got: {}", result);
}

#[test]
fn test_multiple_methods() {
        let source = "module Tool\n  class Base < Tool::WorkflowBase\n    #: (current_user: User, current_account: Account, params: ActionController::Parameters) -> void\n    def initialize(current_user:, current_account:, params:)\n      @current_user = current_user\n    end\n\n    #: () -> Hash[Symbol, untyped]\n    def call\n      raise NotImplementedError\n    end\n\n    #: () -> Hash[Symbol, untyped]\n    def usage_info\n      {}\n    end\n  end\nend\n";
        let result = transpile(source);
        assert!(result.contains("module Tool\n"), "Got: {}", result);
        assert!(result.contains("  class Base\n"), "Got: {}", result);
        assert!(result.contains("def initialize: (current_user: User, current_account: Account, params: ActionController::Parameters) -> void"), "Missing initialize, got: {}", result);
        assert!(result.contains("def call: () -> Hash[Symbol, untyped]"), "Missing call, got: {}", result);
        assert!(result.contains("def usage_info: () -> Hash[Symbol, untyped]"), "Missing usage_info, got: {}", result);
}

#[test]
fn test_module_with_scope_resolution_class() {
        let source = "module Api\n  class V2::UsersController\n    #: () -> void\n    def index\n    end\n  end\nend\n";
        let result = transpile(source);
        // Module Api wraps, class keeps V2:: compact form
        assert!(result.contains("module Api\n"), "Got: {}", result);
        assert!(result.contains("  class V2::UsersController\n"), "Got: {}", result);
}

#[test]
fn test_singleton_method() {
        let source = "class Foo\n  #: (String) -> String\n  def self.call(name)\n    name.upcase\n  end\nend\n";
        let result = transpile(source);
        assert!(
            result.contains("def self.call: (String) -> String"),
            "Expected self.call, got: {}",
            result
        );
}

#[test]
fn test_singleton_class_block() {
        let source = "class Foo\n  class << self\n    #: (String) -> String\n    def call(name)\n      name.upcase\n    end\n  end\nend\n";
        let result = transpile(source);
        assert!(
            result.contains("def self.call: (String) -> String"),
            "Expected self.call from class << self, got: {}",
            result
        );
}

#[test]
fn test_singleton_class_multiple_methods() {
        let source = "class Service\n  class << self\n    #: (String) -> String\n    def description\n    end\n\n    #: () -> Hash[Symbol, untyped]\n    def input_schema\n    end\n  end\nend\n";
        let result = transpile(source);
        assert!(
            result.contains("def self.description: (String) -> String"),
            "Missing self.description, got: {}",
            result
        );
        assert!(
            result.contains("def self.input_schema: () -> Hash[Symbol, untyped]"),
            "Missing self.input_schema, got: {}",
            result
        );
}

#[test]
fn test_type_alias_single_line() {
        let source = "class Foo\n  # @rbs type error_code = \"not_found\" | \"invalid\" | \"denied\"\nend\n";
        let result = transpile(source);
        assert!(
            result.contains("type error_code = \"not_found\" | \"invalid\" | \"denied\""),
            "Expected type alias, got: {}",
            result
        );
}

#[test]
fn test_type_alias_multiline() {
        let source = "class Foo\n  # @rbs type error = {\n  #   success: false,\n  #   error: { code: String, message: String }\n  # }\nend\n";
        let result = transpile(source);
        assert!(
            result.contains("type error = {"),
            "Expected multiline type alias, got: {}",
            result
        );
        assert!(
            result.contains("success: false"),
            "Expected multiline type alias content, got: {}",
            result
        );
}

#[test]
fn test_attr_reader() {
        let source = "class Foo\n  #: String\n  attr_reader :name\nend\n";
        let result = transpile(source);
        assert!(
            result.contains("attr_reader name: String"),
            "Expected attr_reader, got: {}",
            result
        );
}

#[test]
fn test_attr_accessor() {
        let source = "class Foo\n  #: Integer\n  attr_accessor :id\nend\n";
        let result = transpile(source);
        assert!(
            result.contains("attr_accessor id: Integer"),
            "Expected attr_accessor, got: {}",
            result
        );
}

#[test]
fn test_attr_writer() {
        let source = "class Foo\n  #: String\n  attr_writer :email\nend\n";
        let result = transpile(source);
        assert!(
            result.contains("attr_writer email: String"),
            "Expected attr_writer, got: {}",
            result
        );
}

#[test]
fn test_attr_multiple_symbols() {
        let source = "class Foo\n  #: String\n  attr_reader :name, :email\nend\n";
        let result = transpile(source);
        assert!(
            result.contains("attr_reader name: String"),
            "Expected attr_reader name, got: {}",
            result
        );
        assert!(
            result.contains("attr_reader email: String"),
            "Expected attr_reader email, got: {}",
            result
        );
}

#[test]
fn test_mixed_self_and_instance_methods() {
        let source = "class Service\n  #: (String) -> Service\n  def self.call(name)\n  end\n\n  #: () -> void\n  def perform\n  end\nend\n";
        let result = transpile(source);
        assert!(
            result.contains("def self.call: (String) -> Service"),
            "Missing self.call, got: {}",
            result
        );
        assert!(
            result.contains("def perform: () -> void"),
            "Missing perform, got: {}",
            result
        );
}

#[test]
fn test_all_features_combined() {
        let source = "\
class MCP::Tool
  # @rbs type result = { success: bool, data: untyped }

  #: String
  attr_reader :name

  #: (Hash[Symbol, untyped]) -> result
  def self.call(params)
  end

  #: () -> void
  def validate
  end
end
";
        let result = transpile(source);
        assert!(result.contains("type result = { success: bool, data: untyped }"), "Missing type alias, got: {}", result);
        assert!(result.contains("attr_reader name: String"), "Missing attr_reader, got: {}", result);
        assert!(result.contains("def self.call: (Hash[Symbol, untyped]) -> result"), "Missing self.call, got: {}", result);
        assert!(result.contains("def validate: () -> void"), "Missing validate, got: {}", result);
}

#[test]
fn test_multiline_annotation() {
        let source = "\
class MultilineTest
  #: (
  #:   name: String,
  #:   age: Integer,
  #:   ?email: String?
  #: ) -> Hash[Symbol, untyped]
  def self.call(name:, age:, email: nil)
    { name: name, age: age }
  end
end
";
        let result = transpile(source);
        assert!(
            result.contains("def self.call: ( name: String, age: Integer, ?email: String? ) -> Hash[Symbol, untyped]"),
            "Expected joined multiline annotation, got: {}",
            result
        );
}

#[test]
fn test_multiline_annotation_instance_method() {
        let source = "\
class Processor
  #: (
  #:   Array[String],
  #:   Integer
  #: ) -> bool
  def run(items, limit)
  end
end
";
        let result = transpile(source);
        assert!(
            result.contains("def run: ( Array[String], Integer ) -> bool"),
            "Expected joined multiline annotation, got: {}",
            result
        );
}

#[test]
fn test_multiline_annotation_does_not_merge_separate() {
        let source = "\
class Separate
  #: () -> String
  #: (Integer) -> void
  def overloaded
  end
end
";
        let result = transpile(source);
        // The second balanced annotation should overwrite the first
        assert!(
            result.contains("def overloaded: (Integer) -> void"),
            "Expected second annotation to win, got: {}",
            result
        );
}

#[test]
fn test_multiline_annotation_class_self_block() {
        let source = "\
class Builder
  class << self
    #: (
    #:   String,
    #:   ?config: Hash[Symbol, untyped]
    #: ) -> Builder
    def create(name, config: {})
    end
  end
end
";
        let result = transpile(source);
        assert!(
            result.contains("def self.create: ( String, ?config: Hash[Symbol, untyped] ) -> Builder"),
            "Expected multiline annotation in class << self, got: {}",
            result
        );
}

#[test]
fn test_type_alias_multiline_union() {
        let source = "\
class Applicant
  # @rbs type error_code = \"applicant_not_found\"
  #                      | \"stage_transition_invalid\"
  #                      | \"permission_denied\"
  #                      | \"applicant_already_at_stage\"
end
";
        let result = transpile(source);
        assert!(
            result.contains("type error_code = \"applicant_not_found\" | \"stage_transition_invalid\" | \"permission_denied\" | \"applicant_already_at_stage\""),
            "Expected multiline union type alias, got: {}",
            result
        );
}

#[test]
fn test_type_alias_multiline_union_trailing_pipe() {
        let source = "\
class Applicant
  # @rbs type status = \"active\" |
  #   \"inactive\" |
  #   \"pending\"
end
";
        let result = transpile(source);
        assert!(
            result.contains("type status = \"active\" | \"inactive\" | \"pending\""),
            "Expected multiline union type alias with trailing pipe, got: {}",
            result
        );
}

#[test]
fn test_type_alias_multiline_union_then_method() {
        let source = "\
class Foo
  # @rbs type error_code = \"not_found\"
  #                      | \"denied\"

  #: () -> error_code
  def check
  end
end
";
        let result = transpile(source);
        assert!(
            result.contains("type error_code = \"not_found\" | \"denied\""),
            "Expected union type alias, got: {}",
            result
        );
        assert!(
            result.contains("def check: () -> error_code"),
            "Expected method after type alias, got: {}",
            result
        );
}

#[test]
fn test_type_alias_trailing_pipe_then_annotation() {
        let source = "\
class Foo
  # @rbs type status = \"active\" |
  #   \"inactive\"
  #: () -> status
  def check
  end
end
";
        let result = transpile(source);
        assert!(
            result.contains("type status = \"active\" | \"inactive\""),
            "Expected trailing-pipe union type alias, got: {}",
            result
        );
        assert!(
            result.contains("def check: () -> status"),
            "Expected method annotation not swallowed by type alias, got: {}",
            result
        );
}

#[test]
fn test_module_with_annotations() {
        let source = "\
module Tool
  module Concerns
    module ConceptResolvable
      extend ActiveSupport::Concern

      private

      #: (String concept_id) -> Hash[Symbol, untyped]
      def resolve_concept_id(concept_id)
      end
    end
  end
end
";
        let result = transpile(source);
        assert!(
            result.contains("module Tool\n"),
            "Expected module Tool, got: {}",
            result
        );
        assert!(
            result.contains("  module Concerns\n"),
            "Expected module Concerns, got: {}",
            result
        );
        assert!(
            result.contains("    module ConceptResolvable\n"),
            "Expected module ConceptResolvable (not class), got: {}",
            result
        );
        assert!(
            result.contains("def resolve_concept_id: (String concept_id) -> Hash[Symbol, untyped]"),
            "Expected method signature, got: {}",
            result
        );
}

#[test]
fn test_module_single_level() {
        let source = "\
module Serializable
  #: () -> Hash[Symbol, untyped]
  def to_h
  end
end
";
        let result = transpile(source);
        assert!(
            result.contains("module Serializable\n"),
            "Expected module declaration, got: {}",
            result
        );
        assert!(
            !result.contains("class "),
            "Should not contain class keyword, got: {}",
            result
        );
        assert!(
            result.contains("def to_h: () -> Hash[Symbol, untyped]"),
            "Expected method, got: {}",
            result
        );
}

#[test]
fn test_module_without_annotations_skipped() {
        let source = "\
module Concerns
  module Loggable
    extend ActiveSupport::Concern
    def log(message)
    end
  end
end
";
        let result = transpile(source);
        assert!(
            !SentinelTranspiler::has_content(&result),
            "Module without annotations should have no content, got: {}",
            result
        );
}

#[test]
fn test_module_with_class_inside_uses_class() {
        let source = "\
module Admin
  class UsersController
    #: () -> void
    def index
    end
  end
end
";
        let result = transpile(source);
        assert!(
            result.contains("module Admin\n"),
            "Expected wrapper module, got: {}",
            result
        );
        assert!(
            result.contains("class UsersController\n"),
            "Expected class (not module) for inner class, got: {}",
            result
        );
}

#[test]
fn test_annotated_module_then_class_uses_class() {
        let source = "\
module Helpers
  #: () -> String
  def helper_method
  end
end

class Service
  #: () -> void
  def perform
  end
end
";
        let result = transpile(source);
        assert!(
            result.contains("class Service\n"),
            "Expected class keyword for Service, got: {}",
            result
        );
        assert!(
            !result.contains("module Service"),
            "Service should not be emitted as module, got: {}",
            result
        );
        assert!(
            result.contains("def perform: () -> void"),
            "Expected Service's method, got: {}",
            result
        );
}

#[test]
fn test_module_with_sub_module_class_methods() {
        let source = "\
module Tool
  module Concerns
    module McpMigrated
      #: (server_context: untyped) -> void
      def initialize(server_context:)
      end

      module ClassMethods
        #: (current_user: untyped, current_account: untyped, params: untyped) -> instance
        def from_legacy(current_user:, current_account:, params:)
        end
      end
    end
  end
end
";
        let result = transpile(source);
        assert!(
            result.contains("module Tool\n"),
            "Expected module Tool, got: {}",
            result
        );
        assert!(
            result.contains("  module Concerns\n"),
            "Expected module Concerns, got: {}",
            result
        );
        assert!(
            result.contains("    module McpMigrated\n"),
            "Expected module McpMigrated, got: {}",
            result
        );
        assert!(
            result.contains("def initialize: (server_context: untyped) -> void"),
            "Expected initialize method on parent module, got: {}",
            result
        );
        assert!(
            result.contains("module ClassMethods\n"),
            "Expected ClassMethods sub-module, got: {}",
            result
        );
        assert!(
            result.contains("def from_legacy: (current_user: untyped, current_account: untyped, params: untyped) -> instance"),
            "Expected from_legacy in ClassMethods, got: {}",
            result
        );
}

#[test]
fn test_has_content() {
        assert!(SentinelTranspiler::has_content("  def foo: () -> void\n"));
        assert!(SentinelTranspiler::has_content("  type error_code = String\n"));
        assert!(SentinelTranspiler::has_content("  attr_reader name: String\n"));
        assert!(!SentinelTranspiler::has_content("class Foo\nend\n"));
}

#[test]
fn test_record_type_alias_multiline_when_many_keys() {
        let source = "\
class Applicant
  # @rbs type applicant_local = {
  #   external_id: String,
  #   name: String,
  #   email: String,
  #   status: String,
  # }
end
";
        let result = transpile(source);
        // Should be on multiple lines since there are 4 keys (> 3)
        assert!(
            result.contains("type applicant_local = {\n"),
            "Expected opening brace on its own line, got: {}",
            result
        );
        assert!(
            result.contains("    external_id: String,\n"),
            "Expected external_id on its own indented line, got: {}",
            result
        );
        assert!(
            result.contains("    name: String,\n"),
            "Expected name on its own indented line, got: {}",
            result
        );
        assert!(
            result.contains("    email: String,\n"),
            "Expected email on its own indented line, got: {}",
            result
        );
        assert!(
            result.contains("    status: String,\n"),
            "Expected status on its own indented line, got: {}",
            result
        );
        assert!(
            result.contains("  }"),
            "Expected closing brace at member_indent, got: {}",
            result
        );
}

#[test]
fn test_record_type_alias_single_line_when_few_keys() {
        let source = "\
class Foo
  # @rbs type pair = { key: String, value: Integer }
end
";
        let result = transpile(source);
        // Only 2 keys — should stay on one line
        assert!(
            result.contains("type pair = { key: String, value: Integer }"),
            "Expected single-line record with 2 keys, got: {}",
            result
        );
}

#[test]
fn test_method_sig_multiline_when_many_params() {
        let source = "\
class Handler
  #: (
  #:   external_id: String,
  #:   name: String,
  #:   email: String,
  #:   status: String
  #: ) -> void
  def call(external_id:, name:, email:, status:)
  end
end
";
        let result = transpile(source);
        // 4 keyword params (> 3) — should be multi-line
        assert!(
            result.contains("def call: (\n"),
            "Expected opening paren on its own line, got: {}",
            result
        );
        assert!(
            result.contains("    external_id: String,\n"),
            "Expected external_id on its own indented line, got: {}",
            result
        );
        assert!(
            result.contains("    name: String,\n"),
            "Expected name on its own indented line, got: {}",
            result
        );
        assert!(
            result.contains("    email: String,\n"),
            "Expected email on its own indented line, got: {}",
            result
        );
        assert!(
            result.contains("    status: String,\n"),
            "Expected status on its own indented line, got: {}",
            result
        );
        assert!(
            result.contains("  ) -> void\n"),
            "Expected closing paren with return type, got: {}",
            result
        );
}

#[test]
fn test_method_sig_single_line_when_few_params() {
        let source = "\
class Foo
  #: (name: String, age: Integer, active: bool) -> void
  def update(name:, age:, active:)
  end
end
";
        let result = transpile(source);
        // Exactly 3 params — should stay on one line
        assert!(
            result.contains("def update: (name: String, age: Integer, active: bool) -> void"),
            "Expected single-line sig with 3 params, got: {}",
            result
        );
}

#[test]
fn test_self_method_sig_multiline_when_many_params() {
        let source = "\
class Builder
  #: (name: String, age: Integer, email: String, role: Symbol) -> Builder
  def self.create(name:, age:, email:, role:)
  end
end
";
        let result = transpile(source);
        // 4 params — should be multi-line
        assert!(
            result.contains("def self.create: (\n"),
            "Expected opening paren on its own line, got: {}",
            result
        );
        assert!(
            result.contains("  ) -> Builder\n"),
            "Expected closing paren with return type, got: {}",
            result
        );
}

#[test]
fn test_strip_annotations_issue_12_example() {
        let source = "\
class MoveApplicant
  #: (
  #:   applicant_id: String
  #:     @desc(External_id of the applicant to move)
  #:     @example(app_abc123),
  #: ) -> output
  def call(**params)
  end
end
";
        let result = transpile(source);
        assert!(
            !result.contains("@desc"),
            "Expected @desc to be stripped, got: {}",
            result
        );
        assert!(
            !result.contains("@example"),
            "Expected @example to be stripped, got: {}",
            result
        );
        assert!(
            result.contains("def call: (applicant_id: String) -> output"),
            "Expected clean signature, got: {}",
            result
        );
}

#[test]
fn test_strip_multiple_annotation_kinds() {
        let source = "\
class Validator
  #: (
  #:   age: Integer @min(0) @max(120) @desc(Age in years),
  #:   email: String @format(email) @requires(domain),
  #: ) -> bool
  def call(age:, email:)
  end
end
";
        let result = transpile(source);
        for tag in ["@min", "@max", "@desc", "@format", "@requires"] {
            assert!(
                !result.contains(tag),
                "Expected {} to be stripped, got: {}",
                tag,
                result
            );
        }
        assert!(
            result.contains("def call: (age: Integer, email: String) -> bool"),
            "Expected clean two-param signature, got: {}",
            result
        );
}

#[test]
fn test_strip_annotations_on_attr() {
        let source = "class Foo\n  #: String @desc(The display name)\n  attr_reader :name\nend\n";
        let result = transpile(source);
        assert!(
            !result.contains("@desc"),
            "Expected @desc to be stripped from attr, got: {}",
            result
        );
        assert!(
            result.contains("attr_reader name: String"),
            "Expected clean attr_reader, got: {}",
            result
        );
}

#[test]
fn test_strip_annotations_on_type_alias_record() {
        // Regression: 0.3.6 stripped @desc/@example/etc. from method signatures
        // but left them inside `# @rbs type` aliases, where Steep also rejects
        // them with `RBS::SyntaxError: cannot start a declaration, token=@desc`
        // when they appear inside a record-type's `{ ... }`.
        let source = "\
class Applicant
  # @rbs type applicant_local = {
  #   external_id: String @desc(Stable applicant external_id) @example(app_123) @read_only(),
  #   email: String @format(email) @desc(Primary email) @example(jane@example.com),
  # }
end
";
        let result = transpile(source);
        for tag in ["@desc", "@example", "@read_only", "@format"] {
            assert!(
                !result.contains(tag),
                "Expected {} to be stripped from type alias, got: {}",
                tag,
                result
            );
        }
        assert!(
            result.contains("external_id: String"),
            "Expected external_id field preserved, got: {}",
            result
        );
        assert!(
            result.contains("email: String"),
            "Expected email field preserved, got: {}",
            result
        );
}

#[test]
fn test_strip_annotations_on_single_line_type_alias() {
        let source = "\
class Funnel
  # @rbs type funnel_ref = { external_id: String @desc(Opening external_id) @example(funnel_abc), title: String @desc(Title shown in UI) }
end
";
        let result = transpile(source);
        assert!(
            !result.contains("@desc"),
            "Expected @desc to be stripped from single-line alias, got: {}",
            result
        );
        assert!(
            !result.contains("@example"),
            "Expected @example to be stripped from single-line alias, got: {}",
            result
        );
        assert!(
            result.contains("type funnel_ref"),
            "Expected type alias preserved, got: {}",
            result
        );
}

#[test]
fn test_strip_annotations_on_singleton_method() {
        let source = "class Tool\n  #: (id: String @desc(External id)) -> Tool\n  def self.call(id:)\n  end\nend\n";
        let result = transpile(source);
        assert!(
            result.contains("def self.call: (id: String) -> Tool"),
            "Expected clean self.call, got: {}",
            result
        );
}

#[test]
fn test_strip_does_not_touch_signatures_without_annotations() {
        // Same input as `test_multiline_annotation` — must produce identical
        // output now that strip_annotations short-circuits when nothing matches.
        let source = "\
class MultilineTest
  #: (
  #:   name: String,
  #:   age: Integer,
  #:   ?email: String?
  #: ) -> Hash[Symbol, untyped]
  def self.call(name:, age:, email: nil)
  end
end
";
        let result = transpile(source);
        assert!(
            result.contains("def self.call: ( name: String, age: Integer, ?email: String? ) -> Hash[Symbol, untyped]"),
            "Annotation-free signature should be unchanged, got: {}",
            result
        );
}

#[test]
fn test_strip_annotations_helper_unit() {
        assert_eq!(
            SentinelTranspiler::strip_annotations(
                "(applicant_id: String @desc(External id) @example(app_abc123)) -> output"
            ),
            "(applicant_id: String) -> output"
        );
        // Mid-string trailing comma between params
        assert_eq!(
            SentinelTranspiler::strip_annotations(
                "(a: Integer @min(0), b: String @desc(name)) -> void"
            ),
            "(a: Integer, b: String) -> void"
        );
        // No annotation: returned unchanged
        assert_eq!(
            SentinelTranspiler::strip_annotations("(a: Integer, b: String) -> void"),
            "(a: Integer, b: String) -> void"
        );
        // Stray @ that is not an annotation: left alone
        assert_eq!(
            SentinelTranspiler::strip_annotations("(email: String) -> bool"),
            "(email: String) -> bool"
        );
}

#[test]
fn test_split_top_level_commas_respects_nesting() {
        // Ensure commas inside nested brackets are not treated as separators.
        let entries = SentinelTranspiler::split_top_level_commas(
            "key: Hash[String, Integer], other: { a: String, b: Integer }",
        );
        assert_eq!(
            entries,
            vec![
                "key: Hash[String, Integer]",
                "other: { a: String, b: Integer }",
            ]
        );
}

#[test]
fn test_references_type_word_boundary() {
        assert!(SentinelTranspiler::references_type("type foo = { e: error }", "error"));
        assert!(!SentinelTranspiler::references_type("type foo = { e: error_code }", "error"));
        assert!(SentinelTranspiler::references_type("type foo = { e: Array[error] }", "error"));
        assert!(SentinelTranspiler::references_type("type foo = { e: error, f: String }", "error"));
        assert!(SentinelTranspiler::references_type("type error = { code: String }", "error"));
}

#[test]
fn test_recursive_import_resolves_nested_types() {
    let dir = shared_dir(&[
        ("stage_ref.rbs", "type stage_ref = {\n  id: String @desc(Stage ID),\n  title: String\n}\n"),
        ("owner_ref.rbs", "type owner_ref = {\n  name: String,\n  email: String @format(email)\n}\n"),
        (
            "funnel_result.rbs",
            "type funnel_result = {\n  title: String,\n  ?stages: Array[stage_ref],\n  ?owner: owner_ref\n}\n",
        ),
    ]);
    let result = transpile_with_shared(
        dir,
        "module Tool\n  class GetFunnel\n    # @rbs import funnel_result\n\n    # @rbs type success = {\n    #   success: true,\n    #   funnel: funnel_result\n    # }\n\n    #: () -> success\n    def call\n    end\n  end\nend\n",
    );

    assert!(result.contains("type funnel_result ="), "Expected funnel_result type, got: {}", result);
    assert!(result.contains("type stage_ref ="), "Expected stage_ref to be recursively resolved, got: {}", result);
    assert!(result.contains("type owner_ref ="), "Expected owner_ref to be recursively resolved, got: {}", result);
    assert!(!result.contains("@desc"), "Expected annotations to be stripped, got: {}", result);
    assert!(!result.contains("@format"), "Expected annotations to be stripped, got: {}", result);

    // Dependencies should appear before the type that references them
    let stage_pos = result.find("type stage_ref =").unwrap();
    let owner_pos = result.find("type owner_ref =").unwrap();
    let funnel_pos = result.find("type funnel_result =").unwrap();
    assert!(stage_pos < funnel_pos, "stage_ref should appear before funnel_result");
    assert!(owner_pos < funnel_pos, "owner_ref should appear before funnel_result");
}

#[test]
fn test_recursive_import_no_cycles() {
    let dir = shared_dir(&[
        ("type_a.rbs", "type type_a = { ref: type_b }\n"),
        ("type_b.rbs", "type type_b = { ref: type_a }\n"),
    ]);
    let result = transpile_with_shared(
        dir,
        "class Foo\n  # @rbs import type_a\n\n  #: () -> type_a\n  def call\n  end\nend\n",
    );

    assert!(result.contains("type type_a ="), "Expected type_a, got: {}", result);
    assert!(result.contains("type type_b ="), "Expected type_b, got: {}", result);
}

#[test]
fn test_recursive_import_types_in_same_file() {
    let dir = shared_dir(&[("bundle.rbs", "type inner = { id: String }\n\ntype bundle = { item: inner }\n")]);
    let result = transpile_with_shared(
        dir,
        "class Foo\n  # @rbs import bundle\n\n  #: () -> bundle\n  def call\n  end\nend\n",
    );

    assert!(result.contains("type inner ="), "Expected inner, got: {}", result);
    assert!(result.contains("type bundle ="), "Expected bundle, got: {}", result);

    // No duplicates — inner should appear exactly once
    let count = result.matches("type inner =").count();
    assert_eq!(count, 1, "Expected inner exactly once, found {} times in: {}", count, result);
}

#[test]
fn test_colocated_types_reversed_file_order() {
    // bundle is defined BEFORE inner in the file — dependency order is reversed
    let dir = shared_dir(&[("bundle.rbs", "type bundle = { item: inner }\n\ntype inner = { id: String }\n")]);
    let result = transpile_with_shared(
        dir,
        "class Foo\n  # @rbs import bundle\n\n  #: () -> bundle\n  def call\n  end\nend\n",
    );

    assert!(result.contains("type inner ="), "Expected inner, got: {}", result);
    assert!(result.contains("type bundle ="), "Expected bundle, got: {}", result);

    // inner must appear before bundle even though file order is reversed
    let inner_pos = result.find("type inner =").unwrap();
    let bundle_pos = result.find("type bundle =").unwrap();
    assert!(inner_pos < bundle_pos, "inner should appear before bundle (dependency order), got: {}", result);
}

fn transpile_with_superclasses(source: &str) -> String {
    let mut transpiler = SentinelTranspiler::new();
    transpiler.set_emit_superclasses(true);
    transpiler.transpile_source(source)
}

#[test]
fn superclass_omitted_by_default() {
    let result = transpile("class User < ApplicationRecord\n  #: () -> String\n  def name\n  end\nend\n");
    assert!(result.contains("class User\n"), "Got: {}", result);
    assert!(!result.contains("<"), "Got: {}", result);
}

#[test]
fn superclass_emitted_when_enabled() {
    let result = transpile_with_superclasses("class User < ApplicationRecord\n  #: () -> String\n  def name\n  end\nend\n");
    assert_eq!(
        result,
        "# Generated by Sentinel - Do not edit manually\n\nclass User < ApplicationRecord\n  def name: () -> String\nend\n"
    );
}

#[test]
fn superclass_path_kept_as_written() {
    let result = transpile_with_superclasses("module Tool\n  class Set < Tool::WorkflowBase\n    #: () -> void\n    def perform\n    end\n  end\nend\n");
    assert!(result.contains("  class Set < Tool::WorkflowBase\n"), "Got: {}", result);
    let rooted = transpile_with_superclasses("class Foo < ::Bar::Baz\n  #: () -> void\n  def go\n  end\nend\n");
    assert!(rooted.contains("class Foo < ::Bar::Baz\n"), "Got: {}", rooted);
}

#[test]
fn superclass_expression_skipped() {
    let result = transpile_with_superclasses("class Point < Struct.new(:x, :y)\n  #: () -> Integer\n  def sum\n  end\nend\n");
    assert!(result.contains("class Point\n"), "Got: {}", result);
    let anon = transpile_with_superclasses("class Thing < Class.new\n  #: () -> void\n  def go\n  end\nend\n");
    assert!(anon.contains("class Thing\n"), "Got: {}", anon);
}

#[test]
fn superclass_without_parent_unchanged() {
    let result = transpile_with_superclasses("class Plain\n  #: () -> void\n  def go\n  end\nend\n");
    assert!(result.contains("class Plain\n"), "Got: {}", result);
}

#[test]
fn module_never_gets_parent() {
    let result = transpile_with_superclasses("module Helpers\n  #: () -> void\n  def go\n  end\nend\n");
    assert!(result.contains("module Helpers\n"), "Got: {}", result);
    assert!(!result.contains("<"), "Got: {}", result);
}

#[test]
fn import_cycle_resolves_each_type_once() {
    let dir = shared_dir(&[
        ("left.rbs", "type left = { other: right }\n"),
        ("right.rbs", "type right = { back: left }\n"),
    ]);
    let result = transpile_with_shared(
        dir,
        "class Foo\n  # @rbs import left\n\n  #: () -> left\n  def call\n  end\nend\n",
    );
    assert_eq!(result.matches("type left =").count(), 1, "Got: {}", result);
    assert_eq!(result.matches("type right =").count(), 1, "Got: {}", result);
    let right_pos = result.find("type right =").unwrap();
    let left_pos = result.find("type left =").unwrap();
    assert!(right_pos < left_pos, "the imported type comes last, got: {}", result);
}

#[test]
fn import_with_path_reaches_nested_file() {
    let dir = shared_dir(&[("billing/invoice.rbs", "type invoice = { id: String }\n")]);
    let result = transpile_with_shared(
        dir,
        "class Foo\n  # @rbs import billing/invoice\n\n  #: () -> invoice\n  def call\n  end\nend\n",
    );
    assert!(result.contains("type invoice = { id: String }"), "Got: {}", result);
    // a nested file is not scanned for a bare name
    let dir = shared_dir(&[("billing/invoice.rbs", "type invoice = { id: String }\n")]);
    let bare = transpile_with_shared(
        dir,
        "class Foo\n  # @rbs import invoice\n\n  #: () -> invoice\n  def call\n  end\nend\n",
    );
    assert!(!bare.contains("type invoice ="), "Got: {}", bare);
}

#[test]
fn unresolved_imports_are_reported() {
    let mut transpiler = SentinelTranspiler::new();
    transpiler.set_shared_paths(vec![shared_dir(&[("error.rbs", "type error = { code: String }\n")])]);
    let source = "class Foo\n  # @rbs import error\n  # @rbs import missing_one\n  #   @rbs import not_an_import\n  # @rbs import  other \nend\n";
    assert_eq!(
        transpiler.unresolved_imports(source),
        vec!["missing_one".to_string(), "other".to_string()]
    );
}
