//! Syntax highlighting with tree-sitter grammars, and the highlight spans
//! made from the highlighter's stream of events.
use vstd::prelude::*;
use tree_sitter_highlight::{HighlightConfiguration, HighlightEvent, Highlighter};
use crate::text::str_equal;

verus! {

/// A highlighted byte range of the source and the kind of highlight.
#[derive(Debug, Clone, Copy, PartialEq, Eq, Structural)]
pub struct HighlightSpan {
    pub start: usize,
    pub end: usize,
    pub kind: u8,
}

/// A step of a highlighter's output.
#[derive(Debug, Clone, Copy, PartialEq, Eq, Structural)]
pub enum HighlightStep {
    /// Source bytes `start..end` under the highlights currently open.
    Source { start: usize, end: usize },
    /// A highlight (by index into the recognized names) opens.
    Start(usize),
    /// The innermost open highlight closes.
    End,
    /// The highlighter failed; nothing after this is used.
    Failed,
}

/// Spans and the stack of open highlight kinds after the first `n` steps;
/// the flag says whether a failure was met.
pub open spec fn spans_after(events: Seq<HighlightStep>, n: int) -> (Seq<HighlightSpan>, Seq<u8>, bool)
    decreases n,
{
    if n <= 0 {
        (Seq::empty(), Seq::empty(), false)
    } else {
        let (spans, stack, failed) = spans_after(events, n - 1);
        if failed {
            (spans, stack, true)
        } else {
            match events[n - 1] {
                HighlightStep::Source { start, end } => if stack.len() > 0 {
                    (spans.push(HighlightSpan { start, end, kind: stack.last() }), stack, false)
                } else {
                    (spans, stack, false)
                },
                HighlightStep::Start(h) => (spans, stack.push((h % 256) as u8), false),
                HighlightStep::End => (spans, if stack.len() > 0 { stack.drop_last() } else { stack }, false),
                HighlightStep::Failed => (spans, stack, true),
            }
        }
    }
}

/// The spans of a highlighter's output: each source range under at least
/// one open highlight, with the innermost one's kind (its index, modulo
/// 256); output after a failure is ignored.
pub fn spans_from_events(events: &[HighlightStep]) -> (r: Vec<HighlightSpan>)
    ensures
        r@ == spans_after(events@, events@.len() as int).0,
{
    let mut spans: Vec<HighlightSpan> = Vec::new();
    let mut stack: Vec<u8> = Vec::new();
    let mut i: usize = 0;
    while i < events.len()
        invariant
            i <= events@.len(),
            spans_after(events@, i as int) == (spans@, stack@, false),
        ensures
            spans@ == spans_after(events@, events@.len() as int).0,
        decreases events@.len() - i,
    {
        match events[i] {
            HighlightStep::Source { start, end } => {
                if stack.len() > 0 {
                    spans.push(HighlightSpan { start, end, kind: stack[stack.len() - 1] });
                }
            },
            HighlightStep::Start(h) => {
                stack.push((h % 256) as u8);
            },
            HighlightStep::End => {
                if stack.len() > 0 {
                    let ghost before = stack@;
                    stack.pop();
                    assert(stack@ =~= before.drop_last());
                }
            },
            HighlightStep::Failed => {
                proof {
                    lemma_failed_sticks(events@, i as int + 1);
                }
                break;
            },
        }
        i += 1;
    }
    spans
}

proof fn lemma_failed_sticks(events: Seq<HighlightStep>, n: int)
    requires
        0 < n <= events.len(),
        spans_after(events, n).2,
    ensures
        spans_after(events, events.len() as int).0 == spans_after(events, n).0,
    decreases events.len() - n,
{
    if n < events.len() {
        lemma_failed_sticks_step(events, n);
        lemma_failed_sticks(events, n + 1);
    }
}

proof fn lemma_failed_sticks_step(events: Seq<HighlightStep>, n: int)
    requires
        0 < n < events.len(),
        spans_after(events, n).2,
    ensures
        spans_after(events, n + 1).2,
        spans_after(events, n + 1).0 == spans_after(events, n).0,
{
}

// ---------------------------------------------------------------------------
// Highlighting with tree-sitter grammars
// ---------------------------------------------------------------------------

#[verifier::external_type_specification]
#[verifier::external_body]
pub struct ExHighlightConfiguration(HighlightConfiguration);

#[verifier::external_type_specification]
#[verifier::external_body]
pub struct ExHighlighter(Highlighter);

/// Highlight names recognized, in the order of the kinds spans carry.
pub const HIGHLIGHT_NAMES: [&'static str; 24] = ["keyword", "function", "function.builtin", "type", "type.builtin", "constructor", "constant", "constant.builtin", "string", "number", "comment", "variable", "variable.builtin", "variable.parameter", "operator", "punctuation", "punctuation.bracket", "punctuation.delimiter", "property", "tag", "attribute", "label", "escape", "embedded"];

/// A tree-sitter grammar, with the queries the highlighter uses for it.
#[derive(Debug, Clone, Copy, PartialEq, Eq, Structural)]
pub enum Grammar {
    Rust,
    C,
    Cpp,
    JavaScript,
    TypeScript,
    Tsx,
    Python,
    Go,
    Ruby,
    Bash,
    Java,
    Html,
    Css,
    Json,
    Lua,
    Php,
    Toml,
    Yaml,
    Swift,
    Zig,
    Sql,
    Make,
}

/// A highlight configuration and what it was made from: the grammar, the
/// language name and the highlight names it recognizes.
pub struct LanguageConfig {
    grammar: Grammar,
    name: String,
    names: Vec<String>,
    config: HighlightConfiguration,
}

impl LanguageConfig {
    /// The grammar of the configuration.
    pub closed spec fn grammar(&self) -> Grammar {
        self.grammar
    }

    /// The language name the configuration was made with.
    pub closed spec fn lang_name(&self) -> Seq<char> {
        self.name@
    }

    /// The highlight names the configuration recognizes.
    pub closed spec fn recognized(&self) -> Seq<Seq<char>> {
        self.names@.map_values(|x: String| x@)
    }
}

/// The characters of each name.
pub open spec fn names_of(ns: Seq<&str>) -> Seq<Seq<char>> {
    ns.map_values(|x: &str| x@)
}

/// Names whether `HighlightConfiguration::new` accepts a grammar's queries
/// under a language name.
pub uninterp spec fn config_loads(grammar: Grammar, name: Seq<char>) -> bool;

/// Names the steps `Highlighter::highlight` gives for a source under a
/// grammar, a language name and recognized highlight names (`None` when
/// highlighting cannot start; a failure ends the steps with `Failed`).
pub uninterp spec fn highlight_steps(grammar: Grammar, name: Seq<char>, names: Seq<Seq<char>>, source: Seq<char>) -> Option<Seq<HighlightStep>>;

/// The grammar a known language id is highlighted with.
pub open spec fn grammar_of(id: Seq<char>) -> Grammar {
    if id == "rust"@ { Grammar::Rust }
    else if id == "c"@ { Grammar::C }
    else if id == "cpp"@ { Grammar::Cpp }
    else if id == "javascript"@ || id == "jsx"@ { Grammar::JavaScript }
    else if id == "typescript"@ { Grammar::TypeScript }
    else if id == "tsx"@ { Grammar::Tsx }
    else if id == "python"@ { Grammar::Python }
    else if id == "go"@ { Grammar::Go }
    else if id == "ruby"@ { Grammar::Ruby }
    else if id == "bash"@ || id == "shell"@ { Grammar::Bash }
    else if id == "java"@ { Grammar::Java }
    else if id == "html"@ { Grammar::Html }
    else if id == "css"@ || id == "scss"@ || id == "less"@ { Grammar::Css }
    else if id == "json"@ { Grammar::Json }
    else if id == "lua"@ { Grammar::Lua }
    else if id == "php"@ { Grammar::Php }
    else if id == "toml"@ { Grammar::Toml }
    else if id == "yaml"@ { Grammar::Yaml }
    else if id == "swift"@ { Grammar::Swift }
    else if id == "zig"@ { Grammar::Zig }
    else if id == "sql"@ { Grammar::Sql }
    else { Grammar::Make }
}

/// The spans of `source` in language `id`: none unless the language has a
/// grammar whose configuration loads; otherwise the spans of the
/// highlighter's steps under the recognized names `HIGHLIGHT_NAMES`.
pub open spec fn highlighted(source: Seq<char>, id: Seq<char>) -> Seq<HighlightSpan> {
    if known_language(id) && config_loads(grammar_of(id), id) {
        match highlight_steps(grammar_of(id), id, names_of(HIGHLIGHT_NAMES@), source) {
            Some(st) => spans_after(st, st.len() as int).0,
            None => seq![],
        }
    } else {
        seq![]
    }
}

/// A step list result as a value.
pub open spec fn steps_view(r: Option<Vec<HighlightStep>>) -> Option<Seq<HighlightStep>> {
    match r {
        Some(v) => Some(v@),
        None => None,
    }
}

/// A language id with a grammar.
pub open spec fn known_language(id: Seq<char>) -> bool {
    id == "rust"@ || id == "c"@ || id == "cpp"@ || id == "javascript"@ || id == "jsx"@ || id == "typescript"@ || id == "tsx"@ || id == "python"@ || id == "go"@ || id == "ruby"@ || id == "bash"@ || id == "shell"@ || id == "java"@ || id == "html"@ || id == "css"@ || id == "scss"@ || id == "less"@ || id == "json"@ || id == "lua"@ || id == "php"@ || id == "toml"@ || id == "yaml"@ || id == "swift"@ || id == "zig"@ || id == "sql"@ || id == "make"@ || id == "makefile"@
}

/// Wraps `HighlightConfiguration::new` with the `tree-sitter-rust` grammar and
/// its queries: it loads exactly when `config_loads` says, and then holds
/// that grammar, the given language name and no recognized names yet.
#[verifier::external_body]
fn rust_config(name: &str) -> (r: Option<LanguageConfig>)
    ensures
        r is Some <==> config_loads(Grammar::Rust, name@),
        r matches Some(c) ==> c.grammar() == Grammar::Rust && c.lang_name() == name@ && c.recognized() == Seq::<Seq<char>>::empty(),
{
    match HighlightConfiguration::new(tree_sitter_rust::LANGUAGE.into(), name, tree_sitter_rust::HIGHLIGHTS_QUERY, tree_sitter_rust::INJECTIONS_QUERY, "") {
        Ok(config) => Some(LanguageConfig { grammar: Grammar::Rust, name: name.to_string(), names: Vec::new(), config }),
        Err(_) => None,
    }
}

/// Wraps `HighlightConfiguration::new` with the `tree-sitter-c` grammar and
/// its queries: it loads exactly when `config_loads` says, and then holds
/// that grammar, the given language name and no recognized names yet.
#[verifier::external_body]
fn c_config(name: &str) -> (r: Option<LanguageConfig>)
    ensures
        r is Some <==> config_loads(Grammar::C, name@),
        r matches Some(c) ==> c.grammar() == Grammar::C && c.lang_name() == name@ && c.recognized() == Seq::<Seq<char>>::empty(),
{
    match HighlightConfiguration::new(tree_sitter_c::LANGUAGE.into(), name, tree_sitter_c::HIGHLIGHT_QUERY, "", "") {
        Ok(config) => Some(LanguageConfig { grammar: Grammar::C, name: name.to_string(), names: Vec::new(), config }),
        Err(_) => None,
    }
}

/// Wraps `HighlightConfiguration::new` with the `tree-sitter-cpp` grammar and
/// its queries: it loads exactly when `config_loads` says, and then holds
/// that grammar, the given language name and no recognized names yet.
#[verifier::external_body]
fn cpp_config(name: &str) -> (r: Option<LanguageConfig>)
    ensures
        r is Some <==> config_loads(Grammar::Cpp, name@),
        r matches Some(c) ==> c.grammar() == Grammar::Cpp && c.lang_name() == name@ && c.recognized() == Seq::<Seq<char>>::empty(),
{
    match HighlightConfiguration::new(tree_sitter_cpp::LANGUAGE.into(), name, tree_sitter_cpp::HIGHLIGHT_QUERY, "", "") {
        Ok(config) => Some(LanguageConfig { grammar: Grammar::Cpp, name: name.to_string(), names: Vec::new(), config }),
        Err(_) => None,
    }
}

/// Wraps `HighlightConfiguration::new` with the `tree-sitter-javascript` grammar and
/// its queries: it loads exactly when `config_loads` says, and then holds
/// that grammar, the given language name and no recognized names yet.
#[verifier::external_body]
fn javascript_config(name: &str) -> (r: Option<LanguageConfig>)
    ensures
        r is Some <==> config_loads(Grammar::JavaScript, name@),
        r matches Some(c) ==> c.grammar() == Grammar::JavaScript && c.lang_name() == name@ && c.recognized() == Seq::<Seq<char>>::empty(),
{
    match HighlightConfiguration::new(tree_sitter_javascript::LANGUAGE.into(), name, tree_sitter_javascript::HIGHLIGHT_QUERY, tree_sitter_javascript::INJECTIONS_QUERY, tree_sitter_javascript::LOCALS_QUERY) {
        Ok(config) => Some(LanguageConfig { grammar: Grammar::JavaScript, name: name.to_string(), names: Vec::new(), config }),
        Err(_) => None,
    }
}

/// Wraps `HighlightConfiguration::new` with the `tree-sitter-typescript` grammar and
/// its queries: it loads exactly when `config_loads` says, and then holds
/// that grammar, the given language name and no recognized names yet.
#[verifier::external_body]
fn typescript_config(name: &str) -> (r: Option<LanguageConfig>)
    ensures
        r is Some <==> config_loads(Grammar::TypeScript, name@),
        r matches Some(c) ==> c.grammar() == Grammar::TypeScript && c.lang_name() == name@ && c.recognized() == Seq::<Seq<char>>::empty(),
{
    match HighlightConfiguration::new(tree_sitter_typescript::LANGUAGE_TYPESCRIPT.into(), name, tree_sitter_typescript::HIGHLIGHTS_QUERY, "", tree_sitter_typescript::LOCALS_QUERY) {
        Ok(config) => Some(LanguageConfig { grammar: Grammar::TypeScript, name: name.to_string(), names: Vec::new(), config }),
        Err(_) => None,
    }
}

/// Wraps `HighlightConfiguration::new` with the `tree-sitter-typescript` grammar and
/// its queries: it loads exactly when `config_loads` says, and then holds
/// that grammar, the given language name and no recognized names yet.
#[verifier::external_body]
fn tsx_config(name: &str) -> (r: Option<LanguageConfig>)
    ensures
        r is Some <==> config_loads(Grammar::Tsx, name@),
        r matches Some(c) ==> c.grammar() == Grammar::Tsx && c.lang_name() == name@ && c.recognized() == Seq::<Seq<char>>::empty(),
{
    match HighlightConfiguration::new(tree_sitter_typescript::LANGUAGE_TSX.into(), name, tree_sitter_typescript::HIGHLIGHTS_QUERY, "", tree_sitter_typescript::LOCALS_QUERY) {
        Ok(config) => Some(LanguageConfig { grammar: Grammar::Tsx, name: name.to_string(), names: Vec::new(), config }),
        Err(_) => None,
    }
}

/// Wraps `HighlightConfiguration::new` with the `tree-sitter-python` grammar and
/// its queries: it loads exactly when `config_loads` says, and then holds
/// that grammar, the given language name and no recognized names yet.
#[verifier::external_body]
fn python_config(name: &str) -> (r: Option<LanguageConfig>)
    ensures
        r is Some <==> config_loads(Grammar::Python, name@),
        r matches Some(c) ==> c.grammar() == Grammar::Python && c.lang_name() == name@ && c.recognized() == Seq::<Seq<char>>::empty(),
{
    match HighlightConfiguration::new(tree_sitter_python::LANGUAGE.into(), name, tree_sitter_python::HIGHLIGHTS_QUERY, "", "") {
        Ok(config) => Some(LanguageConfig { grammar: Grammar::Python, name: name.to_string(), names: Vec::new(), config }),
        Err(_) => None,
    }
}

/// Wraps `HighlightConfiguration::new` with the `tree-sitter-go` grammar and
/// its queries: it loads exactly when `config_loads` says, and then holds
/// that grammar, the given language name and no recognized names yet.
#[verifier::external_body]
fn go_config(name: &str) -> (r: Option<LanguageConfig>)
    ensures
        r is Some <==> config_loads(Grammar::Go, name@),
        r matches Some(c) ==> c.grammar() == Grammar::Go && c.lang_name() == name@ && c.recognized() == Seq::<Seq<char>>::empty(),
{
    match HighlightConfiguration::new(tree_sitter_go::LANGUAGE.into(), name, tree_sitter_go::HIGHLIGHTS_QUERY, "", "") {
        Ok(config) => Some(LanguageConfig { grammar: Grammar::Go, name: name.to_string(), names: Vec::new(), config }),
        Err(_) => None,
    }
}

/// Wraps `HighlightConfiguration::new` with the `tree-sitter-ruby` grammar and
/// its queries: it loads exactly when `config_loads` says, and then holds
/// that grammar, the given language name and no recognized names yet.
#[verifier::external_body]
fn ruby_config(name: &str) -> (r: Option<LanguageConfig>)
    ensures
        r is Some <==> config_loads(Grammar::Ruby, name@),
        r matches Some(c) ==> c.grammar() == Grammar::Ruby && c.lang_name() == name@ && c.recognized() == Seq::<Seq<char>>::empty(),
{
    match HighlightConfiguration::new(tree_sitter_ruby::LANGUAGE.into(), name, tree_sitter_ruby::HIGHLIGHTS_QUERY, "", tree_sitter_ruby::LOCALS_QUERY) {
        Ok(config) => Some(LanguageConfig { grammar: Grammar::Ruby, name: name.to_string(), names: Vec::new(), config }),
        Err(_) => None,
    }
}

/// Wraps `HighlightConfiguration::new` with the `tree-sitter-bash` grammar and
/// its queries: it loads exactly when `config_loads` says, and then holds
/// that grammar, the given language name and no recognized names yet.
#[verifier::external_body]
fn bash_config(name: &str) -> (r: Option<LanguageConfig>)
    ensures
        r is Some <==> config_loads(Grammar::Bash, name@),
        r matches Some(c) ==> c.grammar() == Grammar::Bash && c.lang_name() == name@ && c.recognized() == Seq::<Seq<char>>::empty(),
{
    match HighlightConfiguration::new(tree_sitter_bash::LANGUAGE.into(), name, tree_sitter_bash::HIGHLIGHT_QUERY, "", "") {
        Ok(config) => Some(LanguageConfig { grammar: Grammar::Bash, name: name.to_string(), names: Vec::new(), config }),
        Err(_) => None,
    }
}

/// Wraps `HighlightConfiguration::new` with the `tree-sitter-java` grammar and
/// its queries: it loads exactly when `config_loads` says, and then holds
/// that grammar, the given language name and no recognized names yet.
#[verifier::external_body]
fn java_config(name: &str) -> (r: Option<LanguageConfig>)
    ensures
        r is Some <==> config_loads(Grammar::Java, name@),
        r matches Some(c) ==> c.grammar() == Grammar::Java && c.lang_name() == name@ && c.recognized() == Seq::<Seq<char>>::empty(),
{
    match HighlightConfiguration::new(tree_sitter_java::LANGUAGE.into(), name, tree_sitter_java::HIGHLIGHTS_QUERY, "", "") {
        Ok(config) => Some(LanguageConfig { grammar: Grammar::Java, name: name.to_string(), names: Vec::new(), config }),
        Err(_) => None,
    }
}

/// Wraps `HighlightConfiguration::new` with the `tree-sitter-html` grammar and
/// its queries: it loads exactly when `config_loads` says, and then holds
/// that grammar, the given language name and no recognized names yet.
#[verifier::external_body]
fn html_config(name: &str) -> (r: Option<LanguageConfig>)
    ensures
        r is Some <==> config_loads(Grammar::Html, name@),
        r matches Some(c) ==> c.grammar() == Grammar::Html && c.lang_name() == name@ && c.recognized() == Seq::<Seq<char>>::empty(),
{
    match HighlightConfiguration::new(tree_sitter_html::LANGUAGE.into(), name, tree_sitter_html::HIGHLIGHTS_QUERY, tree_sitter_html::INJECTIONS_QUERY, "") {
        Ok(config) => Some(LanguageConfig { grammar: Grammar::Html, name: name.to_string(), names: Vec::new(), config }),
        Err(_) => None,
    }
}

/// Wraps `HighlightConfiguration::new` with the `tree-sitter-css` grammar and
/// its queries: it loads exactly when `config_loads` says, and then holds
/// that grammar, the given language name and no recognized names yet.
#[verifier::external_body]
fn css_config(name: &str) -> (r: Option<LanguageConfig>)
    ensures
        r is Some <==> config_loads(Grammar::Css, name@),
        r matches Some(c) ==> c.grammar() == Grammar::Css && c.lang_name() == name@ && c.recognized() == Seq::<Seq<char>>::empty(),
{
    match HighlightConfiguration::new(tree_sitter_css::LANGUAGE.into(), name, tree_sitter_css::HIGHLIGHTS_QUERY, "", "") {
        Ok(config) => Some(LanguageConfig { grammar: Grammar::Css, name: name.to_string(), names: Vec::new(), config }),
        Err(_) => None,
    }
}

/// Wraps `HighlightConfiguration::new` with the `tree-sitter-json` grammar and
/// its queries: it loads exactly when `config_loads` says, and then holds
/// that grammar, the given language name and no recognized names yet.
#[verifier::external_body]
fn json_config(name: &str) -> (r: Option<LanguageConfig>)
    ensures
        r is Some <==> config_loads(Grammar::Json, name@),
        r matches Some(c) ==> c.grammar() == Grammar::Json && c.lang_name() == name@ && c.recognized() == Seq::<Seq<char>>::empty(),
{
    match HighlightConfiguration::new(tree_sitter_json::LANGUAGE.into(), name, tree_sitter_json::HIGHLIGHTS_QUERY, "", "") {
        Ok(config) => Some(LanguageConfig { grammar: Grammar::Json, name: name.to_string(), names: Vec::new(), config }),
        Err(_) => None,
    }
}

/// Wraps `HighlightConfiguration::new` with the `tree-sitter-lua` grammar and
/// its queries: it loads exactly when `config_loads` says, and then holds
/// that grammar, the given language name and no recognized names yet.
#[verifier::external_body]
fn lua_config(name: &str) -> (r: Option<LanguageConfig>)
    ensures
        r is Some <==> config_loads(Grammar::Lua, name@),
        r matches Some(c) ==> c.grammar() == Grammar::Lua && c.lang_name() == name@ && c.recognized() == Seq::<Seq<char>>::empty(),
{
    match HighlightConfiguration::new(tree_sitter_lua::LANGUAGE.into(), name, tree_sitter_lua::HIGHLIGHTS_QUERY, tree_sitter_lua::INJECTIONS_QUERY, tree_sitter_lua::LOCALS_QUERY) {
        Ok(config) => Some(LanguageConfig { grammar: Grammar::Lua, name: name.to_string(), names: Vec::new(), config }),
        Err(_) => None,
    }
}

/// Wraps `HighlightConfiguration::new` with the `tree-sitter-php` grammar and
/// its queries: it loads exactly when `config_loads` says, and then holds
/// that grammar, the given language name and no recognized names yet.
#[verifier::external_body]
fn php_config(name: &str) -> (r: Option<LanguageConfig>)
    ensures
        r is Some <==> config_loads(Grammar::Php, name@),
        r matches Some(c) ==> c.grammar() == Grammar::Php && c.lang_name() == name@ && c.recognized() == Seq::<Seq<char>>::empty(),
{
    match HighlightConfiguration::new(tree_sitter_php::LANGUAGE_PHP.into(), name, tree_sitter_php::HIGHLIGHTS_QUERY, tree_sitter_php::INJECTIONS_QUERY, "") {
        Ok(config) => Some(LanguageConfig { grammar: Grammar::Php, name: name.to_string(), names: Vec::new(), config }),
        Err(_) => None,
    }
}

/// Wraps `HighlightConfiguration::new` with the `tree-sitter-toml-ng` grammar and
/// its queries: it loads exactly when `config_loads` says, and then holds
/// that grammar, the given language name and no recognized names yet.
#[verifier::external_body]
fn toml_config(name: &str) -> (r: Option<LanguageConfig>)
    ensures
        r is Some <==> config_loads(Grammar::Toml, name@),
        r matches Some(c) ==> c.grammar() == Grammar::Toml && c.lang_name() == name@ && c.recognized() == Seq::<Seq<char>>::empty(),
{
    match HighlightConfiguration::new(tree_sitter_toml_ng::LANGUAGE.into(), name, tree_sitter_toml_ng::HIGHLIGHTS_QUERY, "", "") {
        Ok(config) => Some(LanguageConfig { grammar: Grammar::Toml, name: name.to_string(), names: Vec::new(), config }),
        Err(_) => None,
    }
}

/// Wraps `HighlightConfiguration::new` with the `tree-sitter-yaml` grammar and
/// its queries: it loads exactly when `config_loads` says, and then holds
/// that grammar, the given language name and no recognized names yet.
#[verifier::external_body]
fn yaml_config(name: &str) -> (r: Option<LanguageConfig>)
    ensures
        r is Some <==> config_loads(Grammar::Yaml, name@),
        r matches Some(c) ==> c.grammar() == Grammar::Yaml && c.lang_name() == name@ && c.recognized() == Seq::<Seq<char>>::empty(),
{
    match HighlightConfiguration::new(tree_sitter_yaml::LANGUAGE.into(), name, tree_sitter_yaml::HIGHLIGHTS_QUERY, "", "") {
        Ok(config) => Some(LanguageConfig { grammar: Grammar::Yaml, name: name.to_string(), names: Vec::new(), config }),
        Err(_) => None,
    }
}

/// Wraps `HighlightConfiguration::new` with the `tree-sitter-swift` grammar and
/// its queries: it loads exactly when `config_loads` says, and then holds
/// that grammar, the given language name and no recognized names yet.
#[verifier::external_body]
fn swift_config(name: &str) -> (r: Option<LanguageConfig>)
    ensures
        r is Some <==> config_loads(Grammar::Swift, name@),
        r matches Some(c) ==> c.grammar() == Grammar::Swift && c.lang_name() == name@ && c.recognized() == Seq::<Seq<char>>::empty(),
{
    match HighlightConfiguration::new(tree_sitter_swift::LANGUAGE.into(), name, tree_sitter_swift::HIGHLIGHTS_QUERY, "", "") {
        Ok(config) => Some(LanguageConfig { grammar: Grammar::Swift, name: name.to_string(), names: Vec::new(), config }),
        Err(_) => None,
    }
}

/// Wraps `HighlightConfiguration::new` with the `tree-sitter-zig` grammar and
/// its queries: it loads exactly when `config_loads` says, and then holds
/// that grammar, the given language name and no recognized names yet.
#[verifier::external_body]
fn zig_config(name: &str) -> (r: Option<LanguageConfig>)
    ensures
        r is Some <==> config_loads(Grammar::Zig, name@),
        r matches Some(c) ==> c.grammar() == Grammar::Zig && c.lang_name() == name@ && c.recognized() == Seq::<Seq<char>>::empty(),
{
    match HighlightConfiguration::new(tree_sitter_zig::LANGUAGE.into(), name, tree_sitter_zig::HIGHLIGHTS_QUERY, tree_sitter_zig::INJECTIONS_QUERY, "") {
        Ok(config) => Some(LanguageConfig { grammar: Grammar::Zig, name: name.to_string(), names: Vec::new(), config }),
        Err(_) => None,
    }
}

/// Wraps `HighlightConfiguration::new` with the `tree-sitter-sequel` grammar and
/// its queries: it loads exactly when `config_loads` says, and then holds
/// that grammar, the given language name and no recognized names yet.
#[verifier::external_body]
fn sql_config(name: &str) -> (r: Option<LanguageConfig>)
    ensures
        r is Some <==> config_loads(Grammar::Sql, name@),
        r matches Some(c) ==> c.grammar() == Grammar::Sql && c.lang_name() == name@ && c.recognized() == Seq::<Seq<char>>::empty(),
{
    match HighlightConfiguration::new(tree_sitter_sequel::LANGUAGE.into(), name, tree_sitter_sequel::HIGHLIGHTS_QUERY, "", "") {
        Ok(config) => Some(LanguageConfig { grammar: Grammar::Sql, name: name.to_string(), names: Vec::new(), config }),
        Err(_) => None,
    }
}

/// Wraps `HighlightConfiguration::new` with the `tree-sitter-make` grammar and
/// its queries: it loads exactly when `config_loads` says, and then holds
/// that grammar, the given language name and no recognized names yet.
#[verifier::external_body]
fn make_config(name: &str) -> (r: Option<LanguageConfig>)
    ensures
        r is Some <==> config_loads(Grammar::Make, name@),
        r matches Some(c) ==> c.grammar() == Grammar::Make && c.lang_name() == name@ && c.recognized() == Seq::<Seq<char>>::empty(),
{
    match HighlightConfiguration::new(tree_sitter_make::LANGUAGE.into(), name, tree_sitter_make::HIGHLIGHTS_QUERY, "", "") {
        Ok(config) => Some(LanguageConfig { grammar: Grammar::Make, name: name.to_string(), names: Vec::new(), config }),
        Err(_) => None,
    }
}

/// Wraps `HighlightConfiguration::configure`: the configuration then
/// recognizes the given highlight names; its grammar and language name
/// stay.
#[verifier::external_body]
fn configure(config: &mut LanguageConfig, names: &[&str])
    ensures
        final(config).grammar() == old(config).grammar(),
        final(config).lang_name() == old(config).lang_name(),
        final(config).recognized() == names_of(names@),
{
    config.config.configure(names);
    config.names = names.iter().map(|n| n.to_string()).collect();
}

/// Wraps `Highlighter::new`.
#[verifier::external_body]
fn new_highlighter() -> (r: Highlighter) {
    Highlighter::new()
}

/// Wraps `Highlighter::highlight` (with no injections and no
/// cancellation) and turns its events into steps, stopping at the first
/// error; `None` when highlighting cannot start. The steps are the ones
/// `highlight_steps` names for the configuration's grammar, language
/// name and recognized names.
#[verifier::external_body]
fn run_highlighter(highlighter: &mut Highlighter, config: &LanguageConfig, source: &str) -> (r: Option<Vec<HighlightStep>>)
    ensures
        steps_view(r) == highlight_steps(config.grammar(), config.lang_name(), config.recognized(), source@),
{
    let events = highlighter.highlight(&config.config, source.as_bytes(), None, None, |_| None).ok()?;
    let mut out = Vec::new();
    for event in events {
        match event {
            Ok(HighlightEvent::Source { start, end }) => out.push(HighlightStep::Source { start, end }),
            Ok(HighlightEvent::HighlightStart(h)) => out.push(HighlightStep::Start(h.0)),
            Ok(HighlightEvent::HighlightEnd) => out.push(HighlightStep::End),
            Err(_) => {
                out.push(HighlightStep::Failed);
                break;
            },
        }
    }
    Some(out)
}

/// The configuration of the grammar for a language id, if there is one.
fn language_config(lang_id: &str) -> (r: Option<LanguageConfig>)
    ensures
        !known_language(lang_id@) ==> r is None,
        known_language(lang_id@) ==> (r is Some <==> config_loads(grammar_of(lang_id@), lang_id@)),
        r matches Some(c) ==> c.grammar() == grammar_of(lang_id@) && c.lang_name() == lang_id@,
{
    if str_equal(lang_id, "rust") {
        rust_config(lang_id)
    } else if str_equal(lang_id, "c") {
        c_config(lang_id)
    } else if str_equal(lang_id, "cpp") {
        cpp_config(lang_id)
    } else if str_equal(lang_id, "javascript") || str_equal(lang_id, "jsx") {
        javascript_config(lang_id)
    } else if str_equal(lang_id, "typescript") {
        typescript_config(lang_id)
    } else if str_equal(lang_id, "tsx") {
        tsx_config(lang_id)
    } else if str_equal(lang_id, "python") {
        python_config(lang_id)
    } else if str_equal(lang_id, "go") {
        go_config(lang_id)
    } else if str_equal(lang_id, "ruby") {
        ruby_config(lang_id)
    } else if str_equal(lang_id, "bash") || str_equal(lang_id, "shell") {
        bash_config(lang_id)
    } else if str_equal(lang_id, "java") {
        java_config(lang_id)
    } else if str_equal(lang_id, "html") {
        html_config(lang_id)
    } else if str_equal(lang_id, "css") || str_equal(lang_id, "scss") || str_equal(lang_id, "less") {
        css_config(lang_id)
    } else if str_equal(lang_id, "json") {
        json_config(lang_id)
    } else if str_equal(lang_id, "lua") {
        lua_config(lang_id)
    } else if str_equal(lang_id, "php") {
        php_config(lang_id)
    } else if str_equal(lang_id, "toml") {
        toml_config(lang_id)
    } else if str_equal(lang_id, "yaml") {
        yaml_config(lang_id)
    } else if str_equal(lang_id, "swift") {
        swift_config(lang_id)
    } else if str_equal(lang_id, "zig") {
        zig_config(lang_id)
    } else if str_equal(lang_id, "sql") {
        sql_config(lang_id)
    } else if str_equal(lang_id, "make") || str_equal(lang_id, "makefile") {
        make_config(lang_id)
    } else {
        None
    }
}

/// Highlight spans of `source` in the language `lang_id`: none for a
/// language without a grammar; otherwise the spans of the highlighter's
/// steps, as [`spans_from_events`] makes them.
pub fn highlight_source(source: &str, lang_id: &str) -> (r: Vec<HighlightSpan>)
    ensures
        r@ == highlighted(source@, lang_id@),
{
    let mut config = match language_config(lang_id) {
        Some(c) => c,
        None => return Vec::new(),
    };
    configure(&mut config, HIGHLIGHT_NAMES.as_slice());
    let mut highlighter = new_highlighter();
    match run_highlighter(&mut highlighter, &config, source) {
        Some(steps) => spans_from_events(steps.as_slice()),
        None => Vec::new(),
    }
}

} // verus!
