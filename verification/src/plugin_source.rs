use vstd::prelude::*;

verus! {

/// Whether `regex::Regex::new` accepts `pattern`.
pub uninterp spec fn regex_compiles(pattern: Seq<char>) -> bool;

/// What `regex::Regex::replace_all` makes of `source` with the regex
/// compiled from `pattern`: every non-overlapping match replaced by
/// `replacement`.
pub uninterp spec fn regex_replaced(pattern: Seq<char>, source: Seq<char>, replacement: Seq<char>) -> Seq<char>;

/// Compiles `pattern` with `regex::Regex::new` and, when it compiles,
/// replaces every match in `source` by `replacement` with
/// `regex::Regex::replace_all`. Trusted: `None` exactly when the pattern
/// does not compile (both depend on the pattern alone), and the text is the
/// crate's replacement result, which is not described further here.
#[verifier::external_body]
fn regex_replace_all(pattern: &str, source: &str, replacement: &str) -> (r: Option<String>)
    ensures
        r is Some <==> regex_compiles(pattern@),
        r matches Some(s) ==> s@ == regex_replaced(pattern@, source@, replacement@),
{
    match regex::Regex::new(pattern) {
        Ok(re) => Some(re.replace_all(source, replacement).to_string()),
        Err(_) => None,
    }
}

/// The line that opens a plugin's field table: `local P = {}` on a line of
/// its own (spaces and a closing semicolon allowed).
pub const PLUGIN_TABLE_PATTERN: &'static str = "(?m)^\\s*local\\s+P\\s*=\\s*\\{\\s*\\}\\s*;?\\s*$";

/// What that line becomes: the table, then a helper that looks up the value
/// of a dialog field by its id.
pub const PLUGIN_TABLE_PRELUDE: &'static str = "local P = {}\nfunction get_field_value(f_id)\n    for i,f in ipairs(P.dialog_fields) do\n        if f.id == f_id then\n            return f[1].value\n        end\n    end\nend";

/// A plugin's source with the line that opens its field table replaced by
/// the table and the field lookup helper; `None` if the pattern for that
/// line is refused by the regex crate.
pub fn preprocess_plugin_src(source: &str) -> (r: Option<String>)
    ensures
        r is Some <==> regex_compiles(PLUGIN_TABLE_PATTERN@),
        r matches Some(s) ==> s@ == regex_replaced(PLUGIN_TABLE_PATTERN@, source@, PLUGIN_TABLE_PRELUDE@),
{
    regex_replace_all(PLUGIN_TABLE_PATTERN, source, PLUGIN_TABLE_PRELUDE)
}

/// The kinds of plugins: those that change the selected notes and those
/// that make new ones.
#[derive(Clone, Copy, PartialEq, Eq, Structural, Debug)]
pub enum PluginType {
    Manipluate,
    Generate,
}

/// What a plugin says about itself.
pub struct PluginInfo {
    pub author: Option<String>,
    pub description: Option<String>,
}

/// The kind a plugin declares with its type name: "generate" makes a
/// generating plugin; "manipulate", and any other name, a manipulating one.
pub fn plugin_type_from_name(name: &str) -> (r: PluginType)
    ensures
        r == if name@ == "generate"@ { PluginType::Generate } else { PluginType::Manipluate },
{
    proof {
        reveal_strlit("manipulate");
        reveal_strlit("generate");
        assert("manipulate"@.len() != "generate"@.len());
    }
    let name = name.to_owned();
    if name == "manipulate".to_owned() {
        PluginType::Manipluate
    } else if name == "generate".to_owned() {
        PluginType::Generate
    } else {
        PluginType::Manipluate
    }
}

/// Whether a plugin may load the module `name`: the modules that reach the
/// network, the system and the package loader are refused.
pub fn module_allowed(name: &str) -> (r: bool)
    ensures
        r == !(name@ == "socket"@ || name@ == "os"@ || name@ == "package"@),
{
    let name = name.to_owned();
    let disallowed = ["socket".to_owned(), "os".to_owned(), "package".to_owned()];
    !(name == disallowed[0] || name == disallowed[1] || name == disallowed[2])
}

} // verus!
