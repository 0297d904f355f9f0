use ion_core::store::Variables;
use ion_core::retrieve::StringLookup;
use ion_core::value::{VarMap, VariableType};

fn get_str(vars: &Variables, name: &str) -> Option<String> {
    match vars.get_string(name) {
        StringLookup::Found(s) => Some(s),
        _ => None,
    }
}

#[test]
fn undefined_variable_expands_to_empty_string() {
    let mut variables = Variables::default();
    variables.env_set("PWD".to_string(), "/tmp".to_string());
    let expanded = variables.get_str_or_empty("FOO");
    assert_eq!("", &expanded);
}

#[test]
fn set_var_and_expand_a_variable() {
    let mut variables = Variables::default();
    variables.set("FOO", VariableType::Str("BAR".to_string()));
    let expanded = variables.get_str_or_empty("FOO");
    assert_eq!("BAR", &expanded);
}

#[test]
fn minimal_directory_var_should_compact_path() {
    let mut variables = Variables::default();
    variables.env_set("PWD".to_string(), "/var/log/nix".to_string());
    assert_eq!(
        "v/l/nix",
        match get_str(&variables, "MWD") {
            Some(string) => string,
            None => panic!("no value returned"),
        }
    );
}

#[test]
fn minimal_directory_var_shouldnt_compact_path() {
    let mut variables = Variables::default();
    variables.env_set("PWD".to_string(), "/var/log".to_string());
    assert_eq!(
        "/var/log",
        match get_str(&variables, "MWD") {
            Some(string) => string,
            None => panic!("no value returned"),
        }
    );
}

#[test]
fn minimal_directory_is_idempotent() {
    let once = ion_core::wd::minimize_directory("/a/b/c");
    assert_eq!("a/b/c", once);
    let twice = ion_core::wd::minimize_directory(&once);
    assert_eq!(once, twice);
    let once = ion_core::wd::minimize_directory("/var/log/nix");
    let twice = ion_core::wd::minimize_directory(&once);
    assert_eq!(once, "v/l/nix");
    assert_eq!(once, twice);
}

#[test]
fn minimal_directory_keeps_dotfile_prefixes() {
    let out = ion_core::wd::minimize_directory("~/.config/fish");
    assert_eq!("~/.c/fish", out);
}

#[test]
fn simplified_directory_replaces_home_prefix() {
    let mut variables = Variables::default();
    variables.env_set("HOME".to_string(), "/home/user".to_string());
    variables.env_set("PWD".to_string(), "/home/user/work".to_string());
    assert_eq!(Some("~/work".to_string()), get_str(&variables, "SWD"));
}

#[test]
fn set_then_get_returns_the_value() {
    let mut variables = Variables::default();
    variables.set("ALPHA", VariableType::Str("one".to_string()));
    assert_eq!(Some("one".to_string()), get_str(&variables, "ALPHA"));
    variables.set("ALPHA", VariableType::Str("two".to_string()));
    assert_eq!(Some("two".to_string()), get_str(&variables, "ALPHA"));
}

#[test]
fn set_empty_string_deletes_the_variable() {
    let mut variables = Variables::default();
    variables.set("ALPHA", VariableType::Str("one".to_string()));
    variables.set("ALPHA", VariableType::Str(String::new()));
    assert_eq!(None, get_str(&variables, "ALPHA"));
}

#[test]
fn namespace_scopes_hide_outer_variables() {
    let mut variables = Variables::default();
    variables.set("x", VariableType::Str("1".to_string()));
    variables.new_scope(true);
    variables.set("x", VariableType::Str("2".to_string()));
    assert_eq!(Some("2".to_string()), get_str(&variables, "x"));
    assert_eq!(Some("1".to_string()), get_str(&variables, "super::x"));
    assert_eq!(Some("1".to_string()), get_str(&variables, "global::x"));
    // outer namespaces are read-only: the write is diverted, the outer
    // binding stays
    variables.set("super::x", VariableType::Str("3".to_string()));
    assert_eq!(Some("1".to_string()), get_str(&variables, "super::x"));
    variables.pop_scope();
    assert_eq!(Some("1".to_string()), get_str(&variables, "x"));
}

#[test]
fn unqualified_lookup_stops_at_boundary() {
    let mut variables = Variables::default();
    variables.set("outer_only", VariableType::Str("hidden".to_string()));
    variables.new_scope(true);
    assert_eq!(None, get_str(&variables, "outer_only"));
    variables.pop_scope();
    assert_eq!(Some("hidden".to_string()), get_str(&variables, "outer_only"));
}

#[test]
fn nested_supers_reach_each_enclosing_scope() {
    let mut variables = Variables::default();
    variables.set("d", VariableType::Str("0".to_string()));
    variables.new_scope(true);
    variables.set("d", VariableType::Str("1".to_string()));
    variables.new_scope(true);
    variables.set("d", VariableType::Str("2".to_string()));
    assert_eq!(Some("2".to_string()), get_str(&variables, "d"));
    assert_eq!(Some("1".to_string()), get_str(&variables, "super::d"));
    assert_eq!(Some("0".to_string()), get_str(&variables, "super::super::d"));
    assert_eq!(Some("0".to_string()), get_str(&variables, "global::d"));
}

#[test]
fn functions_are_visible_through_boundaries() {
    let mut variables = Variables::default();
    let f = ion_core::value::Function {
        name: "greet".to_string(),
        description: "a greeting".to_string(),
        params: vec![],
        body: vec!["echo hi".to_string()],
    };
    variables.set("greet", VariableType::Function(f));
    variables.new_scope(true);
    assert!(variables.get_function("greet").is_some());
    assert_eq!(None, get_str(&variables, "greet"));
}

#[test]
fn shadowing_hides_without_deleting() {
    let mut variables = Variables::default();
    variables.set("s", VariableType::Str("outer".to_string()));
    variables.new_scope(false);
    variables.shadow("s".to_string(), VariableType::Str("inner".to_string()));
    assert_eq!(Some("inner".to_string()), get_str(&variables, "s"));
    variables.pop_scope();
    assert_eq!(Some("outer".to_string()), get_str(&variables, "s"));
}

#[test]
fn cross_kind_assignment_shadows_into_current_scope() {
    let mut variables = Variables::default();
    variables.set("a", VariableType::Str("text".to_string()));
    variables.set("a", VariableType::Array(vec!["x".to_string(), "y".to_string()]));
    let arr = variables.get_array("a").expect("array expected");
    assert_eq!(vec!["x".to_string(), "y".to_string()], arr);
}

#[test]
fn empty_array_assignment_deletes() {
    let mut variables = Variables::default();
    variables.set("arr", VariableType::Array(vec!["x".to_string()]));
    variables.set("arr", VariableType::Array(vec![]));
    assert!(variables.get_array("arr").is_none());
}

#[test]
fn empty_name_is_a_no_op() {
    let mut variables = Variables::default();
    variables.set("", VariableType::Str("ghost".to_string()));
    assert_eq!(None, get_str(&variables, ""));
}

#[test]
fn ns_plugins_toggles_the_plugin_flag() {
    let mut variables = Variables::default();
    assert!(!variables.has_plugin_support());
    variables.set("NS_PLUGINS", VariableType::Str("1".to_string()));
    assert!(variables.has_plugin_support());
    variables.set("NS_PLUGINS", VariableType::Str("2".to_string()));
    assert!(variables.has_plugin_support());
    variables.set("NS_PLUGINS", VariableType::Str("0".to_string()));
    assert!(!variables.has_plugin_support());
}

#[test]
fn plugin_namespace_policy() {
    let mut variables = Variables::default();
    match variables.get_string("myns::value") {
        StringLookup::DeniedDisabled => {},
        _ => panic!("plugins are disabled by default"),
    }
    variables.enable_plugins();
    match variables.get_string("myns::value") {
        StringLookup::Dispatch { namespace, variable } => {
            assert_eq!("myns", namespace);
            assert_eq!("value", variable);
        },
        _ => panic!("expected a dispatch"),
    }
}

#[test]
fn root_may_not_execute_plugins() {
    let mut variables =
        Variables::with_defaults(Some(1), Some(0), Some(0), None, None, None, vec![]);
    variables.enable_plugins();
    match variables.get_string("myns::value") {
        StringLookup::DeniedRoot => {},
        _ => panic!("root must be denied"),
    }
}

#[test]
fn env_namespace_reads_the_environment() {
    let variables = Variables::with_defaults(
        None,
        None,
        None,
        None,
        None,
        None,
        vec![("EDITOR".to_string(), "vim".to_string())],
    );
    assert_eq!(Some("vim".to_string()), get_str(&variables, "env::EDITOR"));
    assert_eq!(None, get_str(&variables, "env::NO_SUCH"));
}

#[test]
fn hex_namespace_decodes_a_byte() {
    let variables = Variables::default();
    assert_eq!(Some("\u{1b}".to_string()), get_str(&variables, "x::1B"));
    assert_eq!(Some("A".to_string()), get_str(&variables, "hex::41"));
    assert_eq!(None, get_str(&variables, "x::zz"));
    assert_eq!(None, get_str(&variables, "x::fff"));
}

#[test]
fn color_namespace_builds_escape_sequences() {
    let variables = Variables::default();
    assert_eq!(Some("\u{1b}[0m".to_string()), get_str(&variables, "c::reset"));
    assert_eq!(
        Some("\u{1b}[38;5;85;1m".to_string()),
        get_str(&variables, "color::0x55,bold")
    );
    assert_eq!(None, get_str(&variables, "c::no_such_color"));
}

#[test]
fn defaults_hold_the_documented_values() {
    let variables = Variables::default();
    assert_eq!(Some("1000".to_string()), get_str(&variables, "HISTORY_SIZE"));
    assert_eq!(Some("1000".to_string()), get_str(&variables, "DIRECTORY_STACK_SIZE"));
    assert_eq!(Some("100000".to_string()), get_str(&variables, "HISTFILE_SIZE"));
    assert_eq!(Some("?".to_string()), get_str(&variables, "PID"));
    let ignore = variables.get_array("HISTORY_IGNORE").expect("array");
    assert_eq!(
        vec![
            "no_such_command".to_string(),
            "whitespace".to_string(),
            "duplicates".to_string()
        ],
        ignore
    );
}

#[test]
fn constructed_ids_render_in_decimal() {
    let variables =
        Variables::with_defaults(Some(4321), Some(1000), Some(1000), None, None, None, vec![]);
    assert_eq!(Some("4321".to_string()), get_str(&variables, "PID"));
    assert_eq!(Some("1000".to_string()), get_str(&variables, "UID"));
    assert!(!variables.is_root());
}

#[test]
fn remove_variable_returns_the_binding() {
    let mut variables = Variables::default();
    variables.set("gone", VariableType::Str("soon".to_string()));
    let removed = variables.remove_variable("gone");
    match removed {
        Some(VariableType::Str(s)) => assert_eq!("soon", s),
        _ => panic!("expected the removed string"),
    }
    assert_eq!(None, get_str(&variables, "gone"));
}

#[test]
fn pop_scopes_and_append_scopes_round_trip() {
    let mut variables = Variables::default();
    variables.new_scope(false);
    variables.set("kept", VariableType::Str("v".to_string()));
    let saved = variables.pop_scopes(0);
    assert_eq!(None, get_str(&variables, "kept"));
    variables.append_scopes(saved);
    assert_eq!(Some("v".to_string()), get_str(&variables, "kept"));
}

#[test]
fn display_joins_arrays_and_maps() {
    let arr = VariableType::Array(vec!["a".to_string(), "b".to_string()]);
    assert_eq!("a b", arr.display_string());
    let mut m = VarMap::new();
    m.push_entry("k1".to_string(), VariableType::Str("v1".to_string()));
    m.push_entry("k2".to_string(), VariableType::Str("v2".to_string()));
    let map = VariableType::HashMap(m);
    assert_eq!("v1 v2", map.display_string());
    assert_eq!("", VariableType::Absent.display_string());
}

#[test]
fn coercions_yield_neutral_values_across_kinds() {
    let v = VariableType::Str("text".to_string());
    assert_eq!("text", v.coerce_string());
    let v = VariableType::Array(vec!["x".to_string()]);
    assert_eq!("", v.coerce_string());
    let v = VariableType::Str("text".to_string());
    assert!(v.coerce_array().is_empty());
}

#[test]
fn enumeration_getters_list_bindings() {
    let mut variables = Variables::default();
    variables.set("plain", VariableType::Str("s".to_string()));
    variables.set("al", VariableType::Alias("ls -l".to_string()));
    let strings = variables.string_vars();
    assert!(strings.iter().any(|(k, v)| k == "plain" && v == "s"));
    let aliases = variables.aliases();
    assert!(aliases.iter().any(|(k, v)| k == "al" && v == "ls -l"));
    assert_eq!(Some("ls -l".to_string()), variables.get_alias("al"));
}
