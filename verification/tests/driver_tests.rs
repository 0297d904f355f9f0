use ion_core::designators::expand_designators;
use ion_core::mapref;
use ion_core::repl::{
    check_terminated, feed_line, keybindings_command, save_command, summary_line, HistorySetup,
    KeyBindingMode,
};
use ion_core::store::Variables;
use ion_core::tilde::TildeOutcome;
use ion_core::value::VariableType;
use ion_core::worddiv::word_divide;

#[test]
fn decompose_map_reference() {
    if let Some((map_name, inner_key)) = Variables::is_hashmap_reference("map[\'key\']") {
        assert!(map_name == "map");
        assert!(inner_key == "key");
    } else {
        assert!(false);
    }
}

#[test]
fn decompose_map_reference_without_quotes() {
    assert_eq!(
        Some(("m".to_string(), "k".to_string())),
        Variables::is_hashmap_reference("m[k]")
    );
    assert_eq!(
        Some(("m".to_string(), "k".to_string())),
        Variables::is_hashmap_reference("m['k']")
    );
}

#[test]
fn map_reference_rejects_invalid_shapes() {
    assert_eq!(None, Variables::is_hashmap_reference("plain"));
    assert_eq!(None, Variables::is_hashmap_reference("m[k"));
    assert_eq!(None, Variables::is_hashmap_reference("b@d[k]"));
}

#[test]
fn valid_variable_names() {
    assert!(mapref::is_valid_variable_name("abc_d.e-f+g?9"));
    assert!(!mapref::is_valid_variable_name("with space"));
    assert!(!mapref::is_valid_variable_name("br[acket"));
}

#[test]
fn tilde_expansion_is_identity_without_tilde() {
    let variables = Variables::default();
    let dirs: Vec<String> = vec![];
    match variables.tilde_expansion("plain/word", &dirs) {
        TildeOutcome::Expanded(s) => assert_eq!("plain/word", s),
        _ => panic!("expected the word back"),
    }
}

#[test]
fn tilde_expands_home_pwd_and_oldpwd() {
    let mut variables = Variables::default();
    variables.env_set("HOME".to_string(), "/home/u".to_string());
    variables.env_set("PWD".to_string(), "/work".to_string());
    variables.set("OLDPWD", VariableType::Str("/old".to_string()));
    let dirs: Vec<String> = vec![];
    match variables.tilde_expansion("~/sub", &dirs) {
        TildeOutcome::Expanded(s) => assert_eq!("/home/u/sub", s),
        _ => panic!("home expected"),
    }
    match variables.tilde_expansion("~+/x", &dirs) {
        TildeOutcome::Expanded(s) => assert_eq!("/work/x", s),
        _ => panic!("pwd expected"),
    }
    match variables.tilde_expansion("~-/y", &dirs) {
        TildeOutcome::Expanded(s) => assert_eq!("/old/y", s),
        _ => panic!("oldpwd expected"),
    }
}

#[test]
fn tilde_indexes_the_directory_stack() {
    let variables = Variables::default();
    let dirs: Vec<String> = vec!["/top".to_string(), "/mid".to_string(), "/bottom".to_string()];
    match variables.tilde_expansion("~-0", &dirs) {
        TildeOutcome::Expanded(s) => assert_eq!("/top", s),
        _ => panic!("top expected"),
    }
    match variables.tilde_expansion("~+0", &dirs) {
        TildeOutcome::Expanded(s) => assert_eq!("/bottom", s),
        _ => panic!("bottom expected"),
    }
    match variables.tilde_expansion("~1", &dirs) {
        TildeOutcome::Expanded(s) => assert_eq!("/mid", s),
        _ => panic!("synonym for ~+1"),
    }
    match variables.tilde_expansion("~9", &dirs) {
        TildeOutcome::Absent => {},
        _ => panic!("out of range is absent"),
    }
}

#[test]
fn tilde_unknown_prefix_asks_for_a_user_home() {
    let variables = Variables::default();
    let dirs: Vec<String> = vec![];
    match variables.tilde_expansion("~alice/docs", &dirs) {
        TildeOutcome::NeedsUser { user, remainder } => {
            assert_eq!("alice", user);
            assert_eq!("/docs", remainder);
        },
        _ => panic!("user lookup expected"),
    }
}

#[test]
fn continuation_terminates_after_second_line() {
    assert!(!check_terminated("echo \\"));
    assert!(check_terminated("echo \\\\"));
    let mut pending = String::new();
    assert_eq!(None, feed_line(&mut pending, "echo \\"));
    let done = feed_line(&mut pending, "hello");
    assert_eq!(Some("echo \\\nhello".to_string()), done);
    assert_eq!("", pending);
}

#[test]
fn history_save_appends_slash_for_directories() {
    assert_eq!("/tmp/", save_command("/tmp", true));
    assert_eq!("/tmp/", save_command("/tmp/", true));
    assert_eq!("ls", save_command("ls", false));
}

#[test]
fn keybindings_accepts_vi_and_emacs_only() {
    let args = vec!["keybindings".to_string(), "foo".to_string()];
    match keybindings_command(&args) {
        Err(m) => assert_eq!("Invalid keybindings. Choices are vi and emacs", m),
        Ok(_) => panic!("foo must fail"),
    }
    let args = vec!["keybindings".to_string(), "vi".to_string()];
    assert_eq!(Ok(KeyBindingMode::Vi), keybindings_command(&args));
    let args = vec!["keybindings".to_string(), "emacs".to_string()];
    assert_eq!(Ok(KeyBindingMode::Emacs), keybindings_command(&args));
    let args = vec!["keybindings".to_string()];
    match keybindings_command(&args) {
        Err(m) => assert_eq!("keybindings need an argument", m),
        Ok(_) => panic!("an argument is needed"),
    }
}

#[test]
fn summary_line_pads_nanoseconds() {
    assert_eq!(
        "#summary# elapsed real time: 3.000000450 seconds",
        summary_line(3, 450)
    );
    assert_eq!(
        "#summary# elapsed real time: 0.123456789 seconds",
        summary_line(0, 123456789)
    );
}

#[test]
fn history_setup_follows_the_variables() {
    let variables = Variables::default();
    match variables.history_setup() {
        HistorySetup::Disabled => {},
        _ => panic!("no history file was configured"),
    }
    let variables = Variables::with_defaults(
        None,
        None,
        None,
        Some("/data/history".to_string()),
        None,
        None,
        vec![],
    );
    match variables.history_setup() {
        HistorySetup::Path(p) => assert_eq!("/data/history", p),
        _ => panic!("a path was configured"),
    }
}

#[test]
fn history_enabled_without_a_path_is_an_error() {
    let mut variables = Variables::default();
    variables.set("HISTFILE_ENABLED", VariableType::Str("1".to_string()));
    match variables.history_setup() {
        HistorySetup::MissingPath => {},
        _ => panic!("enabled without a path must be reported"),
    }
}

#[test]
fn records_summary_only_when_enabled() {
    let mut variables = Variables::default();
    assert!(!variables.records_summary());
    variables.set("RECORD_SUMMARY", VariableType::Str("1".to_string()));
    assert!(variables.records_summary());
}

#[test]
fn word_divide_splits_on_unescaped_spaces() {
    let buf: Vec<char> = "two words".chars().collect();
    assert_eq!(vec![(0, 3), (4, 9)], word_divide(&buf));
    let buf: Vec<char> = "one\\ word".chars().collect();
    assert_eq!(vec![(0, 9)], word_divide(&buf));
    let buf: Vec<char> = "  ".chars().collect();
    assert!(word_divide(&buf).is_empty());
}

#[test]
fn designators_splice_history() {
    let history = vec![
        "make check".to_string(),
        "git log".to_string(),
        "cargo build".to_string(),
    ];
    assert_eq!("cargo build", expand_designators("!!", &history));
    assert_eq!("git log", expand_designators("!1", &history));
    assert_eq!("make check", expand_designators("!-3", &history));
    assert_eq!("git log --stat", expand_designators("!git --stat", &history));
    assert_eq!("make check", expand_designators("!?check?", &history));
    assert_eq!("echo !?nope?", expand_designators("echo !?nope?", &history));
    assert_eq!("echo !9", expand_designators("echo !9", &history));
    assert_eq!("plain text", expand_designators("plain text", &history));
}
