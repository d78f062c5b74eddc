use i18n_key_translator::extension::{complete_slash_command_argument, slash_command_kind, SlashCommandKind};

fn langs() -> Vec<(String, String)> {
    vec![("en".to_string(), "English".to_string()), ("zh".to_string(), "Chinese".to_string())]
}

#[test]
fn command_names() {
    assert!(slash_command_kind("i18n") == Ok(SlashCommandKind::Lookup));
    assert!(slash_command_kind("i18n-keys") == Ok(SlashCommandKind::Keys));
    assert!(slash_command_kind("i18n-sync") == Ok(SlashCommandKind::Sync));
    assert!(slash_command_kind("i18n-search") == Err("unknown slash command: \"i18n-search\"".to_string()));
}

#[test]
fn language_completions() {
    let c = complete_slash_command_argument("i18n-keys", &vec![], &langs()).ok().unwrap();
    assert_eq!(c.len(), 2);
    assert_eq!(c[0].label, "en — English");
    assert_eq!(c[1].new_text, "zh");
    assert!(c[1].run_command);
    let key_first = complete_slash_command_argument("i18n", &vec![], &langs()).ok().unwrap();
    assert!(key_first.is_empty());
    let after_key = complete_slash_command_argument("i18n", &vec!["a.b".to_string()], &langs()).ok().unwrap();
    assert_eq!(after_key.len(), 2);
    assert_eq!(
        complete_slash_command_argument("other", &vec![], &langs()).err().unwrap(),
        "unknown slash command: \"other\""
    );
}
