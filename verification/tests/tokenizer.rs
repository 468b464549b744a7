use linguist_termcolor::token::tokenize;

fn toks(text: &str) -> Vec<String> {
    tokenize(text)
}

#[test]
fn compound_identifier_is_one_token() {
    assert_eq!(toks("objective-c"), vec!["objective-c".to_string()]);
}

#[test]
fn plus_signs_stay_in_token_and_case_is_preserved() {
    assert_eq!(toks("C++"), vec!["C++".to_string()]);
}

#[test]
fn space_separates_tokens() {
    assert_eq!(toks("foo bar"), vec!["foo".to_string(), "bar".to_string()]);
}

#[test]
fn slash_separates_tokens() {
    assert_eq!(toks("foo/bar"), vec!["foo".to_string(), "bar".to_string()]);
}

#[test]
fn symbols_kept_in_tokens() {
    assert_eq!(toks("c# f* snake_case"), vec![
        "c#".to_string(),
        "f*".to_string(),
        "snake_case".to_string()
    ]);
}

#[test]
fn punctuation_only_yields_nothing() {
    assert_eq!(toks("..//!! ??"), Vec::<String>::new());
}

#[test]
fn empty_text_yields_nothing() {
    assert_eq!(toks(""), Vec::<String>::new());
}

#[test]
fn leading_dot_extension() {
    assert_eq!(toks(".rs"), vec!["rs".to_string()]);
}

#[test]
fn unicode_letters_are_token_characters() {
    assert_eq!(toks("programmation réseau"), vec![
        "programmation".to_string(),
        "réseau".to_string()
    ]);
}
