use json_exporter::prepare::{ConfigError, TemplateProcessor};
use json_exporter::selector::JsonSelector;
use json_exporter::tmpl::{
    selector, string_with_placeholders, text_placeholder, uint, var, var_placeholder,
    var_simple_placeholder, Placeholder, Var,
};

#[test]
fn test_uint() {
    assert_eq!(uint(""), None);
    assert_eq!(uint("0"), Some(("", 0)));
    assert_eq!(uint("123asdf"), Some(("asdf", 123)));
    assert_eq!(uint("0123456789"), Some(("", 123456789)));
    assert_eq!(uint("asdf"), None);
}

#[test]
fn test_uint_overflow() {
    assert_eq!(uint("4294967295"), Some(("", 4294967295)));
    assert_eq!(uint("4294967296"), None);
    assert_eq!(uint("99999999999999999999"), None);
}

#[test]
fn test_selector() {
    assert_eq!(selector("$"), Some(("", "$".to_string())));
    assert_eq!(
        selector("$[(@.age > 18)]"),
        Some(("", "$[(@.age > 18)]".to_string()))
    );
}

#[test]
fn test_var() {
    assert_eq!(var("0"), Some(("", Var::PathPart(0))));
    assert_eq!(var("$.asdf"), Some(("", Var::Selector("$.asdf".to_string()))));
}

#[test]
fn test_var_simple_placeholder() {
    assert_eq!(
        var_simple_placeholder("$0"),
        Some(("", Placeholder::Var(Var::PathPart(0))))
    );
    assert_eq!(
        var_simple_placeholder("$0,"),
        Some((",", Placeholder::Var(Var::PathPart(0))))
    );
}

#[test]
fn test_placeholder() {
    assert_eq!(
        var_placeholder("${0}"),
        Some(("", Placeholder::Var(Var::PathPart(0))))
    );
    assert_eq!(
        var_placeholder("${ 0 }"),
        Some(("", Placeholder::Var(Var::PathPart(0))))
    );
    assert_eq!(
        var_placeholder("${  0  }"),
        Some(("", Placeholder::Var(Var::PathPart(0))))
    );
    assert_eq!(
        var_placeholder("${$}"),
        Some(("", Placeholder::Var(Var::Selector("$".to_string()))))
    );
    assert_eq!(
        var_placeholder("${ $ }"),
        Some(("", Placeholder::Var(Var::Selector("$".to_string()))))
    );
    assert_eq!(
        var_placeholder("${$.a.b.c}"),
        Some(("", Placeholder::Var(Var::Selector("$.a.b.c".to_string()))))
    );
    assert_eq!(
        var_placeholder("${ $.a.b.c  }"),
        Some(("", Placeholder::Var(Var::Selector("$.a.b.c".to_string()))))
    );
}

#[test]
fn test_text_placeholder() {
    assert_eq!(
        text_placeholder("Test string"),
        Some(("", Placeholder::Text("Test string".to_string())))
    );
}

#[test]
fn test_string_with_placeholders() {
    assert_eq!(string_with_placeholders(""), None);
    assert_eq!(
        string_with_placeholders("Test string"),
        Some(("", vec!(Placeholder::Text("Test string".to_string()))))
    );
    assert_eq!(
        string_with_placeholders("${0}"),
        Some(("", vec!(Placeholder::Var(Var::PathPart(0)))))
    );
    assert_eq!(
        string_with_placeholders("Test string: ${0}"),
        Some((
            "",
            vec!(
                Placeholder::Text("Test string: ".to_string()),
                Placeholder::Var(Var::PathPart(0))
            )
        ))
    );
    assert_eq!(
        string_with_placeholders("Indexes: ${1} - $0, variable: ${ $.user.name }"),
        Some((
            "",
            vec!(
                Placeholder::Text("Indexes: ".to_string()),
                Placeholder::Var(Var::PathPart(1)),
                Placeholder::Text(" - ".to_string()),
                Placeholder::Var(Var::PathPart(0)),
                Placeholder::Text(", variable: ".to_string()),
                Placeholder::Var(Var::Selector("$.user.name".to_string())),
            )
        ))
    );
}

#[test]
fn test_template_syntax_error() {
    assert!(TemplateProcessor::create_from("abc").is_ok());
    assert!(TemplateProcessor::create_from("").is_ok());
    assert_eq!(
        TemplateProcessor::create_from("$x").err(),
        Some(ConfigError::TemplateSyntax)
    );
    assert_eq!(
        TemplateProcessor::create_from("${unterminated").err(),
        Some(ConfigError::TemplateSyntax)
    );
}

#[test]
fn test_selector_syntax_error() {
    assert!(JsonSelector::new("").is_some());
    assert!(JsonSelector::new("a.b.*").is_some());
    assert!(JsonSelector::new("$[(@.age > 18)]").is_none());
    assert!(JsonSelector::new("a..b").is_none());
}
