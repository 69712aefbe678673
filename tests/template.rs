use geob::template::{replace, Lookup, TemplateError};

struct Test;

impl Lookup for Test {
    fn replace(&self, name: &str, output: &mut String) -> core::fmt::Result {
        match name {
            "name" => {
                output.push_str("Wilbur");
                Ok(())
            }
            "age" => {
                output.push_str("16");
                Ok(())
            }
            _ => Err(core::fmt::Error),
        }
    }
}

#[test]
fn test_replace() {
    assert_eq!(
        "Wilbur er 16 år gammel",
        replace("${name } er ${age} år gammel", &Test).unwrap()
    )
}

#[test]
fn template_without_placeholders_is_kept() {
    assert_eq!("plain text", replace("plain text", &Test).unwrap());
    assert_eq!("", replace("", &Test).unwrap());
}

#[test]
fn template_escaped_dollar_is_not_a_placeholder() {
    assert_eq!("a \\${name} b", replace("a \\${name} b", &Test).unwrap());
}

#[test]
fn template_unclosed_placeholder_is_a_syntax_error() {
    assert_eq!(Err(TemplateError::Syntax(2)), replace("x ${name", &Test));
    assert_eq!(Err(TemplateError::Syntax(0)), replace("${ }", &Test));
}

#[test]
fn template_unknown_name_is_missing() {
    assert!(matches!(
        replace("${who} is here", &Test),
        Err(TemplateError::Missing(_))
    ));
}
