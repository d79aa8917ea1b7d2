use attrsplit::{convert_builder, custom_builder, examine_builder, SplitError};

#[test]
fn test_custom_builder() {
    let attributes = r##""Oh dear this failed because of {}", text"##;
    let result = custom_builder(attributes.to_string()).unwrap();
    let result_parts: Vec<&str> = result
        .split("\n")
        .map(|s| s.trim())
        .filter(|s| !s.is_empty())
        .collect();

    let required = vec![
        "{",
        "#[cfg(not(feature = \"disclose\"))]",
        "let inform = format!(\"Oh dear this failed because of {}\", text);",
        "#[cfg(feature = \"disclose\")]",
        "let inform = format!(\"{0}:{1}:{2}: {3}\", file!(), line!(), column!(), format!(\"Oh dear this failed because of {}\", text));",
        "::std::result::Result::Err(::nuhound::Nuhound::new(inform))",
        "}",
    ];

    println!("{result_parts:#?}");
    assert_eq!(result_parts, required);
}

#[test]
fn test_examine_builder() {
    let attributes =
        r##"text.parse::<u32>(), "Oh dear - '{}' could not be converted to an integer", text"##;
    let result = examine_builder(attributes.to_string()).unwrap();
    let result_parts: Vec<&str> = result
        .split("\n")
        .map(|s| s.trim())
        .filter(|s| !s.is_empty())
        .collect();

    let required = vec![
        "text.parse::<u32>().report(|cause| {",
        "#[cfg(not(feature = \"disclose\"))]",
        "let inform = format!(\"Oh dear - '{}' could not be converted to an integer\", text);",
        "#[cfg(feature = \"disclose\")]",
        "let inform = format!(\"{0}:{1}:{2}: {3}\", file!(), line!(), column!(), format!(\"Oh dear - '{}' could not be converted to an integer\", text));",
        "::nuhound::Nuhound::new(inform).caused_by(cause)",
        "})",
    ];
    println!("{result_parts:#?}");
    assert_eq!(result_parts, required);
}

#[test]
fn test_covert_builder() {
    let attributes =
        r##"text.parse::<u32>(), "Oh dear - '{}' could not be converted to an integer", text"##;
    let result = convert_builder(attributes.to_string()).unwrap();
    let result_parts: Vec<&str> = result
        .split("\n")
        .map(|s| s.trim())
        .filter(|s| !s.is_empty())
        .collect();

    let required = vec![
        "text.parse::<u32>().report(|reason| {",
        "let cause: &dyn ::std::error::Error = &reason;",
        "#[cfg(not(feature = \"disclose\"))]",
        "let inform = format!(\"Oh dear - '{}' could not be converted to an integer\", text);",
        "#[cfg(feature = \"disclose\")]",
        "let inform = format!(\"{0}:{1}:{2}: {3}\", file!(), line!(), column!(), format!(\"Oh dear - '{}' could not be converted to an integer\", text));",
        "::nuhound::Nuhound::link(inform, cause)",
        "})",
    ];
    println!("{result_parts:#?}");
    assert_eq!(result_parts, required);
}

#[test]
fn builders_reject_too_few_attributes() {
    assert_eq!(
        convert_builder("lonely".to_string()),
        Err(SplitError::TooFewAttributes)
    );
    assert_eq!(
        examine_builder("lonely".to_string()),
        Err(SplitError::TooFewAttributes)
    );
    assert_eq!(
        SplitError::TooFewAttributes.message(),
        "Contains insufficient parameters"
    );
}

#[test]
fn builders_propagate_a_misplaced_pipe() {
    assert_eq!(
        convert_builder("|x| x".to_string()),
        Err(SplitError::MisplacedPipe)
    );
    assert_eq!(
        examine_builder("|x| x".to_string()),
        Err(SplitError::MisplacedPipe)
    );
    assert_eq!(
        custom_builder("|x| x".to_string()),
        Err(SplitError::MisplacedPipe)
    );
}

#[test]
fn custom_builder_accepts_a_single_attribute() {
    let result = custom_builder("\"message\"".to_string()).unwrap();
    assert!(result.contains("let inform = format!(\"message\");"));
    assert!(result.contains("::std::result::Result::Err(::nuhound::Nuhound::new(inform))"));
}
