use spellcast::output::OutputFormat;

#[test]
fn only_json_is_not_for_humans() {
    assert!(OutputFormat::Board.is_for_humans());
    assert!(OutputFormat::Simple.is_for_humans());
    assert!(!OutputFormat::JSON.is_for_humans());
}

#[test]
fn formats_are_read_by_name() {
    assert_eq!(OutputFormat::from_arg_value("board"), Ok(OutputFormat::Board));
    assert_eq!(OutputFormat::from_arg_value("json"), Ok(OutputFormat::JSON));
    assert_eq!(OutputFormat::from_arg_value("simple"), Ok(OutputFormat::Simple));
    assert_eq!(
        OutputFormat::from_arg_value("table"),
        Err("Expected board/json/simple".to_string())
    );
    assert!(OutputFormat::from_arg_value("JSON").is_err());
}
