use forebodere::db::Query;

#[test]
fn query_parse_handles_hostile_input() {
    assert_eq!(Query::parse("hello").unwrap().to_match_expr(), "\"hello\"");
    assert_eq!(
        Query::parse("quick fox").unwrap().to_match_expr(),
        "\"quick\" \"fox\""
    );
    assert_eq!(
        Query::parse("say \"hi\"").unwrap().to_match_expr(),
        "\"say\" \"\"\"hi\"\"\""
    );
    assert_eq!(
        Query::parse("\"quick fox\"").unwrap().to_match_expr(),
        "\"quick fox\""
    );
}

#[test]
fn query_parse_rejects_empty_input() {
    assert_eq!(Query::parse(""), None);
    assert_eq!(Query::parse("   "), None);
    assert_eq!(
        Query::parse("\"\""),
        None,
        "an explicitly empty phrase is still empty"
    );
}
