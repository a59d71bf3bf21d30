use forebodere::commands::{
    chunk_messages, format_duration, format_submitted, parse_quote_request, sanitize_quote,
    QuoteRequest,
};
use forebodere::db::{QuoteId, SubmittedAt};

#[test]
fn parse_quote_request_handles_empty_and_missing_args() {
    assert_eq!(parse_quote_request(None), QuoteRequest::Random);
    assert_eq!(parse_quote_request(Some("")), QuoteRequest::Random);
    assert_eq!(parse_quote_request(Some("   ")), QuoteRequest::Random);
}

#[test]
fn parse_quote_request_parses_id_prefix() {
    assert_eq!(
        parse_quote_request(Some("id:2932")),
        QuoteRequest::ById(QuoteId(2932))
    );
    assert_eq!(
        parse_quote_request(Some("id: 2932 ")),
        QuoteRequest::ById(QuoteId(2932))
    );
}

#[test]
fn parse_quote_request_rejects_non_numeric_id() {
    assert_eq!(
        parse_quote_request(Some("id:abc")),
        QuoteRequest::InvalidId("abc".to_string())
    );
}

#[test]
fn parse_quote_request_falls_back_to_search() {
    assert_eq!(
        parse_quote_request(Some("quick fox")),
        QuoteRequest::Search("quick fox".to_string())
    );
}

#[test]
fn sanitize_quote_strips_asterisks_only_inside_emoji_tokens() {
    assert_eq!(
        sanitize_quote("check out <:**custom**emoji:387878347> right"),
        "check out <:customemoji:387878347> right"
    );
    assert_eq!(sanitize_quote("the **quick** fox"), "the **quick** fox");
}

#[test]
fn sanitize_quote_handles_multiple_tokens_and_plain_text() {
    assert_eq!(
        sanitize_quote("<:**a**:1> and <:**b**:2>"),
        "<:a:1> and <:b:2>"
    );
    assert_eq!(sanitize_quote("no emoji here"), "no emoji here");
    assert_eq!(sanitize_quote(""), "");
}

#[test]
fn sanitize_quote_tolerates_an_unterminated_token() {
    assert_eq!(sanitize_quote("abc <:unterminated"), "abc <:unterminated");
}

#[test]
fn chunk_messages_groups_lines_under_the_limit() {
    let lines = vec!["a".to_string(), "b".to_string(), "c".to_string()];
    assert_eq!(chunk_messages(&lines, 2000), vec!["a\nb\nc".to_string()]);
}

#[test]
fn chunk_messages_keeps_an_oversized_line_whole() {
    let long = "x".repeat(50);
    let lines = vec![long.clone()];
    assert_eq!(chunk_messages(&lines, 10), vec![long]);
}

#[test]
fn chunk_messages_handles_no_lines() {
    assert_eq!(chunk_messages(&[], 2000), Vec::<String>::new());
}

#[test]
fn format_duration_formats_each_unit() {
    assert_eq!(format_duration(std::time::Duration::from_secs(5)), "5s");
    assert_eq!(format_duration(std::time::Duration::from_secs(65)), "1m 5s");
    assert_eq!(
        format_duration(std::time::Duration::from_secs(3661)),
        "1h 1m 1s"
    );
    assert_eq!(
        format_duration(std::time::Duration::from_secs(90061)),
        "1d 1h 1m 1s"
    );
}

#[test]
fn format_submitted_renders_the_unix_epoch() {
    assert_eq!(
        format_submitted(SubmittedAt(0)),
        "Thu, 01 Jan 1970 00:00:00 +0000"
    );
}
