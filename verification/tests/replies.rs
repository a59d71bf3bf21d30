use forebodere::commands::{
    added_reply, chunk_messages, markov_source, MarkovSource, contains_text, format_duration, format_seconds, format_quote, format_quote_line,
    format_submitted, gen_instruction, gen_reply, invalid_id_reply, markov_reply,
    mentions_my_wife, order_range_reply, parse_quote_request, quote_reply, quoteall_replies,
    sanitize_quote, slap_text, status_report, submitted_text, trimmed_arg, QuoteRequest,
    EMPTY_GENERATION, INSUFFICIENT_CORPUS, NO_QUOTES_FOUND, NO_QUOTE_FOUND,
};
use forebodere::db::{Quote, QuoteId, SubmittedAt};
use forebodere::llm::{completions_url, first_choice_content, DEFAULT_INSTRUCTION};
use forebodere::markov_model::Order;
use forebodere::metrics::CommandDimension;
use std::time::Duration;

fn quote(id: i64, text: &str, submitter: Option<&str>, submitted: Option<i64>) -> Quote {
    Quote {
        id: QuoteId(id),
        quote: text.to_string(),
        submitter: submitter.map(|s| s.to_string()),
        submitted: submitted.map(SubmittedAt),
    }
}

#[test]
fn quote_ids_accept_signs_and_the_full_range() {
    assert_eq!(parse_quote_request(Some("id:-5")), QuoteRequest::ById(QuoteId(-5)));
    assert_eq!(parse_quote_request(Some("id:+7")), QuoteRequest::ById(QuoteId(7)));
    assert_eq!(
        parse_quote_request(Some("id:-9223372036854775808")),
        QuoteRequest::ById(QuoteId(i64::MIN))
    );
    assert_eq!(
        parse_quote_request(Some("id:9223372036854775807")),
        QuoteRequest::ById(QuoteId(i64::MAX))
    );
}

#[test]
fn quote_ids_out_of_range_or_malformed_are_invalid() {
    assert_eq!(
        parse_quote_request(Some("id:9223372036854775808")),
        QuoteRequest::InvalidId("9223372036854775808".to_string())
    );
    assert_eq!(
        parse_quote_request(Some("id:")),
        QuoteRequest::InvalidId(String::new())
    );
    assert_eq!(
        parse_quote_request(Some("id:-")),
        QuoteRequest::InvalidId("-".to_string())
    );
    assert_eq!(
        parse_quote_request(Some("  id:12abc ")),
        QuoteRequest::InvalidId("12abc".to_string())
    );
    assert_eq!(
        parse_quote_request(Some("id:1 2")),
        QuoteRequest::InvalidId("1 2".to_string())
    );
}

#[test]
fn the_id_prefix_is_case_sensitive() {
    assert_eq!(
        parse_quote_request(Some("ID:5")),
        QuoteRequest::Search("ID:5".to_string())
    );
    assert_eq!(
        parse_quote_request(Some("  the id: thing ")),
        QuoteRequest::Search("the id: thing".to_string())
    );
}

#[test]
fn sanitize_handles_edge_tokens() {
    assert_eq!(sanitize_quote("x<:*>y"), "x<:>y");
    assert_eq!(sanitize_quote("<:a*b"), "<:a*b");
    assert_eq!(sanitize_quote("*>*<:*"), "*>*<:*");
    assert_eq!(sanitize_quote("<*:a*>"), "<*:a*>");
    assert_eq!(sanitize_quote("<:a*> *b* <:c*"), "<:a> *b* <:c*");
}

#[test]
fn chunks_keep_the_text_and_fit_the_limit() {
    let lines: Vec<String> = ["aaa", "bb", "cccccccccccc", "d", "ee", "f"]
        .iter()
        .map(|s| s.to_string())
        .collect();
    let chunks = chunk_messages(&lines, 6);
    assert_eq!(chunks, vec!["aaa\nbb", "cccccccccccc", "d\nee\nf"]);
    assert_eq!(chunks.join("\n"), lines.join("\n"));
    for c in &chunks {
        assert!(c.len() <= 6 || lines.contains(c));
    }
}

#[test]
fn chunks_count_bytes_not_characters() {
    let lines = vec!["é".to_string(), "é".to_string()];
    // Two bytes each, plus the newline: five bytes.
    assert_eq!(chunk_messages(&lines, 4), vec!["é", "é"]);
    assert_eq!(chunk_messages(&lines, 5), vec!["é\né"]);
}

#[test]
fn durations_show_zero_units_below_the_largest() {
    assert_eq!(format_duration(Duration::from_secs(0)), "0s");
    assert_eq!(format_duration(Duration::from_secs(3600)), "1h 0m 0s");
    assert_eq!(format_duration(Duration::from_secs(86400)), "1d 0h 0m 0s");
    assert_eq!(format_duration(Duration::from_millis(59_999)), "59s");
}

#[test]
fn submission_times_outside_what_time_formats_are_shown_in_decimal() {
    assert_eq!(format_submitted(SubmittedAt(i64::MAX)), "9223372036854775807");
    assert_eq!(format_submitted(SubmittedAt(-3_000_000_000)), "-3000000000");
    assert_eq!(
        format_submitted(SubmittedAt(1_700_000_000)),
        "Tue, 14 Nov 2023 22:13:20 +0000"
    );
    assert_eq!(submitted_text(-4, None), "-4");
    assert_eq!(submitted_text(-4, Some("then".to_string())), "then");
}

#[test]
fn quotes_render_with_their_submission_note() {
    let q = quote(1, "hi <:**x**:2>", Some("mika"), Some(1_700_000_000));
    assert_eq!(format_quote_line(&q), "[1] hi <:x:2>");
    assert_eq!(
        format_quote(&q),
        "[1] hi <:x:2>\n\n*Submitted by mika on Tue, 14 Nov 2023 22:13:20 +0000*."
    );
    let anonymous = quote(-2, "old", None, Some(5));
    assert_eq!(format_quote(&anonymous), "[-2] old");
    let undated = quote(3, "new", Some("mika"), None);
    assert_eq!(format_quote(&undated), "[3] new");
    assert_eq!(quote_reply(Some(&undated)), "[3] new");
    assert_eq!(quote_reply(None), NO_QUOTE_FOUND);
}

#[test]
fn quoteall_replies_gather_lines_or_say_none_were_found() {
    assert_eq!(quoteall_replies(&[]), vec![NO_QUOTES_FOUND.to_string()]);
    let quotes = vec![quote(1, "a", None, None), quote(2, "b", None, None)];
    assert_eq!(quoteall_replies(&quotes), vec!["[1] a\n[2] b".to_string()]);
}

#[test]
fn replies_of_the_commands() {
    assert_eq!(added_reply(QuoteId(42)), "Added quote (id: 42)");
    assert_eq!(invalid_id_reply("abc"), "`abc` isn't a valid quote id.");
    assert_eq!(order_range_reply(), "Order must be between 1 and 5.");
    assert_eq!(markov_reply(None), INSUFFICIENT_CORPUS);
    assert_eq!(markov_reply(Some("a b".to_string())), "a b");
    assert_eq!(trimmed_arg(None), None);
    assert_eq!(trimmed_arg(Some(" \t ")), None);
    assert_eq!(trimmed_arg(Some("  a b ")), Some("a b".to_string()));
}

#[test]
fn status_report_lists_every_field() {
    assert_eq!(
        status_report(3, 7, Duration::from_secs(65), 12, "0.1.0", "linux", "x86_64"),
        "Bot Status:\n```\nQuotes    :: 3\nQueries   :: 7\nUptime    :: 1m 5s\nLatency   :: 12ms\nVersion   :: 0.1.0\n```\nSystem Status:\n```\nOS        :: linux\nArch      :: x86_64\n```"
    );
}

#[test]
fn slap_falls_back_to_the_author() {
    assert_eq!(
        slap_text(None, "mika", "bot"),
        "*bot slaps mika around a bit with a large trout*"
    );
    assert_eq!(
        slap_text(Some("   "), "mika", "bot"),
        "*bot slaps mika around a bit with a large trout*"
    );
    assert_eq!(
        slap_text(Some(" bob "), "mika", "bot"),
        "*bot slaps bob around a bit with a large trout*"
    );
}

#[test]
fn gen_instruction_and_reply() {
    assert_eq!(gen_instruction(None), DEFAULT_INSTRUCTION);
    assert_eq!(gen_instruction(Some("  ")), DEFAULT_INSTRUCTION);
    assert_eq!(gen_instruction(Some(" write a haiku ")), "write a haiku");
    assert_eq!(gen_reply(Ok("text".to_string())), "text");
    assert_eq!(gen_reply(Ok(String::new())), EMPTY_GENERATION);
    assert_eq!(gen_reply(Err("timeout".to_string())), "Generation failed: timeout");
}

#[test]
fn mentions_are_found_in_any_case() {
    assert!(mentions_my_wife("well, MY WIFE says"));
    assert!(mentions_my_wife("My Wife"));
    assert!(!mentions_my_wife("mywife"));
    assert!(!mentions_my_wife("my wif"));
}

#[test]
fn ids_and_dimensions_render_as_text() {
    assert_eq!(QuoteId(-3).to_string(), "-3");
    assert_eq!(QuoteId(2932).to_string(), "2932");
    let names = [
        (CommandDimension::Quote, "quote"),
        (CommandDimension::QuoteAll, "quoteall"),
        (CommandDimension::GenQuote, "gen"),
        (CommandDimension::AddQuote, "addquote"),
        (CommandDimension::MarkovQuote, "markov"),
        (CommandDimension::Status, "status"),
        (CommandDimension::Slap, "slap"),
        (CommandDimension::Help, "help"),
    ];
    for (dimension, name) in names {
        assert_eq!(dimension.to_string(), name);
    }
}

#[test]
fn language_model_address_and_answer() {
    assert_eq!(
        completions_url("http://localhost:8080//"),
        "http://localhost:8080/v1/chat/completions"
    );
    assert_eq!(completions_url("http://h"), "http://h/v1/chat/completions");
    assert_eq!(first_choice_content(&[]), "");
    assert_eq!(
        first_choice_content(&["  hello \n".to_string(), "other".to_string()]),
        "hello"
    );
}

#[test]
fn seconds_are_shown_from_the_largest_unit() {
    assert_eq!(format_seconds(0), "0s");
    assert_eq!(format_seconds(3600), "1h 0m 0s");
    assert_eq!(format_seconds(86400 * 3 + 59), "3d 0h 0m 59s");
}

#[test]
fn text_search_finds_a_phrase_anywhere() {
    assert!(contains_text("so my wife said", "my wife"));
    assert!(contains_text("abc", ""));
    assert!(!contains_text("my wif", "my wife"));
    assert!(!contains_text("My Wife", "my wife"));
}

#[test]
fn markov_chooses_its_model_by_the_order() {
    assert_eq!(markov_source(None), MarkovSource::Shared);
    assert_eq!(markov_source(Some(3)), MarkovSource::Fresh(Order::new(3).unwrap()));
    assert_eq!(markov_source(Some(0)), MarkovSource::OutOfRange);
    assert_eq!(markov_source(Some(6)), MarkovSource::OutOfRange);
}

#[test]
fn submission_dates_follow_the_calendar() {
    let shown = |ts: i64| format_submitted(SubmittedAt(ts));
    assert_eq!(shown(951782400), "Tue, 29 Feb 2000 00:00:00 +0000");
    assert_eq!(shown(-2208988800), "Mon, 01 Jan 1900 00:00:00 +0000");
    assert_eq!(shown(-2208988801), "-2208988801");
    assert_eq!(shown(253402300799), "Fri, 31 Dec 9999 23:59:59 +0000");
    assert_eq!(shown(253402300800), "253402300800");
    assert_eq!(shown(1700000000), "Tue, 14 Nov 2023 22:13:20 +0000");
}
