use forebodere::commands::{parse_quote_request, sanitize_quote, QuoteRequest};
use forebodere::db::{match_expression, Query, QuoteId};
use forebodere::lol::{
    is_laugh, is_laugh_defined, normalize, scan_laugh, try_is_laugh, LolTracker, Tier, DEFAULT_QUIET_GAP,
};
use forebodere::markov_model::{sentence_from_tokens, tokenize, MarkovModel, Order};

const SECOND: u64 = 1_000_000_000;

fn words(ws: &[&str]) -> Vec<String> {
    ws.iter().map(|s| s.to_string()).collect()
}

#[test]
fn phrases_and_terms_are_quoted_literals() {
    assert_eq!(
        Query::parse("  \"a b\"  "),
        Some(Query::Phrase("a b".to_string()))
    );
    assert_eq!(
        Query::parse("\""),
        Some(Query::Terms(vec!["\"".to_string()]))
    );
    assert_eq!(Query::parse("\"").unwrap().to_match_expr(), "\"\"\"\"");
    assert_eq!(
        Query::parse("a\tb\n c"),
        Some(Query::Terms(words(&["a", "b", "c"])))
    );
    assert_eq!(match_expression("  "), None);
    assert_eq!(
        match_expression("NEAR \"x"),
        Some("\"NEAR\" \"\"\"x\"".to_string())
    );
}

#[test]
fn laugh_words_are_matched_on_letters_and_digits_only() {
    assert_eq!(normalize("L-O-L!"), "lol");
    assert_eq!(normalize("ÀB 1"), "àb1");
    let ws = words(&["lol"]);
    assert!(is_laugh("l o l", &ws));
    assert!(!is_laugh("", &ws));
    assert!(!is_laugh("!!!", &ws));
    assert!(!is_laugh("lo", &ws));
}

#[test]
fn an_empty_laugh_word_cannot_answer_for_text() {
    let ws = words(&["", "lol"]);
    assert!(!is_laugh_defined("lol", &ws));
    assert!(is_laugh_defined("", &ws));
    let after = words(&["lol", ""]);
    assert!(is_laugh_defined("lol", &after));
    assert!(is_laugh("lol", &after));
    let tracker = LolTracker::new(DEFAULT_QUIET_GAP, ws);
    assert!(!tracker.can_handle(1, 1, "lol"));
    assert!(tracker.can_handle(1, 1, "?"));
}

#[test]
fn tiers_follow_the_streak_length() {
    assert_eq!(Tier::from_frequency(0), None);
    assert_eq!(Tier::from_frequency(2), None);
    assert_eq!(Tier::from_frequency(3), Some(Tier::Low));
    assert_eq!(Tier::from_frequency(4), Some(Tier::Medium));
    assert_eq!(Tier::from_frequency(5), Some(Tier::High));
    assert_eq!(Tier::from_frequency(u32::MAX), Some(Tier::High));
}

#[test]
fn an_announced_tier_is_not_announced_again() {
    let mut tracker = LolTracker::new(DEFAULT_QUIET_GAP, words(&["lol"]));
    let now = 10 * SECOND;
    for author in 1..=3 {
        tracker.handle(7, author, "lol", now);
    }
    let later = now + DEFAULT_QUIET_GAP;
    assert_eq!(tracker.due_announcements(later).len(), 1);
    tracker.record_announcement(7, Tier::Low, 99);
    assert!(tracker.due_announcements(later + 100 * SECOND).is_empty());
    // Five laughers reach the high tier, which is due once more.
    tracker.handle(7, 4, "lol", later);
    tracker.handle(7, 5, "lol", later);
    let due = tracker.due_announcements(later + DEFAULT_QUIET_GAP);
    assert_eq!(due.len(), 1);
    assert_eq!(due[0].tier, Tier::High);
    assert_eq!(due[0].previous_message_id, Some(99));
}

#[test]
fn quiet_gap_runs_from_the_latest_counted_laugh() {
    let mut tracker = LolTracker::new(DEFAULT_QUIET_GAP, words(&["lol"]));
    let now = 10 * SECOND;
    tracker.handle(1, 1, "lol", now);
    tracker.handle(1, 2, "lol", now);
    tracker.handle(1, 3, "lol", now + 3 * SECOND);
    assert!(tracker.due_announcements(now + DEFAULT_QUIET_GAP).is_empty());
    assert_eq!(
        tracker.due_announcements(now + 3 * SECOND + DEFAULT_QUIET_GAP).len(),
        1
    );
    // An instant before the latest laugh is never due.
    assert!(tracker.due_announcements(now).is_empty());
}

#[test]
fn recording_for_an_unknown_channel_changes_nothing() {
    let mut tracker = LolTracker::new(DEFAULT_QUIET_GAP, words(&["lol"]));
    tracker.record_announcement(5, Tier::High, 1);
    assert!(tracker.due_announcements(100 * SECOND).is_empty());
    for author in 1..=3 {
        tracker.handle(5, author, "lol", SECOND);
    }
    assert_eq!(tracker.due_announcements(100 * SECOND).len(), 1);
}

#[test]
fn a_reset_streak_forgets_its_announcement() {
    let mut tracker = LolTracker::new(DEFAULT_QUIET_GAP, words(&["lol"]));
    for author in 1..=3 {
        tracker.handle(2, author, "lol", SECOND);
    }
    tracker.record_announcement(2, Tier::Low, 11);
    tracker.handle(2, 9, "not funny", 2 * SECOND);
    for author in 1..=3 {
        tracker.handle(2, author, "lol", 3 * SECOND);
    }
    let due = tracker.due_announcements(3 * SECOND + DEFAULT_QUIET_GAP);
    assert_eq!(due.len(), 1);
    assert_eq!(due[0].tier, Tier::Low);
    assert_eq!(due[0].previous_message_id, None);
}

#[test]
fn tokens_drop_forbidden_characters_and_whitespace() {
    assert_eq!(tokenize("a (b) [c] 'd' \"e\""), words(&["a", "b", "c", "d", "e"]));
    assert_eq!(tokenize("  ()  [] "), Vec::<String>::new());
    assert_eq!(tokenize("it's"), words(&["its"]));
}

#[test]
fn sentences_join_tokens_with_spaces() {
    assert_eq!(sentence_from_tokens(&[]), None);
    assert_eq!(
        sentence_from_tokens(&words(&["a", "b"])),
        Some("a b".to_string())
    );
}

#[test]
fn generated_words_come_from_the_corpus() {
    let model = MarkovModel::build(Order::default(), &["a b a c", "c b", "()"]);
    for _ in 0..20 {
        let sentence = model.generate().unwrap();
        for word in sentence.split(' ') {
            assert!(["a", "b", "c"].contains(&word), "{word} was never fed");
        }
    }
    assert_eq!(Order::default(), Order::new(2).unwrap());
}

#[test]
fn a_corpus_without_words_generates_nothing() {
    let empty = MarkovModel::build(Order::default(), &["()", "  ", "[\"']"]);
    assert_eq!(empty.generate(), None);
    let one_word = MarkovModel::build(Order::default(), &["()", "(a)"]);
    assert_eq!(one_word.generate(), Some("a".to_string()));
}

#[test]
fn a_quote_with_distinct_words_is_its_only_walk() {
    for raw_order in 1..=5 {
        let model = MarkovModel::build(Order::new(raw_order).unwrap(), &["(one) two \"three\""]);
        for _ in 0..10 {
            assert_eq!(model.generate(), Some("one two three".to_string()));
        }
    }
}

#[test]
fn shown_ids_can_be_asked_for_again() {
    for n in [0, 7, -7, 2932, i64::MIN, i64::MAX] {
        let shown = QuoteId(n).to_string();
        assert_eq!(
            parse_quote_request(Some(&format!("id:{shown}"))),
            QuoteRequest::ById(QuoteId(n))
        );
    }
}

#[test]
fn sanitizing_only_removes_asterisks() {
    for s in ["<:**a**:1> *b* <:c*> <:d*", "plain *text*", "><:*>*<:>", ""] {
        let clean = sanitize_quote(s);
        assert_eq!(clean.replace('*', ""), s.replace('*', ""));
    }
}

#[test]
fn match_expressions_read_back_as_the_query() {
    // The expression is literals separated by single spaces; reading each
    // literal (a doubled quote stands for one) gives back the words.
    fn read(expr: &str) -> Vec<String> {
        let chars: Vec<char> = expr.chars().collect();
        let mut out = Vec::new();
        let mut i = 0;
        while i < chars.len() {
            assert_eq!(chars[i], '"');
            i += 1;
            let mut text = String::new();
            loop {
                if chars[i] == '"' {
                    if i + 1 < chars.len() && chars[i + 1] == '"' {
                        text.push('"');
                        i += 2;
                    } else {
                        i += 1;
                        break;
                    }
                } else {
                    text.push(chars[i]);
                    i += 1;
                }
            }
            out.push(text);
            if i < chars.len() {
                assert_eq!(chars[i], ' ');
                i += 1;
            }
        }
        out
    }
    assert_eq!(
        read(&match_expression("say \"hi\" NEAR(x) *").unwrap()),
        words(&["say", "\"hi\"", "NEAR(x)", "*"])
    );
    assert_eq!(read(&match_expression("\"a \"\" b\"").unwrap()), words(&["a \"\" b"]));
}

#[test]
fn trying_reports_what_cannot_be_told() {
    let ws = words(&["", "lol"]);
    assert_eq!(try_is_laugh("lol", &ws), None);
    assert_eq!(try_is_laugh("", &ws), Some(false));
    assert_eq!(try_is_laugh("lol", &words(&["lol"])), Some(true));
    let mut tracker = LolTracker::new(DEFAULT_QUIET_GAP, ws);
    assert!(!tracker.try_handle(1, 1, "lol", SECOND));
    assert!(tracker.try_handle(1, 1, "...", SECOND));
    let mut good = LolTracker::new(DEFAULT_QUIET_GAP, words(&["lol"]));
    for author in 1..=3 {
        assert!(good.try_handle(4, author, "lol", SECOND));
    }
    assert_eq!(good.due_announcements(SECOND + DEFAULT_QUIET_GAP).len(), 1);
}

#[test]
fn the_scan_takes_normalized_text() {
    let words: Vec<String> = vec!["lol".to_string(), "".to_string()];
    assert_eq!(scan_laugh("lollol", &words), Some(true));
    assert_eq!(scan_laugh("lolol", &words[..1]), Some(false));
    assert_eq!(scan_laugh("", &words), Some(false));
    assert_eq!(scan_laugh("haha", &words), None);
    assert_eq!(scan_laugh("LOL", &words[..1]), Some(false));
}

#[test]
fn sanitizing_twice_is_sanitizing_once() {
    for s in ["<:**a**:1> *b* <:c*> <:d*", "<:<:**x>**>", "*<:*>*", "plain", ""] {
        let once = sanitize_quote(s);
        assert_eq!(sanitize_quote(&once), once);
    }
}

#[test]
fn feeding_a_quote_again_keeps_what_can_be_generated() {
    let mut model = MarkovModel::build(Order::new(1).unwrap(), &["alpha beta"]);
    model.feed("alpha beta");
    for _ in 0..10 {
        assert_eq!(model.generate(), Some("alpha beta".to_string()));
    }
}

#[test]
fn laughs_ignore_ascii_case() {
    let words: Vec<String> = vec!["lol".to_string(), "rofl".to_string()];
    for s in ["LOL", "LoL!", "ROFLrofl", "lOlOl"] {
        assert_eq!(is_laugh(s, &words), is_laugh(&s.to_ascii_lowercase(), &words));
    }
    assert!(is_laugh("LOL", &words));
    assert!(!is_laugh("LOOK", &words));
}
