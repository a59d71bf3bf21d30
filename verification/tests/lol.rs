use forebodere::lol::{is_laugh, Announcement, LolTracker, Tier, DEFAULT_QUIET_GAP};

/// One second, in the nanoseconds that the tracker counts in.
const SECOND: u64 = 1_000_000_000;

fn default_laugh_words() -> Vec<String> {
    ["lol", "lmao", "rofl"]
        .iter()
        .map(|s| s.to_string())
        .collect()
}

fn test_tracker() -> LolTracker {
    LolTracker::new(DEFAULT_QUIET_GAP, default_laugh_words())
}

fn uid(n: u64) -> u64 {
    n
}

fn cid(n: u64) -> u64 {
    n
}

fn mid(n: u64) -> u64 {
    n
}

/// The instant the tests start at.
fn start() -> u64 {
    1_000 * SECOND
}

#[test]
fn is_laugh_recognises_the_base_words_case_insensitively() {
    let words = default_laugh_words();
    for word in ["lol", "LOL", "LoL", "lmao", "rofl", "ROFL"] {
        assert!(is_laugh(word, &words), "{word} should be a laugh");
    }
}

#[test]
fn is_laugh_tolerates_surrounding_punctuation_and_whitespace() {
    let words = default_laugh_words();
    for word in [" lol", "lol ", "lol!", "lol...", "lol?!", "  rofl!  "] {
        assert!(is_laugh(word, &words), "{word:?} should be a laugh");
    }
}

#[test]
fn is_laugh_allows_repeated_roots() {
    let words = default_laugh_words();
    for word in ["lollol", "lmaolmao", "roflrofl"] {
        assert!(is_laugh(word, &words), "{word} should be a laugh");
    }
}

#[test]
fn is_repetition_handles_overlapping_cycles_like_lolol() {
    let words = vec!["lo".to_string()];
    for word in ["lol", "lolol", "lolololol"] {
        assert!(is_laugh(word, &words), "{word} should be a laugh");
    }
    assert!(!is_laugh("look", &words));
}

#[test]
fn is_laugh_respects_a_configured_word_list() {
    let words = vec!["kek".to_string()];
    assert!(is_laugh("kek", &words));
    assert!(!is_laugh("lol", &words));
}

#[test]
fn distinct_authors_build_a_streak() {
    let mut tracker = test_tracker();
    let now = start();
    let channel = cid(1);

    tracker.handle(channel, uid(1), "lol", now);
    tracker.handle(channel, uid(2), "lol", now);
    tracker.handle(channel, uid(3), "lol", now);

    // Not due yet: no quiet gap has elapsed.
    assert_eq!(tracker.due_announcements(now), vec![]);

    let after_gap = now + DEFAULT_QUIET_GAP;
    assert_eq!(
        tracker.due_announcements(after_gap),
        vec![Announcement {
            channel,
            tier: Tier::Low,
            previous_message_id: None,
        }]
    );
}

#[test]
fn same_author_repeating_is_frozen() {
    let mut tracker = test_tracker();
    let now = start();
    let channel = cid(1);

    tracker.handle(channel, uid(1), "lol", now);
    // Same author again, later: should not advance the streak, and
    // should not even bump the quiet-gap clock.
    tracker.handle(channel, uid(1), "lol", now + SECOND);
    tracker.handle(channel, uid(1), "lol", now + 2 * SECOND);

    // Still only frequency 1 - never reaches the tier-3 threshold.
    assert_eq!(tracker.due_announcements(now + 100 * SECOND), vec![]);
}

#[test]
fn non_laugh_message_resets_the_streak() {
    let mut tracker = test_tracker();
    let now = start();
    let channel = cid(1);

    tracker.handle(channel, uid(1), "lol", now);
    tracker.handle(channel, uid(2), "lol", now);
    tracker.handle(channel, uid(3), "lol", now);
    tracker.handle(channel, uid(4), "actually that's not funny", now);

    assert_eq!(tracker.due_announcements(now + DEFAULT_QUIET_GAP), vec![]);
}

#[test]
fn frequency_below_three_never_fires() {
    let mut tracker = test_tracker();
    let now = start();
    let channel = cid(1);

    tracker.handle(channel, uid(1), "lol", now);
    tracker.handle(channel, uid(2), "lol", now);

    assert_eq!(tracker.due_announcements(now + 1000 * SECOND), vec![]);
}

#[test]
fn escalation_reports_the_previous_message_for_deletion() {
    let mut tracker = test_tracker();
    let now = start();
    let channel = cid(1);

    tracker.handle(channel, uid(1), "lol", now);
    tracker.handle(channel, uid(2), "lol", now);
    tracker.handle(channel, uid(3), "lol", now);

    let after_first_gap = now + DEFAULT_QUIET_GAP;
    let due = tracker.due_announcements(after_first_gap);
    assert_eq!(
        due,
        vec![Announcement {
            channel,
            tier: Tier::Low,
            previous_message_id: None,
        }]
    );
    tracker.record_announcement(channel, Tier::Low, mid(101));

    let fourth_laugh_at = after_first_gap + SECOND;
    tracker.handle(channel, uid(4), "lol", fourth_laugh_at);

    let after_second_gap = fourth_laugh_at + DEFAULT_QUIET_GAP;
    assert_eq!(
        tracker.due_announcements(after_second_gap),
        vec![Announcement {
            channel,
            tier: Tier::Medium,
            previous_message_id: Some(mid(101)),
        }]
    );
}

#[test]
fn custom_quiet_gap_is_respected() {
    let mut tracker = LolTracker::new(60 * SECOND, default_laugh_words());
    let now = start();
    let channel = cid(1);

    tracker.handle(channel, uid(1), "lol", now);
    tracker.handle(channel, uid(2), "lol", now);
    tracker.handle(channel, uid(3), "lol", now);

    // The default 5s gap would fire here; a 60s configured gap should not.
    assert_eq!(tracker.due_announcements(now + DEFAULT_QUIET_GAP), vec![]);
    assert!(!tracker.due_announcements(now + 60 * SECOND).is_empty());
}

#[test]
fn channels_are_tracked_independently() {
    let mut tracker = test_tracker();
    let now = start();

    tracker.handle(cid(1), uid(1), "lol", now);
    tracker.handle(cid(1), uid(2), "lol", now);
    tracker.handle(cid(1), uid(3), "lol", now);

    tracker.handle(cid(2), uid(1), "lol", now);

    let due = tracker.due_announcements(now + DEFAULT_QUIET_GAP);
    assert_eq!(
        due,
        vec![Announcement {
            channel: cid(1),
            tier: Tier::Low,
            previous_message_id: None,
        }]
    );
}
