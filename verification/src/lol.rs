//! Laugh tracking: recognising laughs, counting streaks of distinct
//! laughers per channel, and deciding when a streak is announced.
//!
//! Identifiers of channels, users and messages are their integer values;
//! instants are nanoseconds on a clock chosen by the caller.
use dashmap::DashMap;
use vstd::prelude::*;

use crate::text::{chars_of, push_char, views};
use crate::unicode::{
    all_ascii, ascii_alphanumeric, ascii_lower, char_is_alphanumeric, char_lowercase,
    is_alphanumeric, lowercase,
};

verus! {

/// The quiet gap that a streak must be left alone for before it is
/// announced: five seconds, in nanoseconds.
pub const DEFAULT_QUIET_GAP: u64 = 5_000_000_000;

// ----------------------------------------------------------------------
// Recognising a laugh
// ----------------------------------------------------------------------

/// The letters and digits of `s`, lowercased.
pub open spec fn normalized(s: Seq<char>) -> Seq<char>
    decreases s.len(),
{
    if s.len() == 0 {
        seq![]
    } else if char_is_alphanumeric(s.last()) {
        normalized(s.drop_last()) + char_lowercase(s.last())
    } else {
        normalized(s.drop_last())
    }
}

/// The ASCII letters and digits of `s`, lowercased: what `normalized` is
/// on ASCII text.
pub open spec fn ascii_normalized(s: Seq<char>) -> Seq<char>
    decreases s.len(),
{
    if s.len() == 0 {
        seq![]
    } else if ascii_alphanumeric(s.last()) {
        ascii_normalized(s.drop_last()).push(ascii_lower(s.last()))
    } else {
        ascii_normalized(s.drop_last())
    }
}

/// The scan of ASCII `content` against `words`, in terms of its ASCII
/// letters and digits.
pub open spec fn ascii_laugh_of(content: Seq<char>, words: Seq<Seq<char>>) -> Option<bool> {
    laugh_scan(bytes(ascii_normalized(content)), words)
}

/// The UTF-8 bytes of `s`.
pub open spec fn bytes(s: Seq<char>) -> Seq<u8> {
    vstd::utf8::encode_utf8(s)
}

/// `n` is non-empty and consists of `root` repeated, possibly cut off
/// part-way through the last repetition (so `lolol` repeats `lo`).
pub open spec fn repeats(n: Seq<u8>, root: Seq<u8>) -> bool {
    &&& root.len() > 0
    &&& n.len() > 0
    &&& n.len() >= root.len()
    &&& forall|i: int| 0 <= i < n.len() ==> #[trigger] n[i] == root[i % (root.len() as int)]
}

/// Tries the laugh words in order against the normalized bytes `n`: the
/// answer of the first word that matches, `Some(false)` if none does, and
/// `None` where the scan reaches an empty word while `n` is non-empty (the
/// byte index would be taken modulo zero).
pub open spec fn laugh_scan(n: Seq<u8>, words: Seq<Seq<char>>) -> Option<bool>
    decreases words.len(),
{
    if words.len() == 0 {
        Some(false)
    } else if bytes(words[0]).len() == 0 && n.len() > 0 {
        None
    } else if repeats(n, bytes(words[0])) {
        Some(true)
    } else {
        laugh_scan(n, words.drop_first())
    }
}

/// The scan of `content` against `words`.
pub open spec fn laugh_of(content: Seq<char>, words: Seq<Seq<char>>) -> Option<bool> {
    laugh_scan(bytes(normalized(content)), words)
}

/// The letters and digits of `content`, lowercased.
pub fn normalize(content: &str) -> (r: String)
    ensures
        r@ == normalized(content@),
        all_ascii(content@) ==> r@ == ascii_normalized(content@),
{
    let chars = chars_of(content);
    let mut r = String::new();
    let mut i: usize = 0;
    while i < chars.len()
        invariant
            0 <= i <= chars@.len(),
            chars@ == content@,
            r@ == normalized(chars@.take(i as int)),
            all_ascii(content@) ==> r@ == ascii_normalized(chars@.take(i as int)),
        decreases chars@.len() - i,
    {
        let c = chars[i];
        let ghost prefix = chars@.take(i as int);
        proof {
            assert(chars@.take(i + 1).drop_last() =~= prefix);
            assert(chars@.take(i + 1).last() == c);
        }
        proof {
            if all_ascii(content@) {
                assert(crate::unicode::is_ascii_char(chars@[i as int]));
            }
        }
        let ghost before = r@;
        if is_alphanumeric(c) {
            let low = lowercase(c);
            let mut k: usize = 0;
            while k < low.len()
                invariant
                    0 <= k <= low@.len(),
                    low@ == char_lowercase(c),
                    r@ == normalized(prefix) + low@.take(k as int),
                decreases low@.len() - k,
            {
                push_char(&mut r, low[k]);
                proof {
                    assert(low@.take(k + 1) =~= low@.take(k as int).push(low@[k as int]));
                }
                k = k + 1;
            }
            proof {
                assert(low@.take(k as int) =~= low@);
                if all_ascii(content@) {
                    assert(r@ =~= before.push(ascii_lower(c)));
                }
            }
        }
        i = i + 1;
    }
    proof {
        assert(chars@.take(i as int) =~= chars@);
    }
    r
}

/// Whether `normalized` is `root` repeated.
pub fn is_repetition(normalized: &str, root: &str) -> (b: bool)
    requires
        root@.len() > 0 || normalized@.len() == 0,
    ensures
        b == repeats(bytes(normalized@), bytes(root@)),
{
    let nb = normalized.as_bytes();
    let rb = root.as_bytes();
    if nb.len() == 0 {
        return false;
    }
    proof {
        if rb@.len() == 0 {
            assert(root@.len() > 0);
            assert(bytes(root@) =~= vstd::utf8::encode_scalar(root@[0] as u32) + bytes(
                root@.drop_first(),
            ));
        }
    }
    if nb.len() < rb.len() {
        return false;
    }
    let mut i: usize = 0;
    while i < nb.len()
        invariant
            0 <= i <= nb@.len(),
            rb@.len() > 0,
            nb@ == bytes(normalized@),
            rb@ == bytes(root@),
            forall|j: int| 0 <= j < i ==> #[trigger] nb@[j] == rb@[j % (rb@.len() as int)],
        decreases nb@.len() - i,
    {
        if nb[i] != rb[i % rb.len()] {
            return false;
        }
        i = i + 1;
    }
    true
}

/// The scan of the normalized text `n` against `words`.
pub fn scan_laugh(n: &str, words: &[String]) -> (r: Option<bool>)
    ensures
        r == laugh_scan(bytes(n@), views(words@)),
{
    let ghost nb = bytes(n@);
    let mut i: usize = 0;
    proof {
        assert(views(words@).skip(0) =~= views(words@));
    }
    while i < words.len()
        invariant
            0 <= i <= words@.len(),
            laugh_scan(nb, views(words@)) == laugh_scan(nb, views(words@).skip(i as int)),
            nb == bytes(n@),
        decreases words@.len() - i,
    {
        let ghost rest = views(words@).skip(i as int);
        proof {
            assert(rest[0] == words@[i as int]@);
            assert(rest.drop_first() =~= views(words@).skip(i + 1));
        }
        let root = words[i].as_str();
        if root.is_empty() && !n.is_empty() {
            proof {
                assert(bytes(rest[0]) =~= seq![]);
            }
            return None;
        }
        proof {
            if rest[0].len() > 0 {
                assert(bytes(rest[0]) =~= vstd::utf8::encode_scalar(rest[0][0] as u32) + bytes(
                    rest[0].drop_first(),
                ));
            } else {
                assert(bytes(rest[0]) =~= seq![]);
            }
        }
        if is_repetition(n, root) {
            return Some(true);
        }
        i = i + 1;
    }
    proof {
        assert(views(words@).skip(i as int) =~= seq![]);
    }
    Some(false)
}

/// Whether `content` is a laugh: its letters and digits, lowercased, are
/// one of `laugh_words` repeated.
pub fn is_laugh(content: &str, laugh_words: &[String]) -> (b: bool)
    requires
        laugh_of(content@, views(laugh_words@)) is Some,
    ensures
        laugh_of(content@, views(laugh_words@)) == Some(b),
        all_ascii(content@) ==> laugh_of(content@, views(laugh_words@)) == ascii_laugh_of(
            content@,
            views(laugh_words@),
        ),
{
    let normalized = normalize(content);
    match scan_laugh(normalized.as_str(), laugh_words) {
        Some(b) => b,
        None => false,
    }
}

/// Whether `is_laugh` can answer for `content` and `laugh_words`: it cannot
/// where it reaches an empty laugh word while the normalized text is not
/// empty.
pub fn is_laugh_defined(content: &str, laugh_words: &[String]) -> (b: bool)
    ensures
        b == (laugh_of(content@, views(laugh_words@)) is Some),
        all_ascii(content@) ==> laugh_of(content@, views(laugh_words@)) == ascii_laugh_of(
            content@,
            views(laugh_words@),
        ),
{
    let normalized = normalize(content);
    scan_laugh(normalized.as_str(), laugh_words).is_some()
}

/// Whether `content` is a laugh, where that can be told: `None` where
/// `is_laugh` could not answer (an empty laugh word is reached while the
/// normalized text is not empty).
pub fn try_is_laugh(content: &str, laugh_words: &[String]) -> (r: Option<bool>)
    ensures
        r == laugh_of(content@, views(laugh_words@)),
        all_ascii(content@) ==> r == ascii_laugh_of(content@, views(laugh_words@)),
{
    if is_laugh_defined(content, laugh_words) {
        Some(is_laugh(content, laugh_words))
    } else {
        None
    }
}

/// Where the scan answers, it answers whether some laugh word repeats.
pub proof fn law_laugh_is_some_word_repeating(n: Seq<u8>, words: Seq<Seq<char>>)
    requires
        laugh_scan(n, words) is Some,
    ensures
        laugh_scan(n, words) == Some(
            exists|i: int| 0 <= i < words.len() && #[trigger] repeats(n, bytes(words[i])),
        ),
    decreases words.len(),
{
    if words.len() > 0 {
        if bytes(words[0]).len() == 0 && n.len() > 0 {
        } else if repeats(n, bytes(words[0])) {
        } else {
            law_laugh_is_some_word_repeating(n, words.drop_first());
            if exists|i: int| 0 <= i < words.len() && #[trigger] repeats(n, bytes(words[i])) {
                let i = choose|i: int| 0 <= i < words.len() && #[trigger] repeats(n, bytes(words[i]));
                assert(words.drop_first()[i - 1] == words[i]);
            }
            if exists|i: int|
                0 <= i < words.drop_first().len() && #[trigger] repeats(
                    n,
                    bytes(words.drop_first()[i]),
                ) {
                let i = choose|i: int|
                    0 <= i < words.drop_first().len() && #[trigger] repeats(
                        n,
                        bytes(words.drop_first()[i]),
                    );
                assert(words[i + 1] == words.drop_first()[i]);
            }
        }
    }
}

/// A text repeats a laugh word exactly when it begins with the whole word
/// and every later byte, the last one included, equals the byte one word
/// length before it.
pub proof fn law_repeats_is_periodic(n: Seq<u8>, root: Seq<u8>)
    ensures
        repeats(n, root) <==> (root.len() > 0 && n.len() >= root.len() && n.take(root.len() as int)
            == root && forall|i: int|
            root.len() <= i < n.len() ==> #[trigger] n[i] == n[i - root.len()]),
{
    let r = root.len() as int;
    if repeats(n, root) {
        assert forall|i: int| 0 <= i < r implies #[trigger] n.take(r)[i] == root[i] by {
            vstd::arithmetic::div_mod::lemma_small_mod(i as nat, r as nat);
            assert(n[i] == root[i % r]);
        }
        assert(n.take(r) =~= root);
        assert forall|i: int| r <= i < n.len() implies #[trigger] n[i] == n[i - r] by {
            vstd::arithmetic::div_mod::lemma_mod_add_multiples_vanish(i - r, r);
            assert(n[i] == root[i % r]);
            assert(n[i - r] == root[(i - r) % r]);
        }
    }
    if root.len() > 0 && n.len() >= root.len() && n.take(r) == root && forall|i: int|
        r <= i < n.len() ==> #[trigger] n[i] == n[i - r] {
        assert forall|i: int| 0 <= i < n.len() implies #[trigger] n[i] == root[i % r] by {
            lemma_periodic_byte(n, root, i);
        }
    }
}

proof fn lemma_periodic_byte(n: Seq<u8>, root: Seq<u8>, i: int)
    requires
        root.len() > 0,
        n.len() >= root.len(),
        n.take(root.len() as int) == root,
        forall|k: int| root.len() <= k < n.len() ==> #[trigger] n[k] == n[k - root.len()],
        0 <= i < n.len(),
    ensures
        n[i] == root[i % (root.len() as int)],
    decreases i,
{
    let r = root.len() as int;
    if i < r {
        vstd::arithmetic::div_mod::lemma_small_mod(i as nat, r as nat);
        assert(n.take(r)[i] == n[i]);
    } else {
        lemma_periodic_byte(n, root, i - r);
        vstd::arithmetic::div_mod::lemma_mod_add_multiples_vanish(i - r, r);
        assert(n[i] == n[i - r]);
    }
}

/// After a message that is not a laugh the channel forgets its latest
/// laugher: the next laugh, by anyone, the previous laugher included,
/// starts a streak of one.
pub proof fn law_non_laugh_forgets_laugher(
    states: Map<u64, ChannelState>,
    channel: u64,
    a: u64,
    b: u64,
    now: u64,
    later: u64,
)
    ensures
        handled(states, channel, a, false, now)[channel].last_author is None,
        handled(handled(states, channel, a, false, now), channel, b, true, later)[channel].frequency
            == 1,
        handled(handled(states, channel, a, false, now), channel, b, true, later)[channel].last_author
            == Some(b),
        handled(handled(states, channel, a, false, now), channel, b, true, later)[channel].last_laugh_at
            == Some(later),
{
}

/// The tiers rise strictly, Low below Medium below High, so a streak that
/// grows past the tier announced for it has the higher tier fall due once
/// the quiet gap has passed.
pub proof fn law_tiers_rise(s: ChannelState, at: u64, now: u64, gap: u64)
    ensures
        rank(Tier::Low) < rank(Tier::Medium),
        rank(Tier::Medium) < rank(Tier::High),
        (s.announced_tier == Some(Tier::Medium) && s.frequency >= 5 && s.last_laugh_at == Some(at)
            && at <= now && now - at >= gap) ==> due_tier(s, now, gap) == Some(Tier::High),
        (s.announced_tier == Some(Tier::Low) && s.frequency == 4 && s.last_laugh_at == Some(at)
            && at <= now && now - at >= gap) ==> due_tier(s, now, gap) == Some(Tier::Medium),
{
}

/// Case does not matter to a laugh: ASCII text and the same text in small
/// letters have the same letters and digits once normalized, so the laugh
/// test answers the same for both.
pub proof fn law_laughs_ignore_case(s: Seq<char>, words: Seq<Seq<char>>)
    ensures
        ascii_normalized(crate::unicode::ascii_lowercase(s)) == ascii_normalized(s),
        ascii_laugh_of(crate::unicode::ascii_lowercase(s), words) == ascii_laugh_of(s, words),
    decreases s.len(),
{
    let l = crate::unicode::ascii_lowercase(s);
    if s.len() > 0 {
        law_laughs_ignore_case(s.drop_last(), words);
        assert(l.drop_last() =~= crate::unicode::ascii_lowercase(s.drop_last()));
        let c = s.last();
        assert(l.last() == ascii_lower(c));
        assert(ascii_alphanumeric(ascii_lower(c)) == ascii_alphanumeric(c));
        assert(ascii_lower(ascii_lower(c)) == ascii_lower(c));
    }
}

// ----------------------------------------------------------------------
// Tiers
// ----------------------------------------------------------------------

/// How big a laugh streak is.
#[derive(Debug, Clone, Copy, PartialEq, Eq, PartialOrd, Ord)]
pub enum Tier {
    Low,
    Medium,
    High,
}

/// The position of a tier in the order `Low < Medium < High`.
pub open spec fn rank(t: Tier) -> nat {
    match t {
        Tier::Low => 0,
        Tier::Medium => 1,
        Tier::High => 2,
    }
}

/// The tier of a streak of `frequency` distinct laughs: none below three.
pub open spec fn tier_for(frequency: u32) -> Option<Tier> {
    if frequency <= 2 {
        None
    } else if frequency == 3 {
        Some(Tier::Low)
    } else if frequency == 4 {
        Some(Tier::Medium)
    } else {
        Some(Tier::High)
    }
}

impl Tier {
    /// The tier of a streak of `frequency` distinct laughs.
    pub fn from_frequency(frequency: u32) -> (r: Option<Tier>)
        ensures
            r == tier_for(frequency),
    {
        if frequency <= 2 {
            None
        } else if frequency == 3 {
            Some(Tier::Low)
        } else if frequency == 4 {
            Some(Tier::Medium)
        } else {
            Some(Tier::High)
        }
    }

    fn rank_of(&self) -> (r: u8)
        ensures
            r == rank(*self),
    {
        match self {
            Tier::Low => 0,
            Tier::Medium => 1,
            Tier::High => 2,
        }
    }
}

/// A longer streak never has a lower tier.
pub proof fn law_tier_monotone(f: u32, g: u32)
    requires
        f <= g,
        tier_for(f) is Some,
    ensures
        tier_for(g) is Some,
        rank(tier_for(f)->0) <= rank(tier_for(g)->0),
{
}

// ----------------------------------------------------------------------
// Channel state
// ----------------------------------------------------------------------

/// What is known of one channel's laugh streak.
#[derive(Debug, Clone, Copy, PartialEq, Eq)]
pub struct ChannelState {
    /// The number of distinct-author laughs in the streak.
    pub frequency: u32,
    /// The author of the latest laugh of the streak.
    pub last_author: Option<u64>,
    /// When the latest counted laugh came.
    pub last_laugh_at: Option<u64>,
    /// The tier last announced for this streak.
    pub announced_tier: Option<Tier>,
    /// The message that announced it.
    pub announcement_message_id: Option<u64>,
}

/// The state of a channel that has seen nothing.
pub open spec fn fresh_state() -> ChannelState {
    ChannelState {
        frequency: 0,
        last_author: None,
        last_laugh_at: None,
        announced_tier: None,
        announcement_message_id: None,
    }
}

/// The state of `channel` in `states`, or a fresh one.
pub open spec fn state_or_fresh(states: Map<u64, ChannelState>, channel: u64) -> ChannelState {
    if states.contains_key(channel) {
        states[channel]
    } else {
        fresh_state()
    }
}

/// The state after a message by `author` at `now`: a laugh by someone other
/// than the latest laugher extends the streak and restarts the quiet gap; a
/// laugh by the latest laugher changes nothing; anything else ends the
/// streak and forgets what was announced.
pub open spec fn after_message(s: ChannelState, author: u64, laugh: bool, now: u64) -> ChannelState {
    if laugh {
        if s.last_author != Some(author) {
            ChannelState {
                frequency: (s.frequency + 1) as u32,
                last_author: Some(author),
                last_laugh_at: Some(now),
                ..s
            }
        } else {
            s
        }
    } else {
        ChannelState {
            frequency: 0,
            last_author: None,
            announced_tier: None,
            announcement_message_id: None,
            ..s
        }
    }
}

/// The tier due for announcement at `now`, if any: the streak has a tier,
/// its latest laugh is at least `gap` old, and no tier as high has been
/// announced for it.
pub open spec fn due_tier(s: ChannelState, now: u64, gap: u64) -> Option<Tier> {
    match tier_for(s.frequency) {
        None => None,
        Some(t) => match s.last_laugh_at {
            None => None,
            Some(at) => {
                if now < at || now - at < gap {
                    None
                } else if s.announced_tier is Some && rank(s.announced_tier->0) >= rank(t) {
                    None
                } else {
                    Some(t)
                }
            },
        },
    }
}

/// The state after the announcement of `tier` by message `message_id`.
pub open spec fn after_record(s: ChannelState, tier: Tier, message_id: u64) -> ChannelState {
    ChannelState { announced_tier: Some(tier), announcement_message_id: Some(message_id), ..s }
}

impl ChannelState {
    fn fresh() -> (s: ChannelState)
        ensures
            s == fresh_state(),
    {
        ChannelState {
            frequency: 0,
            last_author: None,
            last_laugh_at: None,
            announced_tier: None,
            announcement_message_id: None,
        }
    }

    /// The tier due for announcement at `now` with quiet gap `gap`.
    pub fn due(&self, now: u64, gap: u64) -> (r: Option<Tier>)
        ensures
            r == due_tier(*self, now, gap),
    {
        let tier = match Tier::from_frequency(self.frequency) {
            Some(t) => t,
            None => return None,
        };
        let at = match self.last_laugh_at {
            Some(at) => at,
            None => return None,
        };
        if now < at || now - at < gap {
            return None;
        }
        match self.announced_tier {
            Some(announced) => {
                if announced.rank_of() >= tier.rank_of() {
                    return None;
                }
            },
            None => {},
        }
        Some(tier)
    }
}

/// A streak that is due to be announced in `channel`.
#[derive(Debug, Clone, Copy, PartialEq, Eq)]
pub struct Announcement {
    pub channel: u64,
    pub tier: Tier,
    /// The message of the previous announcement of this streak, to delete.
    pub previous_message_id: Option<u64>,
}

// ----------------------------------------------------------------------
// The concurrent map of channel states
// ----------------------------------------------------------------------

/// `dashmap::DashMap`, a concurrent hash map.
#[verifier::external_type_specification]
#[verifier::external_body]
#[verifier::reject_recursive_types(K)]
#[verifier::reject_recursive_types(V)]
#[verifier::reject_recursive_types(S)]
pub struct ExDashMap<K, V, S>(DashMap<K, V, S>);

/// A concurrent map from channel to state.
pub type ChannelMap = DashMap<u64, ChannelState>;

/// The entries of a map of channel states.
pub uninterp spec fn channel_states(m: ChannelMap) -> Map<u64, ChannelState>;

/// Calls `DashMap::new`: a map with no entries.
#[verifier::external_body]
fn channels_new() -> (r: ChannelMap)
    ensures
        channel_states(r).dom() == Set::<u64>::empty(),
{
    DashMap::new()
}

/// Calls `DashMap::get` and copies the value out of the guard it returns:
/// the value stored under `key`, if there is one. The map is private to a
/// `LolTracker`, which changes it only through `&mut self`, so no other
/// thread writes to it meanwhile.
#[verifier::external_body]
fn channels_get(m: &ChannelMap, key: u64) -> (r: Option<ChannelState>)
    ensures
        r == (if channel_states(*m).contains_key(key) {
            Some(channel_states(*m)[key])
        } else {
            None
        }),
{
    m.get(&key).map(|entry| *entry.value())
}

/// Calls `DashMap::insert`: the value under `key` becomes `value`, all
/// other entries stay.
#[verifier::external_body]
fn channels_insert(m: &mut ChannelMap, key: u64, value: ChannelState)
    ensures
        channel_states(*final(m)) == channel_states(*old(m)).insert(key, value),
{
    m.insert(key, value);
}

/// Calls `DashMap::iter` and copies each entry out: every entry exactly
/// once, in an order that the map's hashing decides and that is left
/// unsaid. As for `channels_get`, no other thread writes meanwhile.
#[verifier::external_body]
fn channels_entries(m: &ChannelMap) -> (r: Vec<(u64, ChannelState)>)
    ensures
        forall|i: int|
            0 <= i < r@.len() ==> channel_states(*m).contains_key(#[trigger] r@[i].0)
                && channel_states(*m)[r@[i].0] == r@[i].1,
        forall|i: int, j: int| 0 <= i < j < r@.len() ==> r@[i].0 != r@[j].0,
        forall|k: u64|
            #[trigger] channel_states(*m).contains_key(k) ==> exists|i: int|
                0 <= i < r@.len() && r@[i].0 == k,
{
    m.iter().map(|entry| (*entry.key(), *entry.value())).collect()
}

// ----------------------------------------------------------------------
// The tracker
// ----------------------------------------------------------------------

/// Tracks laugh streaks in every channel.
pub struct LolTracker {
    channels: ChannelMap,
    quiet_gap: u64,
    laugh_words: Vec<String>,
}

/// The states after a message in `channel`: that channel's state (a fresh
/// one if it had none) moves on by `after_message`, the others stay.
pub open spec fn handled(
    states: Map<u64, ChannelState>,
    channel: u64,
    author: u64,
    laugh: bool,
    now: u64,
) -> Map<u64, ChannelState> {
    states.insert(channel, after_message(state_or_fresh(states, channel), author, laugh, now))
}

/// The states after `tier` was announced in `channel` by `message_id`:
/// only a channel that has a state records it.
pub open spec fn recorded(
    states: Map<u64, ChannelState>,
    channel: u64,
    tier: Tier,
    message_id: u64,
) -> Map<u64, ChannelState> {
    if states.contains_key(channel) {
        states.insert(channel, after_record(states[channel], tier, message_id))
    } else {
        states
    }
}

/// The announcement due for `channel` in state `s`.
pub open spec fn announcement_of(channel: u64, s: ChannelState, now: u64, gap: u64) -> Announcement {
    Announcement {
        channel,
        tier: due_tier(s, now, gap)->0,
        previous_message_id: s.announcement_message_id,
    }
}

/// `r` holds exactly the announcements due at `now` in `states`, one per
/// channel, in some order.
pub open spec fn exactly_due(
    r: Seq<Announcement>,
    states: Map<u64, ChannelState>,
    now: u64,
    gap: u64,
) -> bool {
    &&& forall|i: int|
        0 <= i < r.len() ==> states.contains_key(#[trigger] r[i].channel) && due_tier(
            states[r[i].channel],
            now,
            gap,
        ) is Some && r[i] == announcement_of(r[i].channel, states[r[i].channel], now, gap)
    &&& forall|i: int, j: int| 0 <= i < j < r.len() ==> r[i].channel != r[j].channel
    &&& forall|c: u64|
        #[trigger] states.contains_key(c) && due_tier(states[c], now, gap) is Some ==> exists|i: int|
            0 <= i < r.len() && r[i].channel == c
}

impl LolTracker {
    /// The state of every channel seen so far.
    pub closed spec fn states(&self) -> Map<u64, ChannelState> {
        channel_states(self.channels)
    }

    /// How long a streak must be left alone before it is announced.
    pub closed spec fn gap(&self) -> u64 {
        self.quiet_gap
    }

    /// The words that count as laughs.
    pub closed spec fn words(&self) -> Seq<Seq<char>> {
        views(self.laugh_words@)
    }

    /// `handle` can take this message: the laugh test answers, and a streak
    /// it would extend is not already at the largest count.
    pub open spec fn handle_defined(&self, channel: u64, author: u64, content: Seq<char>) -> bool {
        &&& laugh_of(content, self.words()) is Some
        &&& (laugh_of(content, self.words()) == Some(true) && state_or_fresh(
            self.states(),
            channel,
        ).last_author != Some(author)) ==> state_or_fresh(self.states(), channel).frequency
            < u32::MAX
    }

    /// A tracker with no channels.
    pub fn new(quiet_gap: u64, laugh_words: Vec<String>) -> (t: LolTracker)
        ensures
            t.states() == Map::<u64, ChannelState>::empty(),
            t.gap() == quiet_gap,
            t.words() == views(laugh_words@),
    {
        let channels = channels_new();
        proof {
            assert(channel_states(channels) =~= Map::<u64, ChannelState>::empty());
        }
        LolTracker { channels, quiet_gap, laugh_words }
    }

    /// Whether `handle` can take this message.
    pub fn can_handle(&self, channel: u64, author: u64, content: &str) -> (b: bool)
        ensures
            b == self.handle_defined(channel, author, content@),
            all_ascii(content@) ==> laugh_of(content@, self.words()) == ascii_laugh_of(
                content@,
                self.words(),
            ),
    {
        let normalized = normalize(content);
        let laugh = scan_laugh(normalized.as_str(), self.laugh_words.as_slice());
        match laugh {
            None => false,
            Some(false) => true,
            Some(true) => {
                let state = match channels_get(&self.channels, channel) {
                    Some(s) => s,
                    None => ChannelState::fresh(),
                };
                match state.last_author {
                    Some(a) => a == author || state.frequency < u32::MAX,
                    None => state.frequency < u32::MAX,
                }
            },
        }
    }

    /// Takes a message by `author` in `channel` at `now`.
    pub fn handle(&mut self, channel: u64, author: u64, content: &str, now: u64)
        requires
            old(self).handle_defined(channel, author, content@),
        ensures
            final(self).states() == handled(
                old(self).states(),
                channel,
                author,
                laugh_of(content@, old(self).words())->0,
                now,
            ),
            final(self).gap() == old(self).gap(),
            final(self).words() == old(self).words(),
            all_ascii(content@) ==> laugh_of(content@, old(self).words()) == ascii_laugh_of(
                content@,
                old(self).words(),
            ),
    {
        let laugh = is_laugh(content, self.laugh_words.as_slice());
        let state = match channels_get(&self.channels, channel) {
            Some(s) => s,
            None => ChannelState::fresh(),
        };
        let next = if laugh {
            let repeated = match state.last_author {
                Some(a) => a == author,
                None => false,
            };
            if !repeated {
                ChannelState {
                    frequency: state.frequency + 1,
                    last_author: Some(author),
                    last_laugh_at: Some(now),
                    ..state
                }
            } else {
                state
            }
        } else {
            ChannelState {
                frequency: 0,
                last_author: None,
                announced_tier: None,
                announcement_message_id: None,
                ..state
            }
        };
        channels_insert(&mut self.channels, channel, next);
    }

    /// Takes a message where `handle` can, and says whether it did; where
    /// it cannot, the tracker stays as it was.
    pub fn try_handle(&mut self, channel: u64, author: u64, content: &str, now: u64) -> (taken:
        bool)
        ensures
            taken == old(self).handle_defined(channel, author, content@),
            taken ==> final(self).states() == handled(
                old(self).states(),
                channel,
                author,
                laugh_of(content@, old(self).words())->0,
                now,
            ),
            !taken ==> final(self).states() == old(self).states(),
            final(self).gap() == old(self).gap(),
            final(self).words() == old(self).words(),
            all_ascii(content@) ==> laugh_of(content@, old(self).words()) == ascii_laugh_of(
                content@,
                old(self).words(),
            ),
    {
        if self.can_handle(channel, author, content) {
            self.handle(channel, author, content, now);
            true
        } else {
            false
        }
    }

    /// The announcements due at `now`, one for each channel whose streak is
    /// due, in no particular order.
    pub fn due_announcements(&self, now: u64) -> (r: Vec<Announcement>)
        ensures
            exactly_due(r@, self.states(), now, self.gap()),
    {
        let entries = channels_entries(&self.channels);
        let ghost states = self.states();
        let mut r: Vec<Announcement> = Vec::new();
        let mut i: usize = 0;
        while i < entries.len()
            invariant
                0 <= i <= entries@.len(),
                states == self.states(),
                forall|k: int|
                    0 <= k < entries@.len() ==> states.contains_key(#[trigger] entries@[k].0)
                        && states[entries@[k].0] == entries@[k].1,
                forall|k: int, l: int|
                    0 <= k < l < entries@.len() ==> entries@[k].0 != entries@[l].0,
                forall|p: int|
                    0 <= p < r@.len() ==> states.contains_key(#[trigger] r@[p].channel)
                        && due_tier(states[r@[p].channel], now, self.gap()) is Some && r@[p]
                        == announcement_of(r@[p].channel, states[r@[p].channel], now, self.gap()),
                forall|p: int|
                    0 <= p < r@.len() ==> exists|k: int|
                        0 <= k < i && entries@[k].0 == #[trigger] r@[p].channel,
                forall|p: int, q: int| 0 <= p < q < r@.len() ==> r@[p].channel != r@[q].channel,
                forall|k: int|
                    0 <= k < i && due_tier(#[trigger] entries@[k].1, now, self.gap())
                        is Some ==> exists|p: int| 0 <= p < r@.len() && r@[p].channel == entries@[k].0,
            decreases entries@.len() - i,
        {
            let (channel, state) = entries[i];
            match state.due(now, self.quiet_gap) {
                Some(tier) => {
                    let ghost before = r@;
                    r.push(
                        Announcement {
                            channel,
                            tier,
                            previous_message_id: state.announcement_message_id,
                        },
                    );
                    proof {
                        assert(r@[before.len() as int].channel == entries@[i as int].0);
                        assert forall|p: int| 0 <= p < r@.len() implies exists|k: int|
                            0 <= k < i + 1 && entries@[k].0 == #[trigger] r@[p].channel by {
                            if p < before.len() {
                                assert(r@[p] == before[p]);
                            } else {
                                assert(entries@[i as int].0 == r@[p].channel);
                            }
                        }
                        assert forall|p: int, q: int|
                            0 <= p < q < r@.len() implies r@[p].channel != r@[q].channel by {
                            if q == before.len() {
                                assert(r@[p] == before[p]);
                                let k = choose|k: int|
                                    0 <= k < i && entries@[k].0 == #[trigger] before[p].channel;
                                assert(entries@[k].0 != entries@[i as int].0);
                            } else {
                                assert(r@[p] == before[p]);
                                assert(r@[q] == before[q]);
                            }
                        }
                        assert forall|k: int|
                            0 <= k < i + 1 && due_tier(#[trigger] entries@[k].1, now, self.gap())
                                is Some implies exists|p: int|
                            0 <= p < r@.len() && r@[p].channel == entries@[k].0 by {
                            if k < i {
                                let p = choose|p: int|
                                    0 <= p < before.len() && before[p].channel == entries@[k].0;
                                assert(r@[p] == before[p]);
                            } else {
                                assert(r@[before.len() as int].channel == entries@[k].0);
                            }
                        }
                    }
                },
                None => {},
            }
            i = i + 1;
        }
        proof {
            assert forall|c: u64|
                #[trigger] states.contains_key(c) && due_tier(states[c], now, self.gap())
                    is Some implies exists|p: int| 0 <= p < r@.len() && r@[p].channel == c by {
                let k = choose|k: int| 0 <= k < entries@.len() && entries@[k].0 == c;
                assert(due_tier(entries@[k].1, now, self.gap()) is Some);
            }
        }
        r
    }

    /// Records that `tier` was announced in `channel` by `message_id`.
    pub fn record_announcement(&mut self, channel: u64, tier: Tier, message_id: u64)
        ensures
            final(self).states() == recorded(old(self).states(), channel, tier, message_id),
            final(self).gap() == old(self).gap(),
            final(self).words() == old(self).words(),
    {
        match channels_get(&self.channels, channel) {
            Some(state) => {
                channels_insert(
                    &mut self.channels,
                    channel,
                    ChannelState {
                        announced_tier: Some(tier),
                        announcement_message_id: Some(message_id),
                        ..state
                    },
                );
            },
            None => {},
        }
    }
}

// ----------------------------------------------------------------------
// Laws of the tracker
// ----------------------------------------------------------------------

/// A laugh by the author of the latest laugh changes nothing: neither the
/// count nor the time the quiet gap runs from.
pub proof fn law_same_author_is_frozen(s: ChannelState, author: u64, now: u64)
    requires
        s.last_author == Some(author),
    ensures
        after_message(s, author, true, now) == s,
{
}

/// A laugh by anyone else extends the streak by exactly one, restarts the
/// quiet gap, and keeps what was announced.
pub proof fn law_new_laugher_extends(s: ChannelState, author: u64, now: u64)
    requires
        s.last_author != Some(author),
        s.frequency < u32::MAX,
    ensures
        after_message(s, author, true, now).frequency == s.frequency + 1,
        after_message(s, author, true, now).last_laugh_at == Some(now),
        after_message(s, author, true, now).announced_tier == s.announced_tier,
        after_message(s, author, true, now).announcement_message_id == s.announcement_message_id,
{
}

/// A message that is not a laugh ends the streak: nothing is due for the
/// channel afterwards, whenever one asks.
pub proof fn law_non_laugh_resets(s: ChannelState, author: u64, now: u64, later: u64, gap: u64)
    ensures
        after_message(s, author, false, now).frequency == 0,
        after_message(s, author, false, now).announced_tier is None,
        due_tier(after_message(s, author, false, now), later, gap) is None,
{
}

/// A streak of fewer than three distinct laughers is never announced.
pub proof fn law_below_three_never_fires(s: ChannelState, now: u64, gap: u64)
    requires
        s.frequency < 3,
    ensures
        due_tier(s, now, gap) is None,
{
}

/// Nothing is announced before the quiet gap has passed since the latest
/// counted laugh.
pub proof fn law_quiet_gap_respected(s: ChannelState, now: u64, gap: u64)
    requires
        due_tier(s, now, gap) is Some,
    ensures
        s.last_laugh_at is Some,
        s.last_laugh_at->0 + gap <= now,
{
}

/// A due tier is the tier of the streak's count.
pub proof fn law_due_tier_of_count(s: ChannelState, now: u64, gap: u64)
    requires
        due_tier(s, now, gap) is Some,
    ensures
        tier_for(s.frequency) == due_tier(s, now, gap),
{
}

/// Once a tier is recorded as announced, only a strictly higher tier can
/// fall due for that streak.
pub proof fn law_announced_tier_not_repeated(
    s: ChannelState,
    tier: Tier,
    message_id: u64,
    now: u64,
    gap: u64,
)
    requires
        due_tier(after_record(s, tier, message_id), now, gap) is Some,
    ensures
        rank(due_tier(after_record(s, tier, message_id), now, gap)->0) > rank(tier),
{
}

/// While a streak goes on, the next announcement names the message of the
/// previous one, so that it can be deleted.
pub proof fn law_escalation_names_previous(
    s: ChannelState,
    tier: Tier,
    message_id: u64,
    author: u64,
    now: u64,
    channel: u64,
    later: u64,
    gap: u64,
)
    ensures
        announcement_of(
            channel,
            after_message(after_record(s, tier, message_id), author, true, now),
            later,
            gap,
        ).previous_message_id == Some(message_id),
{
}

/// A message in one channel leaves every other channel as it was.
pub proof fn law_channels_independent(
    states: Map<u64, ChannelState>,
    channel: u64,
    author: u64,
    laugh: bool,
    now: u64,
    other: u64,
)
    requires
        other != channel,
    ensures
        handled(states, channel, author, laugh, now).contains_key(other) == states.contains_key(
            other,
        ),
        states.contains_key(other) ==> handled(states, channel, author, laugh, now)[other]
            == states[other],
        handled(states, channel, author, laugh, now).contains_key(channel),
{
}

/// Recording an announcement in one channel leaves every other channel as
/// it was.
pub proof fn law_record_touches_one_channel(
    states: Map<u64, ChannelState>,
    channel: u64,
    tier: Tier,
    message_id: u64,
    other: u64,
)
    requires
        other != channel,
    ensures
        recorded(states, channel, tier, message_id).contains_key(other) == states.contains_key(
            other,
        ),
        states.contains_key(other) ==> recorded(states, channel, tier, message_id)[other]
            == states[other],
{
}

} // verus!
