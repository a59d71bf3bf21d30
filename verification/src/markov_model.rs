//! Markov chains of words built from the quote corpus.
//!
//! The chain itself comes from the `markov` crate. What the library states
//! of it is the transitions it has been fed, each counted as often as it
//! was fed: each run of `order` steps of a quote's walk together with the
//! step that follows it. The counts weigh the random choice of the next
//! step; which step is chosen is left to chance. A
//! generated sentence is a walk made only of such transitions, so it is
//! made of the corpus's words, and a quote whose words are all different
//! is the only sentence that a model built from it alone can generate.
use markov::Chain;
use vstd::multiset::Multiset;
use vstd::prelude::*;

use crate::text::{chars_of, is_ws, join, push_char, push_str, split_whitespace, split_ws, views};

verus! {

/// The smallest order a chain may have.
pub const MIN_ORDER: u32 = 1;

/// The largest order a chain may have.
pub const MAX_ORDER: u32 = 5;

// ----------------------------------------------------------------------
// Tokens
// ----------------------------------------------------------------------

/// The characters that are dropped from a quote before it is split into
/// words: parentheses, double and single quotes, and square brackets.
pub open spec fn is_forbidden(c: char) -> bool {
    c == '(' || c == ')' || c == '"' || c == '\'' || c == '[' || c == ']'
}

/// `s` without its forbidden characters.
pub open spec fn stripped(s: Seq<char>) -> Seq<char>
    decreases s.len(),
{
    if s.len() == 0 {
        seq![]
    } else if is_forbidden(s.last()) {
        stripped(s.drop_last())
    } else {
        stripped(s.drop_last()).push(s.last())
    }
}

/// The words of a quote: its whitespace-separated pieces once the
/// forbidden characters are gone.
pub open spec fn tokens_of(s: Seq<char>) -> Seq<Seq<char>> {
    split_ws(stripped(s))
}

/// The words of a quote.
pub fn tokenize(quote: &str) -> (r: Vec<String>)
    ensures
        views(r@) == tokens_of(quote@),
{
    let v = chars_of(quote);
    let mut kept: Vec<char> = Vec::new();
    let mut i: usize = 0;
    while i < v.len()
        invariant
            0 <= i <= v@.len(),
            v@ == quote@,
            kept@ == stripped(v@.take(i as int)),
        decreases v@.len() - i,
    {
        let c = v[i];
        proof {
            assert(v@.take(i + 1).drop_last() =~= v@.take(i as int));
            assert(v@.take(i + 1).last() == c);
        }
        if !(c == '(' || c == ')' || c == '"' || c == '\'' || c == '[' || c == ']') {
            kept.push(c);
        }
        i = i + 1;
    }
    proof {
        assert(v@.take(i as int) =~= v@);
    }
    split_whitespace(kept.as_slice())
}

/// No forbidden character survives stripping.
pub proof fn lemma_stripped_clean(s: Seq<char>)
    ensures
        forall|i: int| 0 <= i < stripped(s).len() ==> !is_forbidden(#[trigger] stripped(s)[i]),
    decreases s.len(),
{
    if s.len() > 0 {
        lemma_stripped_clean(s.drop_last());
        let prev = stripped(s.drop_last());
        if !is_forbidden(s.last()) {
            assert forall|i: int| 0 <= i < stripped(s).len() implies !is_forbidden(
                #[trigger] stripped(s)[i],
            ) by {
                if i < prev.len() {
                    assert(stripped(s)[i] == prev[i]);
                }
            }
        }
    }
}

proof fn lemma_split_ws_chars(s: Seq<char>)
    ensures
        forall|i: int, j: int|
            0 <= i < split_ws(s).len() && 0 <= j < split_ws(s)[i].len() ==> exists|k: int|
                0 <= k < s.len() && s[k] == #[trigger] split_ws(s)[i][j],
    decreases s.len(),
{
    if s.len() > 0 {
        lemma_split_ws_chars(s.drop_last());
        let prev = split_ws(s.drop_last());
        let cur = split_ws(s);
        let c = s.last();
        assert forall|i: int, j: int|
            0 <= i < cur.len() && 0 <= j < cur[i].len() implies exists|k: int|
                0 <= k < s.len() && s[k] == #[trigger] cur[i][j] by {
            let from_prev = 0 <= i < prev.len() && 0 <= j < prev[i].len() && cur[i][j] == prev[i][j];
            if from_prev {
                let k = choose|k: int| 0 <= k < s.drop_last().len() && s.drop_last()[k] == prev[i][j];
                assert(s[k] == cur[i][j]);
            } else {
                if is_ws(c) {
                    assert(cur == prev);
                } else if s.len() >= 2 && !is_ws(s[s.len() - 2]) {
                    crate::text::lemma_split_ws_last(s.drop_last());
                    assert(cur == prev.update(prev.len() - 1, prev.last().push(c)));
                    if i < prev.len() - 1 {
                        assert(cur[i] == prev[i]);
                    } else {
                        assert(cur[i] == prev.last().push(c));
                        assert(j == prev.last().len());
                        assert(cur[i][j] == c);
                    }
                } else {
                    assert(cur == prev.push(seq![c]));
                    if i < prev.len() {
                        assert(cur[i] == prev[i]);
                    } else {
                        assert(cur[i][j] == c);
                    }
                }
                assert(s[s.len() - 1] == cur[i][j]);
            }
        }
    }
}

/// Every word is non-empty and holds neither whitespace nor a forbidden
/// character.
pub proof fn law_tokens_are_clean(s: Seq<char>)
    ensures
        forall|i: int|
            0 <= i < tokens_of(s).len() ==> #[trigger] tokens_of(s)[i].len() > 0 && forall|j: int|
                0 <= j < tokens_of(s)[i].len() ==> !is_ws(#[trigger] tokens_of(s)[i][j])
                    && !is_forbidden(tokens_of(s)[i][j]),
{
    crate::text::lemma_split_ws_words(stripped(s));
    lemma_stripped_clean(s);
    lemma_split_ws_chars(stripped(s));
    assert forall|i: int, j: int|
        0 <= i < tokens_of(s).len() && 0 <= j < tokens_of(s)[i].len() implies !is_forbidden(
        #[trigger] tokens_of(s)[i][j],
    ) by {
        let k = choose|k: int|
            0 <= k < stripped(s).len() && stripped(s)[k] == #[trigger] split_ws(stripped(s))[i][j];
    }
}

/// Stripping works character by character: it strips a text by stripping
/// its parts, takes out each of `(`, `)`, `"`, `'`, `[` and `]`, and keeps
/// every other character.
pub proof fn law_stripping_keeps_other_characters(s: Seq<char>, t: Seq<char>, c: char)
    ensures
        stripped(s + t) == stripped(s) + stripped(t),
        (c == '(' || c == ')' || c == '"' || c == '\'' || c == '[' || c == ']') ==> stripped(
            seq![c],
        ) == Seq::<char>::empty(),
        !(c == '(' || c == ')' || c == '"' || c == '\'' || c == '[' || c == ']') ==> stripped(
            seq![c],
        ) == seq![c],
    decreases t.len(),
{
    assert(seq![c].drop_last() =~= Seq::<char>::empty());
    assert(seq![c].last() == c);
    assert(stripped(Seq::<char>::empty()) =~= Seq::<char>::empty());
    assert(stripped(seq![c]) == if is_forbidden(c) {
        stripped(Seq::<char>::empty())
    } else {
        stripped(Seq::<char>::empty()).push(c)
    });
    assert(Seq::<char>::empty().push(c) =~= seq![c]);
    if t.len() == 0 {
        assert(s + t =~= s);
        assert(stripped(s) + stripped(t) =~= stripped(s));
    } else {
        law_stripping_keeps_other_characters(s, t.drop_last(), c);
        assert((s + t).drop_last() =~= s + t.drop_last());
        assert((s + t).last() == t.last());
        if !is_forbidden(t.last()) {
            assert(stripped(s + t) =~= stripped(s) + stripped(t.drop_last()).push(t.last()));
        }
    }
}

/// A piece of text with no whitespace and none of `(`, `)`, `"`, `'`, `[`
/// and `]` is one word, as it stands: an emoji such as `<:pepe:123>` stays
/// whole.
pub proof fn law_plain_word_is_one_token(q: Seq<char>)
    requires
        q.len() > 0,
        forall|i: int|
            0 <= i < q.len() ==> !is_ws(#[trigger] q[i]) && !(q[i] == '(' || q[i] == ')' || q[i]
                == '"' || q[i] == '\'' || q[i] == '[' || q[i] == ']'),
    ensures
        tokens_of(q) == seq![q],
{
    lemma_stripped_plain(q);
    lemma_split_plain(q);
}

proof fn lemma_stripped_plain(q: Seq<char>)
    requires
        forall|i: int|
            0 <= i < q.len() ==> !(#[trigger] q[i] == '(' || q[i] == ')' || q[i] == '"' || q[i]
                == '\'' || q[i] == '[' || q[i] == ']'),
    ensures
        stripped(q) == q,
    decreases q.len(),
{
    if q.len() > 0 {
        let d = q.drop_last();
        assert forall|i: int| 0 <= i < d.len() implies !(#[trigger] d[i] == '(' || d[i] == ')'
            || d[i] == '"' || d[i] == '\'' || d[i] == '[' || d[i] == ']') by {
            assert(d[i] == q[i]);
        }
        lemma_stripped_plain(d);
        assert(q[q.len() - 1] == q.last());
        assert(stripped(q) =~= d.push(q.last()));
        assert(d.push(q.last()) =~= q);
    }
}

proof fn lemma_split_plain(q: Seq<char>)
    requires
        q.len() > 0,
        forall|i: int| 0 <= i < q.len() ==> !is_ws(#[trigger] q[i]),
    ensures
        split_ws(q) == seq![q],
    decreases q.len(),
{
    let d = q.drop_last();
    assert(q[q.len() - 1] == q.last());
    assert(!is_ws(q.last()));
    if q.len() == 1 {
        assert(d =~= Seq::<char>::empty());
        assert(split_ws(d) =~= Seq::<Seq<char>>::empty());
        assert(seq![q.last()] =~= q);
        assert(split_ws(q) == split_ws(d).push(seq![q.last()]));
        assert(split_ws(d).push(seq![q.last()]) =~= seq![q]);
    } else {
        assert forall|i: int| 0 <= i < d.len() implies !is_ws(#[trigger] d[i]) by {
            assert(d[i] == q[i]);
        }
        lemma_split_plain(d);
        assert(q[q.len() - 2] == d[d.len() - 1]);
        assert(d.push(q.last()) =~= q);
        assert(!is_ws(q[q.len() - 2]));
        assert(split_ws(q) == split_ws(d).update(
            split_ws(d).len() - 1,
            split_ws(d).last().push(q.last()),
        ));
        assert(seq![d].update(0, d.push(q.last())) =~= seq![q]);
    }
}

/// A quote made only of whitespace and forbidden characters has no words.
pub proof fn law_blank_quote_has_no_tokens(s: Seq<char>)
    requires
        forall|i: int| 0 <= i < s.len() ==> is_ws(#[trigger] s[i]) || is_forbidden(s[i]),
    ensures
        tokens_of(s).len() == 0,
{
    lemma_blank_stripped(s);
    lemma_split_ws_blank(stripped(s));
}

proof fn lemma_blank_stripped(s: Seq<char>)
    requires
        forall|i: int| 0 <= i < s.len() ==> is_ws(#[trigger] s[i]) || is_forbidden(s[i]),
    ensures
        forall|i: int| 0 <= i < stripped(s).len() ==> is_ws(#[trigger] stripped(s)[i]),
    decreases s.len(),
{
    if s.len() > 0 {
        assert forall|i: int| 0 <= i < s.drop_last().len() implies is_ws(
            #[trigger] s.drop_last()[i],
        ) || is_forbidden(s.drop_last()[i]) by {
            assert(s.drop_last()[i] == s[i]);
        }
        lemma_blank_stripped(s.drop_last());
        assert(is_ws(s[s.len() - 1]) || is_forbidden(s[s.len() - 1]));
        let prev = stripped(s.drop_last());
        if !is_forbidden(s.last()) {
            assert forall|i: int| 0 <= i < stripped(s).len() implies is_ws(
                #[trigger] stripped(s)[i],
            ) by {
                if i < prev.len() {
                    assert(stripped(s)[i] == prev[i]);
                }
            }
        }
    }
}

proof fn lemma_split_ws_blank(s: Seq<char>)
    requires
        forall|i: int| 0 <= i < s.len() ==> is_ws(#[trigger] s[i]),
    ensures
        split_ws(s).len() == 0,
    decreases s.len(),
{
    if s.len() > 0 {
        assert forall|i: int| 0 <= i < s.drop_last().len() implies is_ws(
            #[trigger] s.drop_last()[i],
        ) by {
            assert(s.drop_last()[i] == s[i]);
        }
        lemma_split_ws_blank(s.drop_last());
        assert(is_ws(s[s.len() - 1]));
    }
}

// ----------------------------------------------------------------------
// Orders
// ----------------------------------------------------------------------

/// The order of a chain: how many previous words choose the next one.
#[derive(Debug, Clone, Copy, PartialEq, Eq)]
pub struct Order(u32);

impl Order {
    #[verifier::type_invariant]
    spec fn in_range(self) -> bool {
        MIN_ORDER <= self.0 <= MAX_ORDER
    }

    /// The number of previous words.
    pub closed spec fn value(self) -> u32 {
        self.0
    }

    /// The order `order`, if it is within the allowed range.
    pub fn new(order: u32) -> (r: Option<Order>)
        ensures
            MIN_ORDER <= order <= MAX_ORDER ==> r is Some && r->0.value() == order,
            !(MIN_ORDER <= order <= MAX_ORDER) ==> r is None,
    {
        if MIN_ORDER <= order && order <= MAX_ORDER {
            Some(Order(order))
        } else {
            None
        }
    }
}

impl Default for Order {
    /// The order the bot uses unless told otherwise: two.
    fn default() -> (r: Order)
        ensures
            r.value() == 2,
    {
        Order(2)
    }
}

// ----------------------------------------------------------------------
// The chain
// ----------------------------------------------------------------------

/// A `markov::Chain` of words. `Chain` is bound by a trait of the `markov`
/// crate, so it cannot be declared as an outside type; the chain is held
/// here, hidden, and only the functions below reach it.
#[verifier::external_body]
pub struct WordChain {
    chain: Chain<String>,
}

/// The steps of a walk through the chain that yields `ws`: `order` edges
/// before the first word, the words, and an edge after the last.
pub open spec fn padded(order: nat, ws: Seq<Seq<char>>) -> Seq<Option<Seq<char>>> {
    Seq::new(order, |i: int| None::<Seq<char>>) + ws.map_values(|w: Seq<char>| Some(w)) + seq![
        None::<Seq<char>>,
    ]
}

/// The run of `order` steps that starts at step `i` of the walk that
/// yields `ws`, together with the step that follows it.
pub open spec fn window_at(order: nat, ws: Seq<Seq<char>>, i: int) -> Seq<Option<Seq<char>>> {
    padded(order, ws).subrange(i, i + order + 1)
}

/// The transitions of the walk that yields `ws`: every run of `order`
/// steps together with the step that follows it.
pub open spec fn windows_of(order: nat, ws: Seq<Seq<char>>) -> Set<Seq<Option<Seq<char>>>> {
    Set::new(
        |w: Seq<Option<Seq<char>>>|
            exists|i: int| 0 <= i <= ws.len() && w == #[trigger] window_at(order, ws, i),
    )
}

/// The words that occur in a set of transitions.
pub open spec fn words_in(windows: Set<Seq<Option<Seq<char>>>>) -> Set<Seq<char>> {
    Set::new(
        |x: Seq<char>|
            exists|w: Seq<Option<Seq<char>>>, j: int|
                #![trigger windows.contains(w), w[j]]
                windows.contains(w) && 0 <= j < w.len() && w[j] == Some(x),
    )
}

/// The transitions of a chain after being fed the words `ws`: feeding no
/// words changes nothing.
pub open spec fn fed(
    windows: Set<Seq<Option<Seq<char>>>>,
    order: nat,
    ws: Seq<Seq<char>>,
) -> Set<Seq<Option<Seq<char>>>> {
    if ws.len() == 0 {
        windows
    } else {
        windows + windows_of(order, ws)
    }
}

/// The transitions of the walk that yields `ws`, in order, one for each
/// step after the `order` edges in front.
pub open spec fn walk_steps(order: nat, ws: Seq<Seq<char>>) -> Seq<Seq<Option<Seq<char>>>> {
    Seq::new(ws.len() + 1, |i: int| window_at(order, ws, i))
}

/// The transition counts of a chain after being fed the words `ws`: each
/// transition of their walk counts once more; feeding no words changes
/// nothing.
pub open spec fn fed_counts(
    counts: Multiset<Seq<Option<Seq<char>>>>,
    order: nat,
    ws: Seq<Seq<char>>,
) -> Multiset<Seq<Option<Seq<char>>>> {
    if ws.len() == 0 {
        counts
    } else {
        counts.add(walk_steps(order, ws).to_multiset())
    }
}

/// The transitions that occur at least once among `counts`.
pub open spec fn support(counts: Multiset<Seq<Option<Seq<char>>>>) -> Set<Seq<Option<Seq<char>>>> {
    Set::new(|w: Seq<Option<Seq<char>>>| counts.count(w) > 0)
}

/// The transitions a chain holds, each as many times as it has been fed: a
/// run of steps together with a step seen to follow it. The counts are the
/// weights with which generation picks the next step.
pub uninterp spec fn chain_transitions(c: WordChain) -> Multiset<Seq<Option<Seq<char>>>>;

/// The order that a chain was made with.
pub uninterp spec fn chain_order(c: WordChain) -> nat;

/// Calls `Chain::of_order`, which asserts that the order is not zero: a
/// chain of that order that holds no transition.
#[verifier::external_body]
fn chain_of_order(order: usize) -> (r: WordChain)
    requires
        order != 0,
    ensures
        chain_transitions(r) == Multiset::<Seq<Option<Seq<char>>>>::empty(),
        chain_order(r) == order,
{
    WordChain { chain: Chain::of_order(order) }
}

/// Calls `Chain::feed`. An empty sequence of tokens changes nothing
/// (`markov::Chain::feed` returns at once); any other adds the transitions
/// of its walk: `markov::Chain::feed` pads the tokens with `order` edges in
/// front and one behind and counts every run of `order + 1` steps once
/// more.
#[verifier::external_body]
fn chain_feed(c: &mut WordChain, tokens: &Vec<String>)
    ensures
        chain_transitions(*final(c)) == fed_counts(
            chain_transitions(*old(c)),
            chain_order(*old(c)),
            views(tokens@),
        ),
        chain_order(*final(c)) == chain_order(*old(c)),
{
    c.chain.feed(tokens.as_slice());
}

/// Calls `Chain::is_empty`: whether the chain holds no transition (every
/// feed of tokens adds one from the start).
#[verifier::external_body]
fn chain_is_empty(c: &WordChain) -> (b: bool)
    ensures
        b == (chain_transitions(*c) == Multiset::<Seq<Option<Seq<char>>>>::empty()),
{
    c.chain.is_empty()
}

/// Calls `Chain::generate`, which walks the chain at random from its
/// start until it steps onto the edge after a last word. Which transitions
/// it takes is left to chance and not stated; what `markov::Chain::generate`
/// does on every walk is stated: on a chain that holds a transition, the first step
/// always yields a word, and every transition of the walk is one the chain
/// holds. On a chain that holds none it panics, so that is ruled out.
#[verifier::external_body]
fn chain_generate(c: &WordChain) -> (r: Vec<String>)
    requires
        chain_transitions(*c) != Multiset::<Seq<Option<Seq<char>>>>::empty(),
    ensures
        r@.len() > 0,
        windows_of(chain_order(*c), views(r@)).subset_of(support(chain_transitions(*c))),
{
    c.chain.generate()
}

/// The transition counts of a chain of order `order` fed every quote of
/// `quotes`.
pub open spec fn corpus_counts(order: nat, quotes: Seq<Seq<char>>) -> Multiset<
    Seq<Option<Seq<char>>>,
>
    decreases quotes.len(),
{
    if quotes.len() == 0 {
        Multiset::empty()
    } else {
        fed_counts(corpus_counts(order, quotes.drop_last()), order, tokens_of(quotes.last()))
    }
}

/// The transitions that occur among counts are those of the walks fed.
proof fn lemma_support_walk(order: nat, ws: Seq<Seq<char>>)
    ensures
        support(walk_steps(order, ws).to_multiset()) == windows_of(order, ws),
{
    broadcast use vstd::seq_lib::group_to_multiset_ensures;

    let st = walk_steps(order, ws);
    assert forall|w: Seq<Option<Seq<char>>>|
        support(st.to_multiset()).contains(w) <==> #[trigger] windows_of(order, ws).contains(w) by {
        if st.contains(w) {
            let i = choose|i: int| 0 <= i < st.len() && st[i] == w;
            assert(w == window_at(order, ws, i));
        }
        if windows_of(order, ws).contains(w) {
            let i = choose|i: int| 0 <= i <= ws.len() && w == #[trigger] window_at(order, ws, i);
            assert(st[i] == w);
        }
    }
    assert(support(st.to_multiset()) =~= windows_of(order, ws));
}

/// Counting a walk once more adds its transitions to those that occur.
proof fn lemma_support_fed(counts: Multiset<Seq<Option<Seq<char>>>>, order: nat, ws: Seq<Seq<char>>)
    ensures
        support(fed_counts(counts, order, ws)) == fed(support(counts), order, ws),
{
    if ws.len() > 0 {
        lemma_support_walk(order, ws);
        assert(support(fed_counts(counts, order, ws)) =~= support(counts) + windows_of(order, ws));
    }
}

/// The transitions that occur among the counts of a corpus are the
/// transitions of the corpus.
pub proof fn lemma_support_corpus(order: nat, quotes: Seq<Seq<char>>)
    ensures
        support(corpus_counts(order, quotes)) == corpus_windows(order, quotes),
    decreases quotes.len(),
{
    if quotes.len() == 0 {
        assert(support(Multiset::<Seq<Option<Seq<char>>>>::empty()) =~= Set::<
            Seq<Option<Seq<char>>>,
        >::empty());
    } else {
        lemma_support_corpus(order, quotes.drop_last());
        lemma_support_fed(corpus_counts(order, quotes.drop_last()), order, tokens_of(quotes.last()));
    }
}

/// No transition occurs exactly when there are no counts.
proof fn lemma_support_empty(counts: Multiset<Seq<Option<Seq<char>>>>)
    ensures
        support(counts) == Set::<Seq<Option<Seq<char>>>>::empty() <==> counts
            == Multiset::<Seq<Option<Seq<char>>>>::empty(),
{
    if support(counts) == Set::<Seq<Option<Seq<char>>>>::empty() {
        assert forall|w: Seq<Option<Seq<char>>>| #[trigger] counts.count(w) == 0 by {
            assert(!support(counts).contains(w));
        }
        assert(counts =~= Multiset::<Seq<Option<Seq<char>>>>::empty());
    }
    if counts == Multiset::<Seq<Option<Seq<char>>>>::empty() {
        assert(support(counts) =~= Set::<Seq<Option<Seq<char>>>>::empty());
    }
}

/// The transitions of a chain of order `order` fed every quote of
/// `quotes`.
pub open spec fn corpus_windows(order: nat, quotes: Seq<Seq<char>>) -> Set<Seq<Option<Seq<char>>>>
    decreases quotes.len(),
{
    if quotes.len() == 0 {
        Set::empty()
    } else {
        fed(corpus_windows(order, quotes.drop_last()), order, tokens_of(quotes.last()))
    }
}

/// The words of every quote of `quotes`.
pub open spec fn corpus_words(quotes: Seq<Seq<char>>) -> Set<Seq<char>>
    decreases quotes.len(),
{
    if quotes.len() == 0 {
        Set::empty()
    } else {
        corpus_words(quotes.drop_last()) + tokens_of(quotes.last()).to_set()
    }
}

/// The steps of a walk, one by one: `order` edges, the words, an edge.
proof fn lemma_padded_at(order: nat, ws: Seq<Seq<char>>, p: int)
    requires
        0 <= p < order + ws.len() + 1,
    ensures
        padded(order, ws).len() == order + ws.len() + 1,
        p < order ==> padded(order, ws)[p] == None::<Seq<char>>,
        order <= p < order + ws.len() ==> padded(order, ws)[p] == Some(ws[p - order]),
        p == order + ws.len() ==> padded(order, ws)[p] == None::<Seq<char>>,
{
    let front = Seq::new(order, |i: int| None::<Seq<char>>);
    let mid = ws.map_values(|w: Seq<char>| Some(w));
    assert(padded(order, ws) == front + mid + seq![None::<Seq<char>>]);
    if p < order {
        assert(padded(order, ws)[p] == front[p]);
    } else if p < order + ws.len() {
        assert(padded(order, ws)[p] == mid[p - order]);
    }
}

/// Step `d` of the transition that starts at step `i`.
proof fn lemma_window_at(order: nat, ws: Seq<Seq<char>>, i: int, d: int)
    requires
        0 <= i <= ws.len(),
        0 <= d <= order,
    ensures
        window_at(order, ws, i).len() == order + 1,
        window_at(order, ws, i)[d] == padded(order, ws)[i + d],
        i + d < order ==> window_at(order, ws, i)[d] == None::<Seq<char>>,
        order <= i + d < order + ws.len() ==> window_at(order, ws, i)[d] == Some(
            ws[i + d - order],
        ),
        i + d == order + ws.len() ==> window_at(order, ws, i)[d] == None::<Seq<char>>,
{
    lemma_padded_at(order, ws, i + d);
}

/// Every word of a walk is yielded by one of its transitions.
proof fn lemma_walk_words(order: nat, ws: Seq<Seq<char>>, i: int)
    requires
        0 <= i < ws.len(),
    ensures
        windows_of(order, ws).contains(window_at(order, ws, i)),
        window_at(order, ws, i)[order as int] == Some(ws[i]),
{
    lemma_window_at(order, ws, i, order as int);
}

/// The words of a walk's transitions are the walk's own words.
proof fn lemma_words_in_walk(order: nat, ws: Seq<Seq<char>>)
    ensures
        forall|x: Seq<char>| #[trigger] words_in(windows_of(order, ws)).contains(x) ==> ws.contains(x),
{
    assert forall|x: Seq<char>| #[trigger] words_in(windows_of(order, ws)).contains(x) implies ws.contains(x) by {
        let (w, j) = choose|w: Seq<Option<Seq<char>>>, j: int|
            #![trigger windows_of(order, ws).contains(w), w[j]]
            windows_of(order, ws).contains(w) && 0 <= j < w.len() && w[j] == Some(x);
        let i = choose|i: int| 0 <= i <= ws.len() && w == #[trigger] window_at(order, ws, i);
        lemma_window_at(order, ws, i, j);
        assert(ws[i + j - order] == x);
    }
}

/// The words of the transitions of a corpus are words of its quotes.
proof fn lemma_words_in_corpus(order: nat, quotes: Seq<Seq<char>>)
    ensures
        forall|x: Seq<char>| #[trigger] words_in(corpus_windows(order, quotes)).contains(x)
            ==> corpus_words(quotes).contains(x),
    decreases quotes.len(),
{
    if quotes.len() > 0 {
        let rest = quotes.drop_last();
        let ts = tokens_of(quotes.last());
        lemma_words_in_corpus(order, rest);
        lemma_words_in_walk(order, ts);
        assert forall|x: Seq<char>| #[trigger] words_in(corpus_windows(order, quotes)).contains(x)
            implies corpus_words(quotes).contains(x) by {
            let (w, j) = choose|w: Seq<Option<Seq<char>>>, j: int|
                #![trigger corpus_windows(order, quotes).contains(w), w[j]]
                corpus_windows(order, quotes).contains(w) && 0 <= j < w.len() && w[j] == Some(x);
            if corpus_windows(order, rest).contains(w) {
                assert(words_in(corpus_windows(order, rest)).contains(x));
            } else {
                assert(windows_of(order, ts).contains(w));
                assert(words_in(windows_of(order, ts)).contains(x));
                assert(ts.to_set().contains(x));
            }
        }
    }
}

/// A corpus yields no transition exactly when none of its quotes has a
/// word: a model built from it generates nothing exactly then.
pub proof fn law_empty_corpus_has_no_words(order: nat, quotes: Seq<Seq<char>>)
    ensures
        corpus_windows(order, quotes) == Set::<Seq<Option<Seq<char>>>>::empty() <==> forall|i: int|
            0 <= i < quotes.len() ==> #[trigger] tokens_of(quotes[i]).len() == 0,
    decreases quotes.len(),
{
    if quotes.len() > 0 {
        let rest = quotes.drop_last();
        let ts = tokens_of(quotes.last());
        law_empty_corpus_has_no_words(order, rest);
        assert forall|i: int| 0 <= i < rest.len() implies #[trigger] rest[i] == quotes[i] by {}
        if ts.len() > 0 {
            lemma_window_at(order, ts, 0, 0);
            assert(windows_of(order, ts).contains(window_at(order, ts, 0)));
            assert(corpus_windows(order, quotes).contains(window_at(order, ts, 0)));
            assert(tokens_of(quotes[quotes.len() - 1]).len() > 0);
        } else {
            assert(corpus_windows(order, quotes) == corpus_windows(order, rest));
            if forall|i: int| 0 <= i < rest.len() ==> #[trigger] tokens_of(rest[i]).len() == 0 {
                assert forall|i: int| 0 <= i < quotes.len() implies #[trigger] tokens_of(
                    quotes[i],
                ).len() == 0 by {
                    if i < rest.len() {
                        assert(tokens_of(rest[i]).len() == 0);
                    }
                }
            }
        }
    }
}

/// Every word of a walk whose transitions all come from a corpus is a word
/// of one of the corpus's quotes: whatever a model built from `quotes`
/// generates is made of their words.
pub proof fn law_generated_words_come_from_the_corpus(
    order: nat,
    quotes: Seq<Seq<char>>,
    ws: Seq<Seq<char>>,
)
    requires
        windows_of(order, ws).subset_of(corpus_windows(order, quotes)),
    ensures
        forall|i: int| 0 <= i < ws.len() ==> corpus_words(quotes).contains(#[trigger] ws[i]),
{
    lemma_words_in_corpus(order, quotes);
    assert forall|i: int| 0 <= i < ws.len() implies corpus_words(quotes).contains(#[trigger] ws[i]) by {
        lemma_walk_words(order, ws, i);
        let w = window_at(order, ws, i);
        assert(corpus_windows(order, quotes).contains(w));
        assert(words_in(corpus_windows(order, quotes)).contains(ws[i]));
    }
}

/// Induction step: a walk through the transitions of `ts`, whose words are
/// all different, follows `ts` step by step.
proof fn lemma_walk_follows(order: nat, ts: Seq<Seq<char>>, ws: Seq<Seq<char>>, i: int)
    requires
        order >= 1,
        ts.len() > 0,
        ts.no_duplicates(),
        windows_of(order, ws).subset_of(windows_of(order, ts)),
        0 <= i <= ws.len(),
    ensures
        i <= ts.len(),
        forall|t: int| 0 <= t < i ==> ws[t] == ts[t],
        i < ws.len() ==> i < ts.len() && ws[i] == ts[i],
        i == ws.len() ==> ws.len() == ts.len(),
    decreases i,
{
    let k = order as int;
    if i > 0 {
        lemma_walk_follows(order, ts, ws, i - 1);
    }
    let w = window_at(order, ws, i);
    assert(windows_of(order, ws).contains(w));
    assert(windows_of(order, ts).contains(w));
    let j = choose|j: int| 0 <= j <= ts.len() && w == #[trigger] window_at(order, ts, j);
    lemma_window_at(order, ws, i, k - 1);
    lemma_window_at(order, ts, j, k - 1);
    lemma_window_at(order, ws, i, k);
    lemma_window_at(order, ts, j, k);
    if i == 0 {
        assert(j == 0);
    } else {
        assert(w[k - 1] == Some(ws[i - 1]));
        assert(j != 0);
        assert(ts[j - 1] == ts[i - 1]);
        assert(j == i);
    }
}

/// A walk through the transitions of a sequence of words that are all
/// different is that sequence: the only walk a chain fed one such quote
/// can take gives back the quote's words.
pub proof fn law_distinct_words_have_one_walk(order: nat, ts: Seq<Seq<char>>, ws: Seq<Seq<char>>)
    requires
        order >= 1,
        ts.len() > 0,
        ts.no_duplicates(),
        windows_of(order, ws).subset_of(windows_of(order, ts)),
    ensures
        ws == ts,
{
    lemma_walk_follows(order, ts, ws, ws.len() as int);
    assert(ws =~= ts);
}

/// A model built from one quote whose words are all different can only
/// walk that quote: every walk through its transitions yields the quote's
/// words, in order, whatever the order of the model.
pub proof fn law_one_quote_one_walk(order: nat, quote: Seq<char>, ws: Seq<Seq<char>>)
    requires
        order >= 1,
        tokens_of(quote).len() > 0,
        tokens_of(quote).no_duplicates(),
        windows_of(order, ws).subset_of(corpus_windows(order, seq![quote])),
    ensures
        ws == tokens_of(quote),
{
    let qs = seq![quote];
    assert(qs.drop_last() =~= Seq::<Seq<char>>::empty());
    assert(corpus_windows(order, qs.drop_last()) == Set::<Seq<Option<Seq<char>>>>::empty());
    assert(corpus_windows(order, qs) =~= windows_of(order, tokens_of(quote)));
    law_distinct_words_have_one_walk(order, tokens_of(quote), ws);
}

/// A sentence of `words`, separated by single spaces.
pub open spec fn sentence(words: Seq<Seq<char>>) -> Seq<char> {
    join(words, seq![' '])
}

/// A Markov model of the quote corpus.
pub struct MarkovModel {
    chain: WordChain,
}

impl MarkovModel {
    /// The transitions the model's chain holds, each counted as many times
    /// as it has been fed.
    pub closed spec fn transitions(&self) -> Multiset<Seq<Option<Seq<char>>>> {
        chain_transitions(self.chain)
    }

    /// The transitions the model's chain holds at least once.
    pub open spec fn windows(&self) -> Set<Seq<Option<Seq<char>>>> {
        support(self.transitions())
    }

    /// The order of the model's chain.
    pub closed spec fn order(&self) -> nat {
        chain_order(self.chain)
    }

    /// A model of order `order` that has been fed nothing.
    pub fn new(order: Order) -> (m: MarkovModel)
        ensures
            m.transitions() == Multiset::<Seq<Option<Seq<char>>>>::empty(),
            m.windows() == Set::<Seq<Option<Seq<char>>>>::empty(),
            m.order() == order.value(),
    {
        proof {
            use_type_invariant(&order);
        }
        let m = MarkovModel { chain: chain_of_order(order.0 as usize) };
        proof {
            lemma_support_empty(m.transitions());
        }
        m
    }

    /// A model of order `order` fed every quote of `quotes`.
    pub fn build(order: Order, quotes: &[&str]) -> (m: MarkovModel)
        ensures
            m.transitions() == corpus_counts(
                order.value() as nat,
                quotes@.map_values(|q: &str| q@),
            ),
            m.windows() == corpus_windows(order.value() as nat, quotes@.map_values(|q: &str| q@)),
            m.order() == order.value(),
    {
        let mut model = MarkovModel::new(order);
        let ghost qs = quotes@.map_values(|q: &str| q@);
        let mut i: usize = 0;
        proof {
            assert(qs.take(0) =~= seq![]);
        }
        while i < quotes.len()
            invariant
                0 <= i <= quotes@.len(),
                qs == quotes@.map_values(|q: &str| q@),
                model.transitions() == corpus_counts(order.value() as nat, qs.take(i as int)),
                model.order() == order.value(),
            decreases quotes@.len() - i,
        {
            model.feed(quotes[i]);
            proof {
                assert(qs.take(i + 1).drop_last() =~= qs.take(i as int));
                assert(qs.take(i + 1).last() == quotes@[i as int]@);
            }
            i = i + 1;
        }
        proof {
            assert(qs.take(i as int) =~= qs);
            lemma_support_corpus(order.value() as nat, qs);
        }
        model
    }

    /// Feeds the words of `quote` to the model; a quote with no words
    /// changes nothing.
    pub fn feed(&mut self, quote: &str)
        ensures
            final(self).transitions() == fed_counts(
                old(self).transitions(),
                old(self).order(),
                tokens_of(quote@),
            ),
            final(self).windows() == fed(old(self).windows(), old(self).order(), tokens_of(quote@)),
            final(self).order() == old(self).order(),
    {
        proof {
            lemma_support_fed(self.transitions(), self.order(), tokens_of(quote@));
        }
        let tokens = tokenize(quote);
        if tokens.len() > 0 {
            chain_feed(&mut self.chain, &tokens);
        }
    }

    /// A sentence generated from the model, or none if it has been fed
    /// nothing. The walk is chosen at random; every transition it takes is
    /// one the model holds.
    pub fn generate(&self) -> (r: Option<String>)
        ensures
            r is None <==> self.transitions() == Multiset::<Seq<Option<Seq<char>>>>::empty(),
            r is None <==> self.windows() == Set::<Seq<Option<Seq<char>>>>::empty(),
            r matches Some(s) ==> exists|ws: Seq<Seq<char>>|
                ws.len() > 0 && windows_of(self.order(), ws).subset_of(self.windows()) && s@
                    == sentence(ws),
    {
        proof {
            lemma_support_empty(self.transitions());
        }
        if chain_is_empty(&self.chain) {
            return None;
        }
        let tokens = chain_generate(&self.chain);
        sentence_from_tokens(tokens.as_slice())
    }
}

impl Default for MarkovModel {
    /// A model of the default order that has been fed nothing.
    fn default() -> (m: MarkovModel)
        ensures
            m.transitions() == Multiset::<Seq<Option<Seq<char>>>>::empty(),
            m.windows() == Set::<Seq<Option<Seq<char>>>>::empty(),
            m.order() == 2,
    {
        MarkovModel::new(Order::default())
    }
}

/// The sentence made of generated tokens: none if there are no tokens,
/// else the tokens separated by single spaces.
pub fn sentence_from_tokens(tokens: &[String]) -> (r: Option<String>)
    ensures
        r is None <==> tokens@.len() == 0,
        r matches Some(s) ==> s@ == sentence(views(tokens@)),
{
    if tokens.len() == 0 {
        return None;
    }
    let mut s = String::new();
    let mut i: usize = 0;
    while i < tokens.len()
        invariant
            0 <= i <= tokens@.len(),
            s@ == sentence(views(tokens@).take(i as int)),
        decreases tokens@.len() - i,
    {
        let ghost before = s@;
        if i > 0 {
            push_char(&mut s, ' ');
        }
        push_str(&mut s, tokens[i].as_str());
        proof {
            let ws = views(tokens@);
            assert(ws.take(i + 1).drop_last() =~= ws.take(i as int));
            assert(ws[i as int] == tokens@[i as int]@);
            if i == 0 {
                assert(ws.take(1) =~= seq![ws[0]]);
                assert(s@ =~= ws[0]);
            } else {
                assert(s@ =~= before + seq![' '] + ws[i as int]);
            }
        }
        i = i + 1;
    }
    proof {
        assert(views(tokens@).take(i as int) =~= views(tokens@));
    }
    Some(s)
}

} // verus!
