//! Quotes as they are stored, and the full-text search queries built from
//! what a user types. The queries are escaped so that whatever the user
//! types reaches the search engine as literal text.
use vstd::prelude::*;

use crate::text::{
    join, push_char, push_int, slice_chars, split_whitespace, split_ws, string_of, trim,
    trim_chars, views, int_text,
};

verus! {

/// The identifier of a quote.
#[derive(Debug, Clone, Copy, PartialEq, Eq, PartialOrd, Ord, Hash)]
pub struct QuoteId(pub i64);

impl QuoteId {
    /// The identifier in decimal.
    pub fn to_string(&self) -> (s: String)
        ensures
            s@ == int_text(self.0 as int),
    {
        let mut s = String::new();
        push_int(&mut s, self.0);
        s
    }
}

/// When a quote was submitted, in seconds since the Unix epoch.
#[derive(Debug, Clone, Copy, PartialEq, Eq)]
pub struct SubmittedAt(pub i64);

/// A stored quote.
#[derive(Debug, Clone, PartialEq)]
pub struct Quote {
    pub id: QuoteId,
    pub quote: String,
    pub submitter: Option<String>,
    pub submitted: Option<SubmittedAt>,
}

/// What a search query means.
pub enum QueryView {
    /// An exact phrase whose words must stand next to each other.
    Phrase(Seq<char>),
    /// Words that must all occur, in any order and position.
    Terms(Seq<Seq<char>>),
}

/// A full-text search query.
#[derive(Debug, Clone, PartialEq, Eq)]
pub enum Query {
    /// The user wrapped their own query in quotes: an exact adjacent phrase.
    Phrase(String),
    /// Bare words: matched as an AND of literal terms, any order/position.
    Terms(Vec<String>),
}

impl View for Query {
    type V = QueryView;

    open spec fn view(&self) -> QueryView {
        match self {
            Query::Phrase(p) => QueryView::Phrase(p@),
            Query::Terms(ts) => QueryView::Terms(views(ts@)),
        }
    }
}

/// The query that `input` asks for: text wrapped in double quotes is a
/// phrase (none if the quotes hold nothing), anything else is its
/// whitespace-separated words (none if there are none).
pub open spec fn parsed(input: Seq<char>) -> Option<QueryView> {
    let t = trim(input);
    if t.len() >= 2 && t[0] == '"' && t.last() == '"' {
        let inner = t.subrange(1, t.len() - 1);
        if inner.len() > 0 {
            Some(QueryView::Phrase(inner))
        } else {
            None
        }
    } else if split_ws(t).len() > 0 {
        Some(QueryView::Terms(split_ws(t)))
    } else {
        None
    }
}

/// `s` with every double quote doubled.
pub open spec fn escaped(s: Seq<char>) -> Seq<char>
    decreases s.len(),
{
    if s.len() == 0 {
        seq![]
    } else if s[0] == '"' {
        seq!['"', '"'] + escaped(s.drop_first())
    } else {
        seq![s[0]] + escaped(s.drop_first())
    }
}

/// `s` as a string literal of the search syntax.
pub open spec fn quote_literal(s: Seq<char>) -> Seq<char> {
    seq!['"'] + escaped(s) + seq!['"']
}

/// The match expression for a query: the phrase as one literal, or the
/// terms as literals separated by spaces.
pub open spec fn match_expr(q: QueryView) -> Seq<char> {
    match q {
        QueryView::Phrase(p) => quote_literal(p),
        QueryView::Terms(ts) => join(ts.map_values(|t: Seq<char>| quote_literal(t)), seq![' ']),
    }
}

/// Escaping distributes over appending one more character.
pub proof fn lemma_escaped_push(s: Seq<char>, c: char)
    ensures
        escaped(s.push(c)) == escaped(s) + (if c == '"' {
            seq!['"', '"']
        } else {
            seq![c]
        }),
    decreases s.len(),
{
    let e = if c == '"' {
        seq!['"', '"']
    } else {
        seq![c]
    };
    if s.len() > 0 {
        assert(s.push(c).drop_first() =~= s.drop_first().push(c));
        assert(s.push(c)[0] == s[0]);
        lemma_escaped_push(s.drop_first(), c);
        let h = if s[0] == '"' {
            seq!['"', '"']
        } else {
            seq![s[0]]
        };
        assert(escaped(s.push(c)) == h + escaped(s.drop_first().push(c)));
        assert(escaped(s) == h + escaped(s.drop_first()));
        assert(escaped(s.push(c)) =~= escaped(s) + e);
    } else {
        assert(s.push(c).drop_first() =~= seq![]);
        assert(s.push(c)[0] == c);
        assert(escaped(s.push(c).drop_first()) =~= seq![]);
        assert(escaped(s.push(c)) =~= e);
        assert(escaped(s) =~= seq![]);
        assert(escaped(s.push(c)) =~= escaped(s) + e);
    }
}

/// Appends `t` as a literal of the search syntax to `out`.
fn push_literal(out: &mut String, t: &[char])
    ensures
        final(out)@ == old(out)@ + quote_literal(t@),
{
    let ghost start = out@;
    push_char(out, '"');
    let mut i: usize = 0;
    while i < t.len()
        invariant
            0 <= i <= t@.len(),
            out@ == start + seq!['"'] + escaped(t@.take(i as int)),
        decreases t@.len() - i,
    {
        let c = t[i];
        proof {
            assert(t@.take(i + 1) =~= t@.take(i as int).push(c));
            lemma_escaped_push(t@.take(i as int), c);
        }
        if c == '"' {
            push_char(out, '"');
            push_char(out, '"');
        } else {
            push_char(out, c);
        }
        proof {
            assert(out@ =~= start + seq!['"'] + escaped(t@.take(i + 1)));
        }
        i = i + 1;
    }
    push_char(out, '"');
    proof {
        assert(t@.take(i as int) =~= t@);
        assert(out@ =~= start + quote_literal(t@));
    }
}

/// The characters of a string.
fn chars_of_string(s: &String) -> (v: Vec<char>)
    ensures
        v@ == s@,
{
    crate::text::chars_of(s.as_str())
}

impl Query {
    /// The query that `input` asks for, if any.
    pub fn parse(input: &str) -> (r: Option<Query>)
        ensures
            match r {
                Some(q) => parsed(input@) == Some(q@),
                None => parsed(input@) is None,
            },
    {
        let t = trim_chars(input);
        let n = t.len();
        if n >= 2 && t[0] == '"' && t[n - 1] == '"' {
            if n - 2 > 0 {
                let inner = slice_chars(t.as_slice(), 1, n - 1);
                return Some(Query::Phrase(string_of(inner.as_slice())));
            } else {
                return None;
            }
        }
        let terms = split_whitespace(t.as_slice());
        if terms.len() > 0 {
            Some(Query::Terms(terms))
        } else {
            None
        }
    }

    /// The match expression: each piece of user text becomes a literal, so
    /// that no operator of the search syntax can be smuggled in.
    pub fn to_match_expr(&self) -> (r: String)
        ensures
            r@ == match_expr(self@),
    {
        let mut out = String::new();
        match self {
            Query::Phrase(phrase) => {
                let v = chars_of_string(phrase);
                push_literal(&mut out, v.as_slice());
            },
            Query::Terms(terms) => {
                let ghost lits = views(terms@).map_values(|t: Seq<char>| quote_literal(t));
                let mut i: usize = 0;
                while i < terms.len()
                    invariant
                        0 <= i <= terms@.len(),
                        lits == views(terms@).map_values(|t: Seq<char>| quote_literal(t)),
                        out@ == join(lits.take(i as int), seq![' ']),
                    decreases terms@.len() - i,
                {
                    let ghost before = out@;
                    if i > 0 {
                        push_char(&mut out, ' ');
                    }
                    let v = chars_of_string(&terms[i]);
                    push_literal(&mut out, v.as_slice());
                    proof {
                        assert(lits.take(i + 1).drop_last() =~= lits.take(i as int));
                        assert(lits[i as int] == quote_literal(terms@[i as int]@));
                        if i == 0 {
                            assert(lits.take(1) =~= seq![lits[0]]);
                            assert(out@ =~= lits[0]);
                        } else {
                            assert(out@ =~= before + seq![' '] + lits[i as int]);
                        }
                    }
                    i = i + 1;
                }
                proof {
                    assert(lits.take(i as int) =~= lits);
                }
            },
        }
        out
    }
}

/// The match expression for what `input` asks, or none where it asks
/// nothing: the part of a search that comes before the search engine.
pub fn match_expression(input: &str) -> (r: Option<String>)
    ensures
        match r {
            Some(e) => parsed(input@) is Some && e@ == match_expr(parsed(input@)->0),
            None => parsed(input@) is None,
        },
{
    match Query::parse(input) {
        Some(q) => Some(q.to_match_expr()),
        None => None,
    }
}

// ----------------------------------------------------------------------
// What the search engine reads back
// ----------------------------------------------------------------------

/// How the search syntax reads the inside of a string literal: characters
/// up to a lone double quote, with a doubled double quote standing for one.
/// The result is the text read and what follows the closing quote; none if
/// the literal is never closed.
pub open spec fn read_literal_body(x: Seq<char>) -> Option<(Seq<char>, Seq<char>)>
    decreases x.len(),
{
    if x.len() == 0 {
        None
    } else if x[0] == '"' {
        if x.len() >= 2 && x[1] == '"' {
            match read_literal_body(x.skip(2)) {
                Some((body, rest)) => Some((seq!['"'] + body, rest)),
                None => None,
            }
        } else {
            Some((seq![], x.drop_first()))
        }
    } else {
        match read_literal_body(x.drop_first()) {
            Some((body, rest)) => Some((seq![x[0]] + body, rest)),
            None => None,
        }
    }
}

/// How the search syntax reads a string literal at the start of `x`.
pub open spec fn read_literal(x: Seq<char>) -> Option<(Seq<char>, Seq<char>)> {
    if x.len() > 0 && x[0] == '"' {
        read_literal_body(x.drop_first())
    } else {
        None
    }
}

proof fn lemma_read_escaped(s: Seq<char>, rest: Seq<char>)
    requires
        rest.len() == 0 || rest[0] != '"',
    ensures
        read_literal_body(escaped(s) + seq!['"'] + rest) == Some((s, rest)),
    decreases s.len(),
{
    let x = escaped(s) + seq!['"'] + rest;
    if s.len() == 0 {
        assert(x =~= seq!['"'] + rest);
        assert(x.drop_first() =~= rest);
    } else {
        lemma_read_escaped(s.drop_first(), rest);
        let y = escaped(s.drop_first()) + seq!['"'] + rest;
        if s[0] == '"' {
            assert(x =~= seq!['"', '"'] + y);
            assert(x.skip(2) =~= y);
            assert(seq!['"'] + s.drop_first() =~= s);
        } else {
            assert(x =~= seq![s[0]] + y);
            assert(x.drop_first() =~= y);
            assert(seq![s[0]] + s.drop_first() =~= s);
        }
    }
}

/// Whatever the user typed, the search syntax reads a quoted literal back
/// as exactly that text and stops right after it, so long as what follows
/// does not itself begin with a double quote (in a match expression a
/// space or nothing follows).
pub proof fn law_literal_reads_back(s: Seq<char>, rest: Seq<char>)
    requires
        rest.len() == 0 || rest[0] != '"',
    ensures
        read_literal(quote_literal(s) + rest) == Some((s, rest)),
{
    lemma_read_escaped(s, rest);
    assert((quote_literal(s) + rest).drop_first() =~= escaped(s) + seq!['"'] + rest);
}

pub proof fn lemma_read_body_shorter(x: Seq<char>)
    ensures
        read_literal_body(x) matches Some((b, r)) ==> r.len() < x.len(),
    decreases x.len(),
{
    if x.len() > 0 {
        if x[0] == '"' {
            if x.len() >= 2 && x[1] == '"' {
                lemma_read_body_shorter(x.skip(2));
            }
        } else {
            lemma_read_body_shorter(x.drop_first());
        }
    }
}

/// How the search syntax reads a match expression made of string literals
/// separated by single spaces: the texts of the literals, in order.
pub open spec fn read_literals(x: Seq<char>) -> Option<Seq<Seq<char>>>
    decreases x.len(),
{
    match read_literal(x) {
        None => None,
        Some((text, rest)) => {
            if rest.len() == 0 {
                Some(seq![text])
            } else if rest[0] == ' ' {
                proof {
                    lemma_read_body_shorter(x.drop_first());
                }
                match read_literals(rest.drop_first()) {
                    Some(more) => Some(seq![text] + more),
                    None => None,
                }
            } else {
                None
            }
        },
    }
}

proof fn lemma_join_front(ws: Seq<Seq<char>>, sep: Seq<char>)
    requires
        ws.len() >= 2,
    ensures
        join(ws, sep) == ws[0] + sep + join(ws.drop_first(), sep),
    decreases ws.len(),
{
    if ws.len() == 2 {
        assert(ws.drop_last() =~= seq![ws[0]]);
        assert(ws.drop_first() =~= seq![ws[1]]);
        assert(join(ws.drop_last(), sep) == ws[0]);
        assert(join(ws.drop_first(), sep) == ws[1]);
        assert(join(ws, sep) == join(ws.drop_last(), sep) + sep + ws.last());
    } else {
        lemma_join_front(ws.drop_last(), sep);
        assert(ws.drop_last().drop_first() =~= ws.drop_first().drop_last());
        assert(ws.drop_last()[0] == ws[0]);
        assert(ws.drop_first().last() == ws.last());
        assert(join(ws, sep) == join(ws.drop_last(), sep) + sep + ws.last());
        assert(join(ws.drop_first(), sep) == join(ws.drop_first().drop_last(), sep) + sep
            + ws.drop_first().last());
        assert(join(ws, sep) =~= ws[0] + sep + join(ws.drop_first(), sep));
    }
}

proof fn lemma_read_terms(ts: Seq<Seq<char>>)
    requires
        ts.len() > 0,
    ensures
        read_literals(join(ts.map_values(|t: Seq<char>| quote_literal(t)), seq![' '])) == Some(ts),
    decreases ts.len(),
{
    let lits = ts.map_values(|t: Seq<char>| quote_literal(t));
    if ts.len() == 1 {
        law_literal_reads_back(ts[0], seq![]);
        assert(quote_literal(ts[0]) + seq![] =~= quote_literal(ts[0]));
        assert(seq![ts[0]] =~= ts);
    } else {
        lemma_join_front(lits, seq![' ']);
        let tail = ts.drop_first();
        assert(lits.drop_first() =~= tail.map_values(|t: Seq<char>| quote_literal(t)));
        lemma_read_terms(tail);
        let rest = seq![' '] + join(lits.drop_first(), seq![' ']);
        law_literal_reads_back(ts[0], rest);
        assert(join(lits, seq![' ']) =~= quote_literal(ts[0]) + rest);
        assert(rest.drop_first() =~= join(lits.drop_first(), seq![' ']));
        assert(seq![ts[0]] + tail =~= ts);
    }
}

/// The search syntax reads a query's match expression back as exactly the
/// query: one literal holding the phrase, or one literal per word, in
/// order. No user text can turn into an operator.
pub proof fn law_match_expr_reads_back(q: QueryView)
    requires
        q matches QueryView::Terms(ts) ==> ts.len() > 0,
    ensures
        read_literals(match_expr(q)) == Some(
            match q {
                QueryView::Phrase(p) => seq![p],
                QueryView::Terms(ts) => ts,
            },
        ),
{
    match q {
        QueryView::Phrase(p) => {
            law_literal_reads_back(p, seq![]);
            assert(quote_literal(p) + seq![] =~= quote_literal(p));
        },
        QueryView::Terms(ts) => {
            lemma_read_terms(ts);
        },
    }
}

/// A query, once parsed, has something to search for: a non-empty phrase
/// or at least one word, and no word holds whitespace.
pub proof fn law_parsed_is_not_empty(input: Seq<char>)
    ensures
        parsed(input) matches Some(QueryView::Phrase(p)) ==> p.len() > 0,
        parsed(input) matches Some(QueryView::Terms(ts)) ==> ts.len() > 0 && forall|i: int|
            0 <= i < ts.len() ==> #[trigger] ts[i].len() > 0 && forall|j: int|
                0 <= j < ts[i].len() ==> !crate::text::is_ws(#[trigger] ts[i][j]),
{
    crate::text::lemma_split_ws_words(trim(input));
}

} // verus!
