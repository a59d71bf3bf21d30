//! What the bot's commands compute: reading a quote request, rendering
//! quotes, splitting long replies into messages, and the text of each reply.
use core::time::Duration;
use time::format_description::well_known::Rfc2822;
use time::OffsetDateTime;
use vstd::prelude::*;

use crate::db::{Quote, QuoteId, SubmittedAt};
use crate::text::{
    chars_of, dec, digit, int_text, join, push_char, push_decimal, push_int, push_str, slice_chars,
    string_from, string_of, trim, trim_chars, utf8_len, views, lemma_utf8_len_concat,
};
use crate::unicode::{all_ascii, ascii_lowercase, str_lowercase, to_lowercase};

verus! {

/// The longest message, in bytes, that Discord accepts.
pub const DISCORD_MESSAGE_LIMIT: usize = 2000;

// ----------------------------------------------------------------------
// Reading a quote request
// ----------------------------------------------------------------------

/// What a `quote` command asks for.
#[derive(Debug, Clone, PartialEq, Eq)]
pub enum QuoteRequest {
    Random,
    ById(QuoteId),
    InvalidId(String),
    Search(String),
}

/// What a quote request means.
pub enum RequestView {
    Random,
    ById(i64),
    InvalidId(Seq<char>),
    Search(Seq<char>),
}

impl View for QuoteRequest {
    type V = RequestView;

    open spec fn view(&self) -> RequestView {
        match self {
            QuoteRequest::Random => RequestView::Random,
            QuoteRequest::ById(id) => RequestView::ById(id.0),
            QuoteRequest::InvalidId(t) => RequestView::InvalidId(t@),
            QuoteRequest::Search(t) => RequestView::Search(t@),
        }
    }
}

/// An ASCII decimal digit.
pub open spec fn is_digit(c: char) -> bool {
    '0' <= c && c <= '9'
}

/// The value of a string of decimal digits.
pub open spec fn digits_value(s: Seq<char>) -> nat
    decreases s.len(),
{
    if s.len() == 0 {
        0
    } else {
        digits_value(s.drop_last()) * 10 + ((s.last() as u32) - 48) as nat
    }
}

/// `s` without a leading `+` or `-`.
pub open spec fn unsigned_part(s: Seq<char>) -> Seq<char> {
    if s.len() > 0 && (s[0] == '-' || s[0] == '+') {
        s.drop_first()
    } else {
        s
    }
}

/// `d` is one or more ASCII digits.
pub open spec fn all_digits(d: Seq<char>) -> bool {
    d.len() > 0 && forall|i: int| 0 <= i < d.len() ==> is_digit(#[trigger] d[i])
}

/// The signed value that `s` spells, if its unsigned part is digits.
pub open spec fn signed_value(s: Seq<char>) -> int {
    if s.len() > 0 && s[0] == '-' {
        -(digits_value(unsigned_part(s)) as int)
    } else {
        digits_value(unsigned_part(s)) as int
    }
}

/// The `i64` that `s` spells the way `str::parse::<i64>` reads it: an
/// optional `+` or `-`, then one or more ASCII digits, with a value that
/// fits.
pub open spec fn parse_int(s: Seq<char>) -> Option<i64> {
    if all_digits(unsigned_part(s)) && i64::MIN <= signed_value(s) <= i64::MAX {
        Some(signed_value(s) as i64)
    } else {
        None
    }
}

/// The prefix that asks for a quote by id.
pub open spec fn id_prefix() -> Seq<char> {
    seq!['i', 'd', ':']
}

/// What `arg` asks for: nothing (or only whitespace) asks for a random
/// quote; `id:` followed by a number asks for that quote, followed by
/// anything else is an invalid id; any other text is a search.
pub open spec fn request_of(arg: Option<Seq<char>>) -> RequestView {
    match arg {
        None => RequestView::Random,
        Some(a) => {
            let t = trim(a);
            if t.len() == 0 {
                RequestView::Random
            } else if t.len() >= 3 && t.take(3) == id_prefix() {
                let rest = trim(t.skip(3));
                match parse_int(rest) {
                    Some(v) => RequestView::ById(v),
                    None => RequestView::InvalidId(rest),
                }
            } else {
                RequestView::Search(t)
            }
        },
    }
}

proof fn lemma_digits_value_grows(s: Seq<char>, i: int)
    requires
        0 <= i <= s.len(),
    ensures
        digits_value(s.take(i)) <= digits_value(s),
    decreases s.len() - i,
{
    if i < s.len() {
        lemma_digits_value_grows(s, i + 1);
        assert(s.take(i + 1).drop_last() =~= s.take(i));
    } else {
        assert(s.take(i) =~= s);
    }
}

/// The `i64` that `s` spells, read as `str::parse::<i64>` reads it.
pub fn parse_i64(s: &[char]) -> (r: Option<i64>)
    ensures
        r == parse_int(s@),
{
    let n = s.len();
    if n == 0 {
        return None;
    }
    let negative = s[0] == '-';
    let start: usize = if s[0] == '-' || s[0] == '+' {
        1
    } else {
        0
    };
    let ghost digits = s@.skip(start as int);
    proof {
        if start == 1 {
            assert(digits =~= s@.drop_first());
        } else {
            assert(digits =~= s@);
        }
    }
    if start == n {
        proof {
            assert(digits.len() == 0);
        }
        return None;
    }
    let limit: u128 = 9223372036854775808;
    let mut acc: u128 = 0;
    let mut i: usize = start;
    proof {
        assert(digits.take(0) =~= seq![]);
    }
    while i < n
        invariant
            start <= i <= n,
            n == s@.len(),
            digits == s@.skip(start as int),
            digits == unsigned_part(s@),
            negative == (s@[0] == '-'),
            limit == 9223372036854775808,
            acc == digits_value(digits.take(i - start)),
            acc <= limit,
            forall|k: int| 0 <= k < i - start ==> is_digit(#[trigger] digits[k]),
        decreases n - i,
    {
        let c = s[i];
        if !('0' <= c && c <= '9') {
            proof {
                assert(digits[i - start] == s@[i as int]);
                assert(!is_digit(digits[i - start]));
                assert(digits.len() > 0);
                assert(!all_digits(digits));
            }
            return None;
        }
        let d = (c as u32 - 48) as u128;
        proof {
            assert(digits.take(i - start + 1).drop_last() =~= digits.take(i - start));
            assert(digits.take(i - start + 1).last() == c);
        }
        proof {
            assert(acc * 10 <= 92233720368547758080) by (nonlinear_arith)
                requires
                    acc <= 9223372036854775808,
            ;
        }
        acc = acc * 10 + d;
        i = i + 1;
        if acc > limit {
            proof {
                lemma_digits_value_grows(digits, i - start);
            }
            return None;
        }
    }
    proof {
        assert(digits.take(i - start) =~= digits);
        assert(acc == digits_value(digits));
    }
    if negative {
        if acc == limit {
            Some(-9223372036854775807i64 - 1)
        } else {
            Some(0i64 - (acc as i64))
        }
    } else if acc < limit {
        Some(acc as i64)
    } else {
        None
    }
}

/// What `arg` asks for.
pub fn parse_quote_request(arg: Option<&str>) -> (r: QuoteRequest)
    ensures
        r@ == request_of(
            match arg {
                Some(a) => Some(a@),
                None => None,
            },
        ),
{
    let a = match arg {
        Some(a) => a,
        None => return QuoteRequest::Random,
    };
    let t = trim_chars(a);
    let n = t.len();
    if n == 0 {
        return QuoteRequest::Random;
    }
    if n >= 3 && t[0] == 'i' && t[1] == 'd' && t[2] == ':' {
        proof {
            assert(t@.take(3) =~= id_prefix());
        }
        let after = slice_chars(t.as_slice(), 3, n);
        let (a, b) = crate::text::trim_bounds(after.as_slice());
        let rest = slice_chars(after.as_slice(), a, b);
        proof {
            assert(after@ =~= t@.skip(3));
        }
        match parse_i64(rest.as_slice()) {
            Some(id) => QuoteRequest::ById(QuoteId(id)),
            None => QuoteRequest::InvalidId(string_of(rest.as_slice())),
        }
    } else {
        proof {
            if n >= 3 {
                assert(t@.take(3)[0] == t@[0]);
                assert(t@.take(3)[1] == t@[1]);
                assert(t@.take(3)[2] == t@[2]);
                assert(t@.take(3) != id_prefix());
            }
        }
        QuoteRequest::Search(string_of(t.as_slice()))
    }
}

proof fn lemma_digit_value(d: nat)
    requires
        d < 10,
    ensures
        is_digit(crate::text::digit(d)),
        (crate::text::digit(d) as u32) == 48 + d,
{
    assert('0' as u32 == 48);
    assert('1' as u32 == 49);
    assert('2' as u32 == 50);
    assert('3' as u32 == 51);
    assert('4' as u32 == 52);
    assert('5' as u32 == 53);
    assert('6' as u32 == 54);
    assert('7' as u32 == 55);
    assert('8' as u32 == 56);
    assert('9' as u32 == 57);
}

proof fn lemma_dec_digits(n: nat)
    ensures
        dec(n).len() > 0,
        forall|i: int| 0 <= i < dec(n).len() ==> is_digit(#[trigger] dec(n)[i]),
        digits_value(dec(n)) == n,
    decreases n,
{
    lemma_digit_value(n % 10);
    if n < 10 {
        assert(dec(n).drop_last() =~= seq![]);
        assert(dec(n).last() == crate::text::digit(n));
        assert(digits_value(dec(n)) == digits_value(dec(n).drop_last()) * 10 + ((dec(n).last() as u32)
            - 48) as nat);
    }
    if n >= 10 {
        lemma_dec_digits(n / 10);
        assert(dec(n).drop_last() =~= dec(n / 10));
        assert(dec(n).last() == crate::text::digit(n % 10));
        assert(digits_value(dec(n)) == digits_value(dec(n / 10)) * 10 + ((dec(n).last() as u32)
            - 48) as nat);
        assert((n / 10) * 10 + n % 10 == n);
        assert forall|i: int| 0 <= i < dec(n).len() implies is_digit(#[trigger] dec(n)[i]) by {
            if i < dec(n / 10).len() {
                assert(dec(n)[i] == dec(n / 10)[i]);
            }
        }
    }
}

/// Reading back the decimal rendering of an `i64` gives the same `i64`:
/// every id the bot shows can be asked for with `id:`.
pub proof fn law_ids_read_back(n: i64)
    ensures
        parse_int(int_text(n as int)) == Some(n),
{
    if n < 0 {
        let m = (-(n as int)) as nat;
        lemma_dec_digits(m);
        let t = int_text(n as int);
        assert(t[0] == '-');
        assert(t.drop_first() =~= dec(m));
        assert(unsigned_part(t) == dec(m));
    } else {
        let m = n as nat;
        lemma_dec_digits(m);
        let t = int_text(n as int);
        assert(is_digit(t[0]));
        assert(unsigned_part(t) == dec(m));
    }
}

// ----------------------------------------------------------------------
// Sanitizing quotes
// ----------------------------------------------------------------------

/// The first place where an emoji token (`<:`) opens in `t`.
pub open spec fn first_open(t: Seq<char>) -> Option<int>
    decreases t.len(),
{
    if t.len() < 2 {
        None
    } else if t[0] == '<' && t[1] == ':' {
        Some(0)
    } else {
        match first_open(t.drop_first()) {
            Some(k) => Some(k + 1),
            None => None,
        }
    }
}

/// The first `>` in `t`.
pub open spec fn first_close(t: Seq<char>) -> Option<int>
    decreases t.len(),
{
    if t.len() == 0 {
        None
    } else if t[0] == '>' {
        Some(0)
    } else {
        match first_close(t.drop_first()) {
            Some(k) => Some(k + 1),
            None => None,
        }
    }
}

/// `t` without its asterisks.
pub open spec fn without_stars(t: Seq<char>) -> Seq<char>
    decreases t.len(),
{
    if t.len() == 0 {
        seq![]
    } else if t.last() == '*' {
        without_stars(t.drop_last())
    } else {
        without_stars(t.drop_last()).push(t.last())
    }
}

pub proof fn lemma_first_open_bounds(t: Seq<char>)
    ensures
        first_open(t) matches Some(i) ==> 0 <= i && i + 2 <= t.len() && t[i] == '<' && t[i + 1]
            == ':',
    decreases t.len(),
{
    if t.len() >= 2 && !(t[0] == '<' && t[1] == ':') {
        lemma_first_open_bounds(t.drop_first());
    }
}

pub proof fn lemma_first_close_bounds(t: Seq<char>)
    ensures
        first_close(t) matches Some(j) ==> 0 <= j < t.len() && t[j] == '>',
    decreases t.len(),
{
    if t.len() > 0 && t[0] != '>' {
        lemma_first_close_bounds(t.drop_first());
    }
}

/// `s` with the asterisks removed from inside every emoji token, a token
/// running from `<:` to the next `>`; an unterminated token is left as it
/// is.
pub open spec fn sanitized(s: Seq<char>) -> Seq<char>
    decreases s.len(),
{
    match first_open(s) {
        None => s,
        Some(i) => {
            let after = s.skip(i);
            match first_close(after) {
                None => s,
                Some(j) => {
                    proof {
                        lemma_first_open_bounds(s);
                        lemma_first_close_bounds(after);
                    }
                    s.take(i) + without_stars(after.take(j + 1)) + sanitized(after.skip(j + 1))
                },
            }
        },
    }
}

proof fn lemma_without_stars_concat(a: Seq<char>, b: Seq<char>)
    ensures
        without_stars(a + b) == without_stars(a) + without_stars(b),
    decreases b.len(),
{
    if b.len() == 0 {
        assert(a + b =~= a);
        assert(without_stars(a) + without_stars(b) =~= without_stars(a));
    } else {
        assert((a + b).drop_last() =~= a + b.drop_last());
        lemma_without_stars_concat(a, b.drop_last());
        if b.last() == '*' {
        } else {
            assert(without_stars(a + b) =~= without_stars(a) + without_stars(b.drop_last()).push(
                b.last(),
            ));
        }
    }
}

proof fn lemma_without_stars_twice(a: Seq<char>)
    ensures
        without_stars(without_stars(a)) == without_stars(a),
    decreases a.len(),
{
    if a.len() > 0 {
        lemma_without_stars_twice(a.drop_last());
        if a.last() != '*' {
            let w = without_stars(a.drop_last());
            assert(without_stars(a) == w.push(a.last()));
            assert(w.push(a.last()).drop_last() =~= w);
        }
    }
}

/// Sanitizing removes asterisks and nothing else: with every asterisk
/// taken out, the sanitized quote and the quote are the same text.
pub proof fn law_sanitize_only_removes_asterisks(s: Seq<char>)
    ensures
        without_stars(sanitized(s)) == without_stars(s),
    decreases s.len(),
{
    match first_open(s) {
        None => {},
        Some(i) => {
            let after = s.skip(i);
            match first_close(after) {
                None => {},
                Some(j) => {
                    lemma_first_open_bounds(s);
                    lemma_first_close_bounds(after);
                    let head = s.take(i);
                    let token = after.take(j + 1);
                    let rest = after.skip(j + 1);
                    law_sanitize_only_removes_asterisks(rest);
                    lemma_without_stars_concat(head + without_stars(token), sanitized(rest));
                    lemma_without_stars_concat(head, without_stars(token));
                    lemma_without_stars_twice(token);
                    assert(s =~= head + token + rest);
                    lemma_without_stars_concat(head + token, rest);
                    lemma_without_stars_concat(head, token);
                },
            }
        },
    }
}

/// No emoji token opens in `t` before the first one found.
proof fn lemma_first_open_least(t: Seq<char>)
    ensures
        first_open(t) matches Some(i) ==> forall|k: int|
            #![trigger t[k]]
            0 <= k < i ==> !(t[k] == '<' && t[k + 1] == ':'),
    decreases t.len(),
{
    if t.len() >= 2 && !(t[0] == '<' && t[1] == ':') {
        lemma_first_open_least(t.drop_first());
        lemma_first_open_bounds(t);
        if first_open(t) is Some {
            let i = first_open(t)->0;
            assert forall|k: int| #![trigger t[k]] 0 <= k < i implies !(t[k] == '<' && t[k + 1]
                == ':') by {
                if k > 0 {
                    assert(t[k] == t.drop_first()[k - 1]);
                    assert(t[k + 1] == t.drop_first()[k]);
                }
            }
        }
    }
}

/// No `>` stands in `t` before the first one found.
proof fn lemma_first_close_least(t: Seq<char>)
    ensures
        first_close(t) matches Some(j) ==> forall|k: int| 0 <= k < j ==> #[trigger] t[k] != '>',
    decreases t.len(),
{
    if t.len() > 0 && t[0] != '>' {
        lemma_first_close_least(t.drop_first());
        lemma_first_close_bounds(t);
        if first_close(t) is Some {
            let j = first_close(t)->0;
            assert forall|k: int| 0 <= k < j implies #[trigger] t[k] != '>' by {
                if k > 0 {
                    assert(t[k] == t.drop_first()[k - 1]);
                }
            }
        }
    }
}

/// An emoji token that opens at `i`, with none before, is the first one.
proof fn lemma_first_open_is(t: Seq<char>, i: int)
    requires
        0 <= i,
        i + 1 < t.len(),
        t[i] == '<',
        t[i + 1] == ':',
        forall|k: int| #![trigger t[k]] 0 <= k < i ==> !(t[k] == '<' && t[k + 1] == ':'),
    ensures
        first_open(t) == Some(i),
    decreases i,
{
    if i > 0 {
        let d = t.drop_first();
        assert(!(t[0] == '<' && t[1] == ':'));
        assert forall|k: int| #![trigger d[k]] 0 <= k < i - 1 implies !(d[k] == '<' && d[k + 1]
            == ':') by {
            assert(d[k] == t[k + 1]);
            assert(d[k + 1] == t[k + 2]);
        }
        lemma_first_open_is(d, i - 1);
    }
}

/// A `>` at `j`, with none before, is the first one.
proof fn lemma_first_close_is(t: Seq<char>, j: int)
    requires
        0 <= j < t.len(),
        t[j] == '>',
        forall|k: int| 0 <= k < j ==> #[trigger] t[k] != '>',
    ensures
        first_close(t) == Some(j),
    decreases j,
{
    if j > 0 {
        let d = t.drop_first();
        assert(t[0] != '>');
        assert forall|k: int| 0 <= k < j - 1 implies #[trigger] d[k] != '>' by {
            assert(d[k] == t[k + 1]);
        }
        lemma_first_close_is(d, j - 1);
    }
}

/// Taking out asterisks brings in no character that was not there.
proof fn lemma_without_stars_lacks(x: Seq<char>, c: char)
    requires
        forall|k: int| 0 <= k < x.len() ==> #[trigger] x[k] != c,
    ensures
        forall|k: int| 0 <= k < without_stars(x).len() ==> #[trigger] without_stars(x)[k] != c,
    decreases x.len(),
{
    if x.len() > 0 {
        let d = x.drop_last();
        assert forall|k: int| 0 <= k < d.len() implies #[trigger] d[k] != c by {
            assert(d[k] == x[k]);
        }
        lemma_without_stars_lacks(d, c);
        if x.last() == '*' {
            assert(without_stars(x) == without_stars(d));
        } else {
            let w = without_stars(d);
            assert(without_stars(x) == w.push(x.last()));
            assert forall|k: int| 0 <= k < w.push(x.last()).len() implies #[trigger] w.push(
                x.last(),
            )[k] != c by {
                if k < w.len() {
                    assert(w.push(x.last())[k] == w[k]);
                } else {
                    assert(x[x.len() - 1] != c);
                }
            }
        }
    }
}

/// Sanitizing a sanitized quote changes nothing: the cleaned tokens open
/// and close where they did, and hold no asterisk left to remove.
pub proof fn law_sanitize_is_idempotent(s: Seq<char>)
    ensures
        sanitized(sanitized(s)) == sanitized(s),
    decreases s.len(),
{
    match first_open(s) {
        None => {},
        Some(i) => {
            let after = s.skip(i);
            match first_close(after) {
                None => {},
                Some(j) => {
                    lemma_first_open_bounds(s);
                    lemma_first_close_bounds(after);
                    lemma_first_open_least(s);
                    lemma_first_close_least(after);
                    let head = s.take(i);
                    let token = after.take(j + 1);
                    let rest = after.skip(j + 1);
                    law_sanitize_is_idempotent(rest);
                    assert(after[0] == '<' && after[1] == ':');
                    assert(after[0] != '>' && after[1] != '>');
                    let mid = token.subrange(2, j);
                    assert(token =~= seq!['<', ':'] + mid + seq!['>']);
                    lemma_without_stars_concat(seq!['<', ':'] + mid, seq!['>']);
                    lemma_without_stars_concat(seq!['<', ':'], mid);
                    assert(seq!['<', ':'].drop_last() =~= seq!['<']);
                    assert(seq!['<'].drop_last() =~= Seq::<char>::empty());
                    assert(seq!['>'].drop_last() =~= Seq::<char>::empty());
                    assert(without_stars(Seq::<char>::empty()) =~= Seq::<char>::empty());
                    assert(seq!['<'].last() == '<');
                    assert(seq!['<', ':'].last() == ':');
                    assert(seq!['>'].last() == '>');
                    assert(without_stars(seq!['<']) =~= seq!['<']);
                    assert(without_stars(seq!['<', ':']) =~= seq!['<', ':']);
                    assert(without_stars(seq!['>']) =~= seq!['>']);
                    assert forall|k: int| 0 <= k < mid.len() implies #[trigger] mid[k] != '>' by {
                        assert(mid[k] == after[k + 2]);
                    }
                    lemma_without_stars_lacks(mid, '>');
                    let wm = without_stars(mid);
                    let w = without_stars(token);
                    assert(w =~= seq!['<', ':'] + wm + seq!['>']);
                    let r2 = sanitized(rest);
                    let out = head + w + r2;
                    assert(sanitized(s) == out);
                    assert forall|k: int| #![trigger out[k]] 0 <= k < i implies !(out[k] == '<'
                        && out[k + 1] == ':') by {
                        assert(out[k] == s[k]);
                        if k + 1 < i {
                            assert(out[k + 1] == s[k + 1]);
                            assert(!(s[k] == '<' && s[k + 1] == ':'));
                        } else {
                            assert(out[k + 1] == w[0]);
                        }
                    }
                    assert(out[i] == w[0] && out[i + 1] == w[1]);
                    lemma_first_open_is(out, i);
                    let after2 = out.skip(i);
                    assert(after2 =~= w + r2);
                    assert forall|k: int| 0 <= k < w.len() - 1 implies #[trigger] after2[k]
                        != '>' by {
                        assert(after2[k] == w[k]);
                        if k >= 2 {
                            assert(w[k] == wm[k - 2]);
                        }
                    }
                    lemma_first_close_is(after2, w.len() - 1);
                    assert(after2.take(w.len() as int) =~= w);
                    assert(after2.skip(w.len() as int) =~= r2);
                    assert(out.take(i) =~= head);
                    lemma_without_stars_twice(token);
                },
            }
        },
    }
}

/// Text without an emoji token is left exactly as it is.
pub proof fn law_plain_text_untouched(s: Seq<char>)
    requires
        first_open(s) is None,
    ensures
        sanitized(s) == s,
{
}

/// Shifts a found position by `k`.
pub open spec fn shifted(p: Option<int>, k: int) -> Option<int> {
    match p {
        Some(x) => Some(x + k),
        None => None,
    }
}

/// Appends `v[from..to]` without its asterisks.
fn push_without_stars(out: &mut String, v: &[char], from: usize, to: usize)
    requires
        from <= to <= v@.len(),
    ensures
        final(out)@ == old(out)@ + without_stars(v@.subrange(from as int, to as int)),
{
    let ghost start = out@;
    let mut k: usize = from;
    proof {
        assert(v@.subrange(from as int, from as int) =~= seq![]);
    }
    while k < to
        invariant
            from <= k <= to <= v@.len(),
            out@ == start + without_stars(v@.subrange(from as int, k as int)),
        decreases to - k,
    {
        proof {
            assert(v@.subrange(from as int, k + 1).drop_last() =~= v@.subrange(
                from as int,
                k as int,
            ));
        }
        if v[k] != '*' {
            push_char(out, v[k]);
        }
        k = k + 1;
    }
}

/// The first place at or after `from` where an emoji token opens in `v`,
/// or the length of `v` if there is none.
fn find_open(v: &[char], from: usize) -> (i: usize)
    requires
        from <= v@.len(),
    ensures
        from <= i <= v@.len(),
        i < v@.len() ==> first_open(v@.skip(from as int)) == Some(i - from),
        i == v@.len() ==> first_open(v@.skip(from as int)) is None,
{
    let n = v.len();
    let mut i: usize = from;
    proof {
        assert(v@.skip(from as int) =~= v@.skip(i as int));
    }
    while n - i > 1 && !(v[i] == '<' && v[i + 1] == ':')
        invariant
            from <= i <= n,
            n == v@.len(),
            first_open(v@.skip(from as int)) == shifted(first_open(v@.skip(i as int)), i - from),
        decreases n - i,
    {
        proof {
            assert(v@.skip(i as int).drop_first() =~= v@.skip(i + 1));
        }
        i = i + 1;
    }
    if n - i <= 1 {
        proof {
            assert(first_open(v@.skip(i as int)) is None);
        }
        n
    } else {
        proof {
            assert(first_open(v@.skip(i as int)) == Some(0int));
        }
        i
    }
}

/// The first `>` at or after `from` in `v`, or the length of `v` if there
/// is none.
fn find_close(v: &[char], from: usize) -> (j: usize)
    requires
        from <= v@.len(),
    ensures
        from <= j <= v@.len(),
        j < v@.len() ==> first_close(v@.skip(from as int)) == Some(j - from),
        j == v@.len() ==> first_close(v@.skip(from as int)) is None,
{
    let n = v.len();
    let mut j: usize = from;
    while j < n && v[j] != '>'
        invariant
            from <= j <= n,
            n == v@.len(),
            first_close(v@.skip(from as int)) == shifted(first_close(v@.skip(j as int)), j - from),
        decreases n - j,
    {
        proof {
            assert(v@.skip(j as int).drop_first() =~= v@.skip(j + 1));
        }
        j = j + 1;
    }
    j
}

/// One step of sanitizing: the text that `sanitized` gives before its
/// recursive call, for a token that opens at `i` and closes at `j`.
proof fn lemma_sanitized_step(v: Seq<char>, pos: int, i: int, j: int)
    requires
        0 <= pos <= i <= j < v.len(),
        first_open(v.skip(pos)) == Some(i - pos),
        first_close(v.skip(i)) == Some(j - i),
    ensures
        sanitized(v.skip(pos)) == v.subrange(pos, i) + without_stars(v.subrange(i, j + 1))
            + sanitized(v.skip(j + 1)),
{
    let s = v.skip(pos);
    let after = s.skip(i - pos);
    assert(after =~= v.skip(i));
    assert(s.take(i - pos) =~= v.subrange(pos, i));
    assert(after.take(j - i + 1) =~= v.subrange(i, j + 1));
    assert(after.skip(j - i + 1) =~= v.skip(j + 1));
}

/// `quote` with the asterisks removed from inside its emoji tokens, which
/// highlighting may have put there.
pub fn sanitize_quote(quote: &str) -> (r: String)
    ensures
        r@ == sanitized(quote@),
{
    let v = chars_of(quote);
    let n = v.len();
    let mut out = String::new();
    let mut pos: usize = 0;
    proof {
        assert(v@.skip(0) =~= v@);
    }
    while pos < n
        invariant
            0 <= pos <= n,
            n == v@.len(),
            v@ == quote@,
            sanitized(v@) == out@ + sanitized(v@.skip(pos as int)),
        decreases n - pos,
    {
        let i = find_open(v.as_slice(), pos);
        let j = if i < n {
            find_close(v.as_slice(), i)
        } else {
            n
        };
        if i == n || j == n {
            proof {
                let s = v@.skip(pos as int);
                if i < n {
                    assert(s.skip(i - pos) =~= v@.skip(i as int));
                }
                assert(sanitized(s) == s);
                assert(v@.subrange(pos as int, n as int) =~= s);
                assert(v@.skip(n as int) =~= seq![]);
                assert(first_open(v@.skip(n as int)) is None);
            }
            push_chars_range(&mut out, v.as_slice(), pos, n);
            pos = n;
        } else {
            proof {
                lemma_sanitized_step(v@, pos as int, i as int, j as int);
            }
            push_chars_range(&mut out, v.as_slice(), pos, i);
            push_without_stars(&mut out, v.as_slice(), i, j + 1);
            pos = j + 1;
        }
    }
    proof {
        assert(v@.skip(pos as int) =~= seq![]);
        assert(first_open(v@.skip(pos as int)) is None);
    }
    out
}

/// Appends `v[from..to]` to `out`.
fn push_chars_range(out: &mut String, v: &[char], from: usize, to: usize)
    requires
        from <= to <= v@.len(),
    ensures
        final(out)@ == old(out)@ + v@.subrange(from as int, to as int),
{
    let part = slice_chars(v, from, to);
    crate::text::push_chars(out, part.as_slice());
}

// ----------------------------------------------------------------------
// Splitting a reply into messages
// ----------------------------------------------------------------------

/// The messages that `lines` are gathered into: each line joins the
/// message before it, after a newline, when the result stays within
/// `limit` bytes; otherwise it starts a message of its own, however long
/// it is.
pub open spec fn chunks_of(lines: Seq<Seq<char>>, limit: nat) -> Seq<Seq<char>>
    decreases lines.len(),
{
    if lines.len() == 0 {
        seq![]
    } else {
        let prev = chunks_of(lines.drop_last(), limit);
        let line = lines.last();
        if prev.len() > 0 && utf8_len(prev.last()) + 1 + utf8_len(line) <= limit {
            prev.update(prev.len() - 1, prev.last() + seq!['\n'] + line)
        } else {
            prev.push(line)
        }
    }
}

/// Gathers `lines` into messages of at most `limit` bytes, keeping a line
/// that is longer on its own.
pub fn chunk_messages(lines: &[String], limit: usize) -> (r: Vec<String>)
    ensures
        views(r@) == chunks_of(views(lines@), limit as nat),
{
    let mut chunks: Vec<String> = Vec::new();
    let mut cur = String::new();
    let mut cur_len: usize = 0;
    let mut i: usize = 0;
    while i < lines.len()
        invariant
            0 <= i <= lines@.len(),
            (if i > 0 {
                views(chunks@).push(cur@)
            } else {
                views(chunks@)
            }) == chunks_of(views(lines@).take(i as int), limit as nat),
            i == 0 ==> chunks@.len() == 0,
            cur_len == utf8_len(cur@),
        decreases lines@.len() - i,
    {
        let line = &lines[i];
        let line_len = line.as_str().as_bytes().len();
        let ghost ls = views(lines@).take(i + 1);
        proof {
            assert(ls.drop_last() =~= views(lines@).take(i as int));
            assert(ls.last() == line@);

        }
        if i > 0 && cur_len < limit && line_len <= limit - cur_len - 1 {
            let ghost old_cur = cur@;
            push_char(&mut cur, '\n');
            push_str(&mut cur, line.as_str());
            proof {
                lemma_utf8_len_concat(old_cur, seq!['\n']);
                lemma_utf8_len_concat(old_cur + seq!['\n'], line@);
                assert(vstd::utf8::encode_utf8(seq!['\n']) =~= vstd::utf8::encode_scalar(
                    '\n' as u32,
                ) + vstd::utf8::encode_utf8(seq!['\n'].drop_first()));
                assert(vstd::utf8::encode_utf8(seq!['\n'].drop_first()) =~= seq![]);
                assert(utf8_len(seq!['\n']) == 1);
                assert(cur@ =~= old_cur + seq!['\n'] + line@);
                let prev = chunks_of(views(lines@).take(i as int), limit as nat);
                assert(prev == views(chunks@).push(old_cur));
                assert(prev.last() == old_cur);
                assert(utf8_len(prev.last()) + 1 + utf8_len(ls.last()) <= limit);
                assert(chunks_of(ls, limit as nat) == prev.update(
                    prev.len() - 1,
                    prev.last() + seq!['\n'] + ls.last(),
                ));
                assert(views(chunks@).push(old_cur).update(
                    views(chunks@).len() as int,
                    old_cur + seq!['\n'] + line@,
                ) =~= views(chunks@).push(cur@));
            }
            cur_len = cur_len + 1 + line_len;
        } else {
            if i > 0 {
                let ghost w = chunks@;
                chunks.push(cur);
                proof {
                    assert(views(chunks@) =~= views(w).push(cur@));
                }
            }
            cur = line.clone();
            cur_len = line_len;
            proof {
                let prev = chunks_of(views(lines@).take(i as int), limit as nat);
                if i == 0 {
                    assert(views(lines@).take(0) =~= seq![]);
                    assert(prev =~= seq![]);
                } else {
                    assert(prev.last() == views(chunks@).last());
                }
                assert(chunks_of(ls, limit as nat) == prev.push(ls.last()));
                assert(views(chunks@).push(cur@) =~= prev.push(ls.last()));
            }
        }
        i = i + 1;
    }
    if i > 0 {
        let ghost w = chunks@;
        chunks.push(cur);
        proof {
            assert(views(chunks@) =~= views(w).push(cur@));
        }
    }
    proof {
        assert(views(lines@).take(i as int) =~= views(lines@));
        if i == 0 {
            assert(views(lines@) =~= seq![]);
        }
    }
    chunks
}

proof fn lemma_join_update_last(ws: Seq<Seq<char>>, x: Seq<char>, sep: Seq<char>)
    requires
        ws.len() > 0,
    ensures
        join(ws.update(ws.len() - 1, ws.last() + sep + x), sep) == join(ws, sep) + sep + x,
{
    let u = ws.update(ws.len() - 1, ws.last() + sep + x);
    if ws.len() == 1 {
        assert(u[0] == ws[0] + sep + x);
    } else {
        assert(u.drop_last() =~= ws.drop_last());
        assert(join(ws, sep) == join(ws.drop_last(), sep) + sep + ws.last());
        assert(join(u, sep) == join(u.drop_last(), sep) + sep + u.last());
        assert(join(u, sep) =~= join(ws, sep) + sep + x);
    }
}

proof fn lemma_join_push(ws: Seq<Seq<char>>, x: Seq<char>, sep: Seq<char>)
    requires
        ws.len() > 0,
    ensures
        join(ws.push(x), sep) == join(ws, sep) + sep + x,
{
    assert(ws.push(x).drop_last() =~= ws);
}

/// Gathering lines into messages loses nothing and adds nothing: the
/// messages, put back together with newlines, are the lines put together
/// with newlines.
pub proof fn law_chunks_keep_the_text(lines: Seq<Seq<char>>, limit: nat)
    ensures
        join(chunks_of(lines, limit), seq!['\n']) == join(lines, seq!['\n']),
        chunks_of(lines, limit).len() <= lines.len(),
        lines.len() > 0 ==> chunks_of(lines, limit).len() > 0,
    decreases lines.len(),
{
    if lines.len() > 0 {
        let prev = chunks_of(lines.drop_last(), limit);
        law_chunks_keep_the_text(lines.drop_last(), limit);
        if lines.len() == 1 {
            assert(prev =~= seq![]);
            assert(chunks_of(lines, limit) =~= seq![lines.last()]);
        } else {
            assert(join(lines, seq!['\n']) == join(lines.drop_last(), seq!['\n']) + seq!['\n']
                + lines.last());
            if prev.len() > 0 && utf8_len(prev.last()) + 1 + utf8_len(lines.last()) <= limit {
                lemma_join_update_last(prev, lines.last(), seq!['\n']);
            } else {
                lemma_join_push(prev, lines.last(), seq!['\n']);
            }
        }
    }
}

/// Every message fits within the limit, except a single line that is
/// longer than the limit, which is sent whole.
pub proof fn law_chunks_fit(lines: Seq<Seq<char>>, limit: nat)
    ensures
        forall|k: int|
            0 <= k < chunks_of(lines, limit).len() ==> utf8_len(#[trigger] chunks_of(lines, limit)[k])
                <= limit || exists|i: int| 0 <= i < lines.len() && lines[i] == chunks_of(lines, limit)[k],
    decreases lines.len(),
{
    if lines.len() > 0 {
        let prev = chunks_of(lines.drop_last(), limit);
        let line = lines.last();
        law_chunks_fit(lines.drop_last(), limit);
        let cs = chunks_of(lines, limit);
        assert forall|k: int| 0 <= k < cs.len() implies utf8_len(#[trigger] cs[k]) <= limit
            || exists|i: int| 0 <= i < lines.len() && lines[i] == cs[k] by {
            if prev.len() > 0 && utf8_len(prev.last()) + 1 + utf8_len(line) <= limit {
                if k == prev.len() - 1 {
                    lemma_utf8_len_concat(prev.last(), seq!['\n']);
                    lemma_utf8_len_concat(prev.last() + seq!['\n'], line);
                    assert(vstd::utf8::encode_utf8(seq!['\n']) =~= vstd::utf8::encode_scalar(
                        '\n' as u32,
                    ) + vstd::utf8::encode_utf8(seq!['\n'].drop_first()));
                    assert(vstd::utf8::encode_utf8(seq!['\n'].drop_first()) =~= seq![]);
                } else {
                    assert(cs[k] == prev[k]);
                    if utf8_len(prev[k]) > limit {
                        let i = choose|i: int|
                            0 <= i < lines.drop_last().len() && lines.drop_last()[i] == prev[k];
                        assert(lines[i] == cs[k]);
                    }
                }
            } else {
                if k == prev.len() {
                    assert(lines[lines.len() - 1] == cs[k]);
                } else {
                    assert(cs[k] == prev[k]);
                    if utf8_len(prev[k]) > limit {
                        let i = choose|i: int|
                            0 <= i < lines.drop_last().len() && lines.drop_last()[i] == prev[k];
                        assert(lines[i] == cs[k]);
                    }
                }
            }
        }
    }
}

// ----------------------------------------------------------------------
// Durations
// ----------------------------------------------------------------------

/// The whole seconds that `Duration::as_secs` reports for `d`.
pub uninterp spec fn duration_secs(d: Duration) -> u64;

/// `Duration::as_secs`: the number of whole seconds in the duration. It is
/// a private field of `Duration`, so the result is named `duration_secs`
/// and nothing more is stated.
pub assume_specification[ Duration::as_secs ](d: &Duration) -> (r: u64)
    ensures
        r == duration_secs(*d),
;

/// How `total` seconds are shown: days, hours, minutes and seconds, from
/// the largest unit that is not zero.
pub open spec fn duration_text(total: nat) -> Seq<char> {
    let days = total / 86400;
    let hours = (total % 86400) / 3600;
    let minutes = (total % 3600) / 60;
    let seconds = total % 60;
    if days > 0 {
        dec(days) + seq!['d', ' '] + dec(hours) + seq!['h', ' '] + dec(minutes) + seq!['m', ' ']
            + dec(seconds) + seq!['s']
    } else if hours > 0 {
        dec(hours) + seq!['h', ' '] + dec(minutes) + seq!['m', ' '] + dec(seconds) + seq!['s']
    } else if minutes > 0 {
        dec(minutes) + seq!['m', ' '] + dec(seconds) + seq!['s']
    } else {
        dec(seconds) + seq!['s']
    }
}

/// The shown units add back up to the whole duration, and each unit but
/// the days stays below the next one.
pub proof fn law_duration_units(total: nat)
    ensures
        (total / 86400) * 86400 + ((total % 86400) / 3600) * 3600 + ((total % 3600) / 60) * 60
            + total % 60 == total,
        (total % 86400) / 3600 < 24,
        (total % 3600) / 60 < 60,
        total % 60 < 60,
{
    assert((total / 86400) * 86400 + ((total % 86400) / 3600) * 3600 + ((total % 3600) / 60) * 60
        + total % 60 == total) by (nonlinear_arith);
    assert((total % 86400) / 3600 < 24) by (nonlinear_arith);
    assert((total % 3600) / 60 < 60) by (nonlinear_arith);
}

/// Appends `n` followed by the unit character `u` and, unless it is the
/// last unit, a space.
fn push_unit(out: &mut String, n: u64, u: char, last: bool)
    ensures
        final(out)@ == old(out)@ + dec(n as nat) + (if last {
            seq![u]
        } else {
            seq![u, ' ']
        }),
{
    push_decimal(out, n as u128);
    push_char(out, u);
    if !last {
        push_char(out, ' ');
    }
    proof {
        if last {
            assert(final(out)@ =~= old(out)@ + dec(n as nat) + seq![u]);
        } else {
            assert(final(out)@ =~= old(out)@ + dec(n as nat) + seq![u, ' ']);
        }
    }
}

/// `duration` as days, hours, minutes and seconds, from the largest unit
/// that is not zero.
pub fn format_duration(duration: Duration) -> (r: String)
    ensures
        r@ == duration_text(duration_secs(duration) as nat),
{
    format_seconds(duration.as_secs())
}

/// `total_secs` seconds as days, hours, minutes and seconds, from the
/// largest unit that is not zero.
pub fn format_seconds(total_secs: u64) -> (r: String)
    ensures
        r@ == duration_text(total_secs as nat),
{
    let days = total_secs / 86400;
    let hours = (total_secs % 86400) / 3600;
    let minutes = (total_secs % 3600) / 60;
    let seconds = total_secs % 60;
    let mut out = String::new();
    if days > 0 {
        push_unit(&mut out, days, 'd', false);
    }
    if days > 0 || hours > 0 {
        push_unit(&mut out, hours, 'h', false);
    }
    if days > 0 || hours > 0 || minutes > 0 {
        push_unit(&mut out, minutes, 'm', false);
    }
    push_unit(&mut out, seconds, 's', true);
    proof {
        let t = total_secs as nat;
        if days > 0 {
            assert(out@ =~= duration_text(t));
        } else if hours > 0 {
            assert(out@ =~= duration_text(t));
        } else if minutes > 0 {
            assert(out@ =~= duration_text(t));
        } else {
            assert(out@ =~= duration_text(t));
        }
    }
    out
}

// ----------------------------------------------------------------------
// Rendering quotes
// ----------------------------------------------------------------------

/// `time::OffsetDateTime`, a date and time with an offset from UTC.
#[verifier::external_type_specification]
#[verifier::external_body]
pub struct ExOffsetDateTime(OffsetDateTime);

/// `time::error::ComponentRange`: a value was out of range.
#[verifier::external_type_specification]
#[verifier::external_body]
pub struct ExComponentRange(time::error::ComponentRange);

/// `time::error::Format`: a value could not be formatted.
#[verifier::external_type_specification]
#[verifier::external_body]
pub struct ExFormat(time::error::Format);

/// The Unix timestamps that `time` can represent (without its
/// `large-dates` feature): from -9999-01-01T00:00:00Z to
/// 9999-12-31T23:59:59Z.
pub open spec fn timestamp_in_range(ts: i64) -> bool {
    -377705116800 <= ts <= 253402300799
}

/// The date and time that `OffsetDateTime::from_unix_timestamp` gives for
/// a timestamp it accepts.
pub uninterp spec fn datetime_at(ts: i64) -> OffsetDateTime;

/// The date, in the proleptic Gregorian calendar, that lies `days` days
/// after 1970-01-01: its year, month (1 to 12) and day of the month.
pub open spec fn civil_from_days(days: int) -> (int, int, int) {
    let z = days + 719468;
    let era = z / 146097;
    let doe = z - era * 146097;
    let yoe = (doe - doe / 1460 + doe / 36524 - doe / 146096) / 365;
    let doy = doe - (365 * yoe + yoe / 4 - yoe / 100);
    let mp = (5 * doy + 2) / 153;
    let d = doy - (153 * mp + 2) / 5 + 1;
    let m = if mp < 10 {
        mp + 3
    } else {
        mp - 9
    };
    (yoe + era * 400 + (if m <= 2 {
        1int
    } else {
        0int
    }), m, d)
}

/// The abbreviated name of the weekday `w`, counted from Monday as 0.
pub open spec fn weekday_abbr(w: int) -> Seq<char> {
    if w == 0 {
        "Mon"@
    } else if w == 1 {
        "Tue"@
    } else if w == 2 {
        "Wed"@
    } else if w == 3 {
        "Thu"@
    } else if w == 4 {
        "Fri"@
    } else if w == 5 {
        "Sat"@
    } else {
        "Sun"@
    }
}

/// The abbreviated name of the month `m`, from 1 for January.
pub open spec fn month_abbr(m: int) -> Seq<char> {
    if m == 1 {
        "Jan"@
    } else if m == 2 {
        "Feb"@
    } else if m == 3 {
        "Mar"@
    } else if m == 4 {
        "Apr"@
    } else if m == 5 {
        "May"@
    } else if m == 6 {
        "Jun"@
    } else if m == 7 {
        "Jul"@
    } else if m == 8 {
        "Aug"@
    } else if m == 9 {
        "Sep"@
    } else if m == 10 {
        "Oct"@
    } else if m == 11 {
        "Nov"@
    } else {
        "Dec"@
    }
}

/// `n` (below 100) as two decimal digits.
pub open spec fn two_digits(n: int) -> Seq<char> {
    seq![digit((n / 10) as nat), digit((n % 10) as nat)]
}

/// `n` (below 10000) as four decimal digits.
pub open spec fn four_digits(n: int) -> Seq<char> {
    seq![
        digit((n / 1000) as nat),
        digit(((n / 100) % 10) as nat),
        digit(((n / 10) % 10) as nat),
        digit((n % 10) as nat),
    ]
}

/// The RFC 2822 text of the instant `ts` seconds after the Unix epoch, at
/// UTC (`Thu, 01 Jan 1970 00:00:00 +0000`), or none where its year is
/// before 1900, which RFC 2822 cannot write.
pub open spec fn rfc2822_text(ts: int) -> Option<Seq<char>> {
    let days = ts / 86400;
    let secs = ts % 86400;
    let (y, m, d) = civil_from_days(days);
    if y < 1900 {
        None
    } else {
        Some(
            weekday_abbr((days + 3) % 7) + ", "@ + two_digits(d) + " "@ + month_abbr(m) + " "@
                + four_digits(y) + " "@ + two_digits(secs / 3600) + ":"@ + two_digits(
                (secs % 3600) / 60,
            ) + ":"@ + two_digits(secs % 60) + " +0000"@,
        )
    }
}

/// Calls `OffsetDateTime::from_unix_timestamp`, which succeeds exactly for
/// the timestamps between `Date::MIN` and the end of `Date::MAX`; the
/// date and time it gives is named `datetime_at`.
#[verifier::external_body]
fn datetime_from_unix(ts: i64) -> (r: Result<OffsetDateTime, time::error::ComponentRange>)
    ensures
        r is Ok <==> timestamp_in_range(ts),
        r matches Ok(dt) ==> dt == datetime_at(ts),
{
    OffsetDateTime::from_unix_timestamp(ts)
}

/// Calls `OffsetDateTime::format` with the RFC 2822 description. For the
/// date and time of a timestamp at UTC, it fails where the year is before
/// 1900 and otherwise writes the abbreviated weekday, a comma, the day in
/// two digits, the abbreviated month, the year in four digits, the time as
/// `hh:mm:ss` and the offset `+0000`, separated by single spaces.
#[verifier::external_body]
fn format_rfc2822(dt: OffsetDateTime) -> (r: Result<String, time::error::Format>)
    ensures
        forall|ts: i64|
            timestamp_in_range(ts) && #[trigger] datetime_at(ts) == dt ==> (r is Ok
                <==> rfc2822_text(ts as int) is Some) && (r matches Ok(text) ==> rfc2822_text(
                ts as int,
            ) == Some(text@)),
{
    dt.format(&Rfc2822)
}

/// The text shown for a submission time: its RFC 2822 rendering where
/// there is one, else the timestamp in decimal.
pub fn submitted_text(ts: i64, formatted: Option<String>) -> (r: String)
    ensures
        r@ == match formatted {
            Some(f) => f@,
            None => int_text(ts as int),
        },
{
    match formatted {
        Some(f) => f,
        None => {
            let mut s = String::new();
            push_int(&mut s, ts);
            s
        },
    }
}

/// How a submission time is shown: as an RFC 2822 date where `time` can
/// represent and format it, else in decimal.
pub open spec fn submitted_shown(ts: i64) -> Seq<char> {
    if timestamp_in_range(ts) && rfc2822_text(ts as int) is Some {
        rfc2822_text(ts as int)->0
    } else {
        int_text(ts as int)
    }
}

/// A submission time as an RFC 2822 date, or in decimal where `time`
/// cannot represent or format it.
pub fn format_submitted(submitted: SubmittedAt) -> (r: String)
    ensures
        r@ == submitted_shown(submitted.0),
{
    let formatted = match datetime_from_unix(submitted.0) {
        Ok(dt) => match format_rfc2822(dt) {
            Ok(text) => Some(text),
            Err(_) => None,
        },
        Err(_) => None,
    };
    submitted_text(submitted.0, formatted)
}

/// The first line of a rendered quote: its id in brackets, then its text
/// with emoji tokens cleaned.
pub open spec fn quote_line(q: Quote) -> Seq<char> {
    seq!['['] + int_text(q.id.0 as int) + seq![']', ' '] + sanitized(q.quote@)
}

/// The note on who submitted a quote, and when.
pub open spec fn submitted_note(submitter: Seq<char>, date: Seq<char>) -> Seq<char> {
    "\n\n*Submitted by "@ + submitter + " on "@ + date + "*."@
}

/// How a quote is shown: its first line, then, where both the submitter
/// and the time are known, the note on them.
pub open spec fn quote_text(q: Quote) -> Seq<char> {
    match (q.submitter, q.submitted) {
        (Some(sub), Some(at)) => quote_line(q) + submitted_note(sub@, submitted_shown(at.0)),
        _ => quote_line(q),
    }
}

/// The first line of a rendered quote.
pub fn format_quote_line(quote: &Quote) -> (r: String)
    ensures
        r@ == quote_line(*quote),
{
    let mut r = String::new();
    push_char(&mut r, '[');
    push_int(&mut r, quote.id.0);
    push_char(&mut r, ']');
    push_char(&mut r, ' ');
    let clean = sanitize_quote(quote.quote.as_str());
    push_str(&mut r, clean.as_str());
    proof {
        assert(r@ =~= quote_line(*quote));
    }
    r
}

/// A quote as the bot shows it.
pub fn format_quote(quote: &Quote) -> (r: String)
    ensures
        r@ == quote_text(*quote),
{
    let mut response = format_quote_line(quote);
    match (&quote.submitter, quote.submitted) {
        (Some(submitter), Some(submitted)) => {
            let date = format_submitted(submitted);
            let ghost line = response@;
            push_str(&mut response, "\n\n*Submitted by ");
            push_str(&mut response, submitter.as_str());
            push_str(&mut response, " on ");
            push_str(&mut response, date.as_str());
            push_str(&mut response, "*.");
            proof {
                assert(response@ =~= line + submitted_note(submitter@, date@));
            }
        },
        _ => {},
    }
    response
}

// ----------------------------------------------------------------------
// The replies of the commands
// ----------------------------------------------------------------------

/// The reply when `addquote` is given no text.
pub const NO_QUOTE_TO_ADD: &'static str = "No quote to add.";

/// The reply when `quote` finds nothing.
pub const NO_QUOTE_FOUND: &'static str = "No quote found.";

/// The reply when `quoteall` is given no query.
pub const MISSING_SEARCH: &'static str = "Missing search string";

/// The reply when `quoteall` finds nothing.
pub const NO_QUOTES_FOUND: &'static str = "No quotes found.";

/// The reply when the corpus cannot produce a sentence.
pub const INSUFFICIENT_CORPUS: &'static str = "Insufficient quote corpus to generate Markov chain.";

/// The reply when no language model is configured.
pub const NO_LLM_ENDPOINT: &'static str = "No LLM endpoint configured (set `llm_endpoint` in the config).";

/// The placeholder shown while a quote is being generated.
pub const GEN_PLACEHOLDER: &'static str = "\u{1F52E}\u{2728}...";

/// The reply when the language model returns nothing.
pub const EMPTY_GENERATION: &'static str = "Generated an empty response.";

/// The most tokens a generated quote may take.
pub const GEN_MAX_TOKENS: u32 = 200;

/// A command's text argument, trimmed, if anything is left of it.
pub fn trimmed_arg(arg: Option<&str>) -> (r: Option<String>)
    ensures
        match arg {
            None => r is None,
            Some(a) => if trim(a@).len() == 0 {
                r is None
            } else {
                r is Some && r->0@ == trim(a@)
            },
        },
{
    match arg {
        None => None,
        Some(a) => {
            let t = trim_chars(a);
            if t.len() == 0 {
                None
            } else {
                Some(string_of(t.as_slice()))
            }
        },
    }
}

/// The reply to a quote added under `id`.
pub fn added_reply(id: QuoteId) -> (r: String)
    ensures
        r@ == "Added quote (id: "@ + int_text(id.0 as int) + ")"@,
{
    let mut r = string_from("Added quote (id: ");
    push_int(&mut r, id.0);
    push_str(&mut r, ")");
    r
}

/// The reply to a request for the invalid id `text`.
pub fn invalid_id_reply(text: &str) -> (r: String)
    ensures
        r@ == "`"@ + text@ + "` isn't a valid quote id."@,
{
    let mut r = string_from("`");
    push_str(&mut r, text);
    push_str(&mut r, "` isn't a valid quote id.");
    r
}

/// The reply to `quote`: the quote found, or that none was.
pub fn quote_reply(found: Option<&Quote>) -> (r: String)
    ensures
        match found {
            Some(q) => r@ == quote_text(*q),
            None => r@ == NO_QUOTE_FOUND@,
        },
{
    match found {
        Some(q) => format_quote(q),
        None => string_from(NO_QUOTE_FOUND),
    }
}

/// The messages that answer `quoteall`: every quote found on a line of its
/// own, gathered into messages that Discord accepts, or that none was
/// found.
pub fn quoteall_replies(quotes: &[Quote]) -> (r: Vec<String>)
    ensures
        quotes@.len() == 0 ==> views(r@) == seq![NO_QUOTES_FOUND@],
        quotes@.len() > 0 ==> views(r@) == chunks_of(
            quotes@.map_values(|q: Quote| quote_line(q)),
            DISCORD_MESSAGE_LIMIT as nat,
        ),
{
    if quotes.len() == 0 {
        let mut r: Vec<String> = Vec::new();
        r.push(string_from(NO_QUOTES_FOUND));
        proof {
            assert(views(r@) =~= seq![NO_QUOTES_FOUND@]);
        }
        return r;
    }
    let mut lines: Vec<String> = Vec::new();
    let mut i: usize = 0;
    while i < quotes.len()
        invariant
            0 <= i <= quotes@.len(),
            views(lines@) == quotes@.take(i as int).map_values(|q: Quote| quote_line(q)),
        decreases quotes@.len() - i,
    {
        let ghost before = lines@;
        lines.push(format_quote_line(&quotes[i]));
        proof {
            assert(views(lines@) =~= views(before).push(quote_line(quotes@[i as int])));
            assert(quotes@.take(i + 1).map_values(|q: Quote| quote_line(q)) =~= quotes@.take(
                i as int,
            ).map_values(|q: Quote| quote_line(q)).push(quote_line(quotes@[i as int])));
        }
        i = i + 1;
    }
    proof {
        assert(quotes@.take(i as int) =~= quotes@);
    }
    chunk_messages(lines.as_slice(), DISCORD_MESSAGE_LIMIT)
}

/// The reply when an order outside the allowed range is asked for.
pub fn order_range_reply() -> (r: String)
    ensures
        r@ == "Order must be between "@ + dec(crate::markov_model::MIN_ORDER as nat) + " and "@ + dec(
            crate::markov_model::MAX_ORDER as nat,
        ) + "."@,
{
    let mut r = string_from("Order must be between ");
    push_decimal(&mut r, crate::markov_model::MIN_ORDER as u128);
    push_str(&mut r, " and ");
    push_decimal(&mut r, crate::markov_model::MAX_ORDER as u128);
    push_str(&mut r, ".");
    r
}

/// Which model `markov` generates from.
#[derive(Debug, Clone, Copy, PartialEq, Eq)]
pub enum MarkovSource {
    /// The bot's own model, kept up to date as quotes are added.
    Shared,
    /// A model of the given order, built afresh from every stored quote.
    Fresh(crate::markov_model::Order),
    /// The order asked for is out of range.
    OutOfRange,
}

/// The model `markov` uses for the order it is given: its own with no
/// order, a fresh one for an order in range, none for any other order.
pub fn markov_source(order: Option<u32>) -> (r: MarkovSource)
    ensures
        order is None ==> r is Shared,
        order matches Some(o) ==> (crate::markov_model::MIN_ORDER <= o
            <= crate::markov_model::MAX_ORDER ==> (r matches MarkovSource::Fresh(v) && v.value()
            == o)),
        order matches Some(o) ==> (!(crate::markov_model::MIN_ORDER <= o
            <= crate::markov_model::MAX_ORDER) ==> r is OutOfRange),
{
    match order {
        None => MarkovSource::Shared,
        Some(raw) => match crate::markov_model::Order::new(raw) {
            Some(o) => MarkovSource::Fresh(o),
            None => MarkovSource::OutOfRange,
        },
    }
}

/// The reply to `markov`: the sentence, or that the corpus is too small.
pub fn markov_reply(sentence: Option<String>) -> (r: String)
    ensures
        r@ == match sentence {
            Some(s) => s@,
            None => INSUFFICIENT_CORPUS@,
        },
{
    match sentence {
        Some(s) => s,
        None => string_from(INSUFFICIENT_CORPUS),
    }
}

/// The status report.
pub open spec fn status_text(
    count: i64,
    queries: u64,
    uptime: Seq<char>,
    latency_ms: u128,
    version: Seq<char>,
    os: Seq<char>,
    arch: Seq<char>,
) -> Seq<char> {
    "Bot Status:\n```\nQuotes    :: "@ + int_text(count as int) + "\nQueries   :: "@ + dec(
        queries as nat,
    ) + "\nUptime    :: "@ + uptime + "\nLatency   :: "@ + dec(latency_ms as nat)
        + "ms\nVersion   :: "@ + version + "\n```\nSystem Status:\n```\nOS        :: "@ + os
        + "\nArch      :: "@ + arch + "\n```"@
}

/// The reply to `status`.
pub fn status_report(
    count: i64,
    queries: u64,
    uptime: Duration,
    latency_ms: u128,
    version: &str,
    os: &str,
    arch: &str,
) -> (r: String)
    ensures
        r@ == status_text(
            count,
            queries,
            duration_text(duration_secs(uptime) as nat),
            latency_ms,
            version@,
            os@,
            arch@,
        ),
{
    let mut r = string_from("Bot Status:\n```\nQuotes    :: ");
    push_int(&mut r, count);
    push_str(&mut r, "\nQueries   :: ");
    push_decimal(&mut r, queries as u128);
    push_str(&mut r, "\nUptime    :: ");
    let up = format_duration(uptime);
    push_str(&mut r, up.as_str());
    push_str(&mut r, "\nLatency   :: ");
    push_decimal(&mut r, latency_ms);
    push_str(&mut r, "ms\nVersion   :: ");
    push_str(&mut r, version);
    push_str(&mut r, "\n```\nSystem Status:\n```\nOS        :: ");
    push_str(&mut r, os);
    push_str(&mut r, "\nArch      :: ");
    push_str(&mut r, arch);
    push_str(&mut r, "\n```");
    r
}

/// The reply to `slap`: the bot slaps the target, or the author when no
/// target is given.
pub fn slap_text(target: Option<&str>, author_name: &str, bot_name: &str) -> (r: String)
    ensures
        exists|t: Seq<char>|
            (match target {
                Some(a) if trim(a@).len() > 0 => t == trim(a@),
                _ => t == author_name@,
            }) && r@ == "*"@ + bot_name@ + " slaps "@ + t + " around a bit with a large trout*"@,
{
    let who = match trimmed_arg(target) {
        Some(t) => t,
        None => string_from(author_name),
    };
    let mut r = string_from("*");
    push_str(&mut r, bot_name);
    push_str(&mut r, " slaps ");
    push_str(&mut r, who.as_str());
    push_str(&mut r, " around a bit with a large trout*");
    r
}

/// The instruction sent to the language model: the prompt, trimmed, or
/// the default instruction when there is none.
pub fn gen_instruction(prompt: Option<&str>) -> (r: String)
    ensures
        r@ == match prompt {
            Some(p) if trim(p@).len() > 0 => trim(p@),
            _ => crate::llm::DEFAULT_INSTRUCTION@,
        },
{
    match trimmed_arg(prompt) {
        Some(t) => t,
        None => string_from(crate::llm::DEFAULT_INSTRUCTION),
    }
}

/// The reply to `gen`, given what the language model returned or the text
/// of the error it failed with.
pub fn gen_reply(result: Result<String, String>) -> (r: String)
    ensures
        r@ == match result {
            Ok(text) => if text@.len() > 0 {
                text@
            } else {
                EMPTY_GENERATION@
            },
            Err(e) => "Generation failed: "@ + e@,
        },
{
    match result {
        Ok(text) => {
            if !text.as_str().is_empty() {
                text
            } else {
                string_from(EMPTY_GENERATION)
            }
        },
        Err(e) => {
            let mut r = string_from("Generation failed: ");
            push_str(&mut r, e.as_str());
            r
        },
    }
}

// ----------------------------------------------------------------------
// Reacting to messages
// ----------------------------------------------------------------------

/// `needle` occurs in `hay`.
pub open spec fn contains(hay: Seq<char>, needle: Seq<char>) -> bool {
    exists|i: int| 0 <= i <= hay.len() - needle.len() && #[trigger] hay.subrange(i, i + needle.len()) == needle
}

/// A text contains a piece exactly when it is that piece with something,
/// possibly nothing, before and after it: wherever the piece stands, and
/// whatever comes before it.
pub proof fn law_contains_wherever(hay: Seq<char>, needle: Seq<char>)
    ensures
        contains(hay, needle) <==> exists|before: Seq<char>, after: Seq<char>|
            hay == #[trigger] (before + needle + after),
{
    if contains(hay, needle) {
        let i = choose|i: int|
            0 <= i <= hay.len() - needle.len() && #[trigger] hay.subrange(i, i + needle.len())
                == needle;
        let before = hay.take(i);
        let after = hay.skip(i + needle.len());
        assert(hay =~= before + needle + after);
    }
    if exists|before: Seq<char>, after: Seq<char>| hay == #[trigger] (before + needle + after) {
        let (before, after) = choose|before: Seq<char>, after: Seq<char>|
            hay == #[trigger] (before + needle + after);
        law_contains_piece(before, needle, after);
    }
}

/// Whatever stands before and after it, a piece is contained in the text
/// it is part of.
pub proof fn law_contains_piece(before: Seq<char>, needle: Seq<char>, after: Seq<char>)
    ensures
        contains(before + needle + after, needle),
{
    let hay = before + needle + after;
    let i = before.len() as int;
    assert(hay.subrange(i, i + needle.len()) =~= needle);
}

/// Whether `needle` occurs in `hay`.
pub fn contains_text(hay: &str, needle: &str) -> (b: bool)
    ensures
        b == contains(hay@, needle@),
{
    let h = chars_of(hay);
    let n = chars_of(needle);
    contains_chars(h.as_slice(), n.as_slice())
}

/// Whether `needle` occurs in `hay`.
fn contains_chars(hay: &[char], needle: &[char]) -> (b: bool)
    ensures
        b == contains(hay@, needle@),
{
    let n = hay.len();
    let m = needle.len();
    if m > n {
        return false;
    }
    let mut i: usize = 0;
    while i <= n - m
        invariant
            m <= n,
            n == hay@.len(),
            m == needle@.len(),
            0 <= i <= n - m + 1,
            forall|k: int| 0 <= k < i ==> #[trigger] hay@.subrange(k, k + m) != needle@,
        decreases n - m + 1 - i,
    {
        let mut j: usize = 0;
        while j < m && hay[i + j] == needle[j]
            invariant
                m <= n,
                n == hay@.len(),
                m == needle@.len(),
                i <= n - m,
                0 <= j <= m,
                forall|l: int| 0 <= l < j ==> hay@[i + l] == needle@[l],
            decreases m - j,
        {
            j = j + 1;
        }
        if j == m {
            proof {
                assert(hay@.subrange(i as int, i + m) =~= needle@);
            }
            return true;
        }
        proof {
            assert(hay@.subrange(i as int, i + m)[j as int] != needle@[j as int]);
        }
        i = i + 1;
    }
    false
}

/// Whether a message mentions "my wife", in any case: the bot reacts to
/// those.
pub fn mentions_my_wife(content: &str) -> (b: bool)
    ensures
        b == contains(str_lowercase(content@), "my wife"@),
        all_ascii(content@) ==> b == contains(ascii_lowercase(content@), "my wife"@),
{
    let lower = to_lowercase(content);
    contains_text(lower.as_str(), "my wife")
}

} // verus!
