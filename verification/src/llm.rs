//! The parts of asking a language model for a quote that compute: where
//! the request goes, and what is taken from the answer.
use vstd::prelude::*;

use crate::text::{chars_of, push_str, string_of, trim, trim_chars};

verus! {

/// The instruction sent when the user gives none.
pub const DEFAULT_INSTRUCTION: &'static str = "Post something in the IRC channel.";

/// `s` without the slashes at its end.
pub open spec fn without_trailing_slashes(s: Seq<char>) -> Seq<char>
    decreases s.len(),
{
    if s.len() > 0 && s.last() == '/' {
        without_trailing_slashes(s.drop_last())
    } else {
        s
    }
}

/// The chat-completions address of the endpoint: the endpoint without its
/// trailing slashes, then `/v1/chat/completions`.
pub fn completions_url(endpoint: &str) -> (r: String)
    ensures
        r@ == without_trailing_slashes(endpoint@) + "/v1/chat/completions"@,
{
    let v = chars_of(endpoint);
    let mut n = v.len();
    proof {
        assert(v@.take(v@.len() as int) =~= v@);
    }
    while n > 0 && v[n - 1] == '/'
        invariant
            0 <= n <= v@.len(),
            without_trailing_slashes(v@) == without_trailing_slashes(v@.take(n as int)),
        decreases n,
    {
        proof {
            assert(v@.take(n as int).drop_last() =~= v@.take(n - 1));
        }
        n = n - 1;
    }
    proof {
        assert(without_trailing_slashes(v@.take(n as int)) == v@.take(n as int));
    }
    let mut r = String::new();
    let mut i: usize = 0;
    while i < n
        invariant
            0 <= i <= n <= v@.len(),
            r@ == v@.take(i as int),
        decreases n - i,
    {
        crate::text::push_char(&mut r, v[i]);
        proof {
            assert(v@.take(i + 1) =~= v@.take(i as int).push(v@[i as int]));
        }
        i = i + 1;
    }
    push_str(&mut r, "/v1/chat/completions");
    r
}

/// The text of the model's answer: the first choice's content, trimmed, or
/// nothing when there is no choice.
pub fn first_choice_content(contents: &[String]) -> (r: String)
    ensures
        r@ == if contents@.len() > 0 {
            trim(contents@[0]@)
        } else {
            Seq::<char>::empty()
        },
{
    if contents.len() == 0 {
        return String::new();
    }
    let t = trim_chars(contents[0].as_str());
    string_of(t.as_slice())
}

} // verus!
