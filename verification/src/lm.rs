//! The parts of a chat-completions client that do not talk to the network.
use serde_json::Value;
use vstd::arithmetic::power2::{lemma2_to64, lemma_pow2_strictly_increases, lemma_pow2_unfold, pow2};
use vstd::prelude::*;

use crate::error::{GEPAError, Result};
use crate::json_value::{
    get_element, get_field, get_str, json_element, json_field, json_str, parse_json, parsed_json,
};
use crate::text::{
    contains_text, lines_from, occurs, occurs_at, slice_text, split_lines, stands_at, text_views,
    to_chars, trim_text, trimmed,
};

verus! {

broadcast use vstd::string::group_string_axioms;

/// How much of an error body is kept.
pub const MAX_ERROR_BODY_CHARS: usize = 256;

/// An error body, cut off after 256 characters.
pub open spec fn truncated_body(body: Seq<char>) -> Seq<char> {
    if body.len() > MAX_ERROR_BODY_CHARS {
        body.take(MAX_ERROR_BODY_CHARS as int) + "...[truncated]"@
    } else {
        body
    }
}

/// An error body, cut off after 256 characters.
pub fn truncate_error_body(body: &str) -> (r: String)
    ensures
        r@ == truncated_body(body@),
{
    let v = to_chars(body);
    if v.len() > MAX_ERROR_BODY_CHARS {
        let mut r = slice_text(&v, 0, MAX_ERROR_BODY_CHARS);
        assert(r@ =~= v@.take(MAX_ERROR_BODY_CHARS as int));
        r.append("...[truncated]");
        r
    } else {
        body.to_owned()
    }
}

/// `s` without slashes at its end.
pub open spec fn without_slashes(s: Seq<char>) -> Seq<char>
    decreases s.len(),
{
    if s.len() > 0 && s.last() == '/' {
        without_slashes(s.drop_last())
    } else {
        s
    }
}

/// The URL of the chat-completions endpoint under `base_url`.
pub fn completions_url(base_url: &str) -> (url: String)
    ensures
        url@ == without_slashes(base_url@) + "/v1/chat/completions"@,
{
    let v = to_chars(base_url);
    let mut n: usize = v.len();
    assert(v@.take(n as int) =~= v@);
    while n > 0 && v[n - 1] == '/'
        invariant
            n <= v@.len(),
            without_slashes(v@.take(n as int)) == without_slashes(v@),
        decreases n,
    {
        assert(v@.take(n as int).drop_last() =~= v@.take(n - 1));
        n -= 1;
    }
    let mut url = slice_text(&v, 0, n);
    assert(url@ =~= v@.take(n as int));
    url.append("/v1/chat/completions");
    url
}

/// The error for a response with an error status.
pub fn status_error(streaming: bool, status: &str, body: &str) -> (e: GEPAError)
    ensures
        e matches GEPAError::LmApi(text) && text@ == (if streaming {
            "Streaming API returned HTTP "@
        } else {
            "API returned HTTP "@
        }) + status@ + ": "@ + truncated_body(body@),
{
    let mut text = if streaming {
        "Streaming API returned HTTP ".to_owned()
    } else {
        "API returned HTTP ".to_owned()
    };
    text.append(status);
    text.append(": ");
    text.append(truncate_error_body(body).as_str());
    GEPAError::LmApi(text)
}

/// The content of the first of the choices in a response.
///
/// # Errors
/// An API error where there is no choice or the first has no content.
pub fn first_content(contents: Vec<Option<String>>) -> (r: Result<String>)
    ensures
        match r {
            Ok(text) => contents@.len() > 0 && contents@[0] == Some(text),
            Err(e) => {
                &&& contents@.len() == 0 || contents@[0] is None
                &&& e matches GEPAError::LmApi(text)
                &&& text@ == "API returned an empty message content"@
            },
        },
{
    if contents.len() > 0 {
        if let Some(text) = &contents[0] {
            return Ok(text.clone());
        }
    }
    Err(GEPAError::LmApi("API returned an empty message content".to_owned()))
}

/// The field `key` of a JSON value, if there is a value and it has one.
pub open spec fn field_in(v: Option<Value>, key: Seq<char>) -> Option<Value> {
    match v {
        Some(x) => json_field(x, key),
        None => None,
    }
}

/// The content that a chunk of a streamed response adds, if it adds any: that of
/// the delta of the first choice.
pub open spec fn chunk_content(data: Seq<char>) -> Option<Seq<char>> {
    match field_in(parsed_json(data), "choices"@) {
        Some(choices) => match field_in(
            field_in(json_element(choices, 0), "delta"@),
            "content"@,
        ) {
            Some(content) => json_str(content),
            None => None,
        },
        None => None,
    }
}

/// The content that a chunk of a streamed response adds.
pub fn read_chunk(data: &str) -> (r: Option<String>)
    ensures
        (match r {
            Some(text) => Some(text@),
            None => None,
        }) == chunk_content(data@),
{
    let value = match parse_json(data) {
        Ok(value) => value,
        Err(_) => return None,
    };
    if let Some(choices) = get_field(&value, "choices") {
        if let Some(choice) = get_element(choices, 0) {
            if let Some(delta) = get_field(choice, "delta") {
                if let Some(content) = get_field(delta, "content") {
                    return get_str(content);
                }
            }
        }
    }
    None
}

/// What the data lines from position `i` on add up to, up to the line that ends
/// the stream.
pub open spec fn streamed(lines: Seq<Seq<char>>, i: int) -> Seq<char>
    decreases lines.len() - i,
{
    if i < 0 || i >= lines.len() {
        Seq::empty()
    } else if !occurs_at(lines[i], "data: "@, 0) {
        streamed(lines, i + 1)
    } else {
        let data = lines[i].skip(6);
        if trimmed(data) == "[DONE]"@ {
            Seq::empty()
        } else {
            match chunk_content(data) {
                Some(text) => text + streamed(lines, i + 1),
                None => streamed(lines, i + 1),
            }
        }
    }
}

/// The content of a streamed response: what its chunks add up to.
///
/// # Errors
/// An API error where that is nothing.
pub fn accumulate_stream(text: &str) -> (r: Result<String>)
    ensures
        match r {
            Ok(content) => content@ == streamed(lines_from(text@, 0), 0) && content@.len() > 0,
            Err(e) => {
                &&& streamed(lines_from(text@, 0), 0).len() == 0
                &&& e matches GEPAError::LmApi(message)
                &&& message@ == "Streaming response produced no content"@
            },
        },
{
    let lines = split_lines(text);
    accumulate_lines(&lines)
}

/// What the chunks in the lines of a streamed response add up to.
///
/// # Errors
/// An API error where that is nothing.
pub fn accumulate_lines(lines: &Vec<String>) -> (r: Result<String>)
    ensures
        match r {
            Ok(content) => content@ == streamed(
                text_views(lines@),
                0,
            ) && content@.len() > 0,
            Err(e) => {
                &&& streamed(text_views(lines@), 0).len() == 0
                &&& e matches GEPAError::LmApi(message)
                &&& message@ == "Streaming response produced no content"@
            },
        },
{
    let ghost all = text_views(lines@);
    let mut content = String::new();
    let prefix = to_chars("data: ");
    proof {
        reveal_strlit("data: ");
    }
    let mut i: usize = 0;
    let mut done = false;
    assert(content@ + streamed(all, 0) =~= streamed(all, 0));
    while i < lines.len() && !done
        invariant
            all == text_views(lines@),
            i <= lines@.len(),
            prefix@ == "data: "@,
            prefix@.len() == 6,
            !done ==> content@ + streamed(all, i as int) == streamed(all, 0),
            done ==> content@ == streamed(all, 0),
        decreases lines@.len() - i, !done as int,
    {
        let ghost before = content@;
        let line = to_chars(lines[i].as_str());
        assert(all[i as int] == line@);
        if stands_at(&line, &prefix, 0) {
            let data = slice_text(&line, 6, line.len());
            assert(data@ =~= line@.skip(6));
            let bare = trim_text(data.as_str());
            if bare == "[DONE]".to_owned() {
                done = true;
                assert(content@ + streamed(all, i as int) =~= content@);
            } else {
                match read_chunk(data.as_str()) {
                    Some(text) => {
                        content.append(text.as_str());
                        assert(content@ + streamed(all, i + 1) =~= before + (text@ + streamed(
                            all,
                            i + 1,
                        )));
                    },
                    None => {},
                }
            }
        }
        i += 1;
    }
    if !done {
        assert(content@ + streamed(all, i as int) =~= content@);
    }
    if content.as_str().is_empty() {
        return Err(GEPAError::LmApi("Streaming response produced no content".to_owned()));
    }
    Ok(content)
}

/// Whether `c` is a decimal digit.
pub open spec fn is_digit(c: char) -> bool {
    '0' <= c <= '9'
}

/// Whether the text names a server error status.
pub open spec fn names_server_error(text: Seq<char>) -> bool {
    exists|i: int|
        #[trigger] occurs_at(text, "HTTP 5"@, i) && i + 7 < text.len() && is_digit(text[i + 6])
            && is_digit(text[i + 7])
}

fn find_server_error(text: &str) -> (b: bool)
    ensures
        b == names_server_error(text@),
{
    let v = to_chars(text);
    let p = to_chars("HTTP 5");
    let mut i: usize = 0;
    while i < v.len()
        invariant
            v@ == text@,
            p@ == "HTTP 5"@,
            i <= v@.len(),
            forall|j: int|
                0 <= j < i ==> !(#[trigger] occurs_at(v@, p@, j) && j + 7 < v@.len() && is_digit(
                    v@[j + 6],
                ) && is_digit(v@[j + 7])),
        decreases v@.len() - i,
    {
        if stands_at(&v, &p, i) && v.len() - i > 7 && '0' <= v[i + 6] && v[i + 6] <= '9' && '0'
            <= v[i + 7] && v[i + 7] <= '9' {
            return true;
        }
        i += 1;
    }
    false
}

/// Whether a request that failed in this way is worth another try: the
/// connection failed, the time ran out, the rate limit was hit, or the server
/// had an error.
pub open spec fn retryable(e: GEPAError) -> bool {
    match e {
        GEPAError::Http(failure) => {
            ||| failure.connect
            ||| failure.timeout
            ||| failure.status matches Some(s) && 500 <= s < 600
        },
        GEPAError::LmApi(text) => occurs(text@, "HTTP 429"@) || names_server_error(text@),
        _ => false,
    }
}

/// Whether a request that failed in this way is worth another try.
pub fn is_retryable(e: &GEPAError) -> (b: bool)
    ensures
        b == retryable(*e),
{
    match e {
        GEPAError::Http(failure) => failure.connect || failure.timeout || match failure.status {
            Some(s) => 500 <= s && s < 600,
            None => false,
        },
        GEPAError::LmApi(text) => contains_text(text.as_str(), "HTTP 429") || find_server_error(
            text.as_str(),
        ),
        _ => false,
    }
}

/// What to do after a failed attempt.
#[derive(Debug, Clone, Copy, PartialEq, Eq, Structural)]
pub enum RetryDecision {
    /// Try again after so many seconds.
    Wait(u64),
    /// Give up with the error.
    GiveUp,
}

/// What to do after attempt number `attempt`, counted from 0, has failed: wait
/// twice as long as after the attempt before, and try again, while the error is
/// worth it and there are attempts left.
pub fn after_failure(e: &GEPAError, attempt: u32, max_retries: u32) -> (d: RetryDecision)
    requires
        attempt < 64,
    ensures
        d == if retryable(*e) && attempt < max_retries {
            RetryDecision::Wait(pow2(attempt as nat) as u64)
        } else {
            RetryDecision::GiveUp
        },
        d matches RetryDecision::Wait(secs) ==> secs == pow2(attempt as nat),
{
    if is_retryable(e) && attempt < max_retries {
        let mut secs: u64 = 1;
        let mut i: u32 = 0;
        proof {
            lemma2_to64();
        }
        while i < attempt
            invariant
                i <= attempt,
                attempt < 64,
                secs == pow2(i as nat),
            decreases attempt - i,
        {
            proof {
                lemma2_to64();
                lemma_pow2_unfold((i + 1) as nat);
                lemma_pow2_strictly_increases((i + 1) as nat, 64);
            }
            secs = secs * 2;
            i += 1;
        }
        RetryDecision::Wait(secs)
    } else {
        RetryDecision::GiveUp
    }
}

/// A slash at the end of the base URL makes no difference.
pub proof fn slashes_do_not_matter(base_url: Seq<char>)
    ensures
        without_slashes(base_url.push('/')) == without_slashes(base_url),
{
    assert(base_url.push('/').drop_last() =~= base_url);
}

/// An error body never takes much room, and a short one is kept as it is.
pub proof fn error_bodies_are_short(body: Seq<char>)
    ensures
        truncated_body(body).len() <= MAX_ERROR_BODY_CHARS + 14,
        body.len() <= MAX_ERROR_BODY_CHARS ==> truncated_body(body) == body,
{
    reveal_strlit("...[truncated]");
}

} // verus!
