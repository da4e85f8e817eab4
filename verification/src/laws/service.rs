//! How the language model is asked, and how its answers are read.
use vstd::prelude::*;

use crate::error::GEPAError;
use crate::json_text::{
    hex_digit, json_escape, json_escaped, json_items, json_pair_text, json_pairs_text,
    json_string_text,
};
use crate::laws::texts::glued;
use crate::lm::{
    chunk_content, names_server_error, retryable, streamed, truncated_body, without_slashes,
    MAX_ERROR_BODY_CHARS,
};
use crate::text::{occurs, occurs_at, trimmed};

verus! {

/// A long error body is cut off behind its first 256 characters, and says so.
pub proof fn long_bodies_are_cut_off(body: Seq<char>)
    ensures
        MAX_ERROR_BODY_CHARS == 256,
        body.len() > 256 ==> truncated_body(body) == body.take(256) + "...[truncated]"@,
        body.len() <= 256 ==> truncated_body(body) == body,
{
}

/// Slashes at the end of an address are taken off, all of them and nothing else.
pub proof fn only_slashes_are_taken_off(s: Seq<char>)
    ensures
        without_slashes(s).is_prefix_of(s),
        without_slashes(s).len() > 0 ==> without_slashes(s).last() != '/',
        forall|i: int| without_slashes(s).len() <= i < s.len() ==> s[i] == '/',
    decreases s.len(),
{
    if s.len() > 0 && s.last() == '/' {
        only_slashes_are_taken_off(s.drop_last());
        let r = without_slashes(s);
        assert(r =~= s.subrange(0, r.len() as int)) by {
            assert(r == s.drop_last().subrange(0, r.len() as int));
        }
        assert forall|i: int| r.len() <= i < s.len() implies s[i] == '/' by {
            if i < s.len() - 1 {
                assert(s.drop_last()[i] == '/');
            }
        }
    } else {
        assert(s =~= s.subrange(0, s.len() as int));
    }
}

proof fn lemma_streamed_from(lines: Seq<Seq<char>>, i: int, n: int)
    requires
        0 <= n <= i,
        n <= lines.len(),
    ensures
        streamed(lines, i) == streamed(lines.skip(n), i - n),
    decreases lines.len() - i,
{
    if i < lines.len() {
        assert(lines.skip(n)[i - n] == lines[i]);
        lemma_streamed_from(lines, i + 1, n);
    }
}

/// A line that is no data adds nothing to a streamed answer.
pub proof fn other_lines_add_nothing(line: Seq<char>, rest: Seq<Seq<char>>)
    requires
        !occurs_at(line, "data: "@, 0),
    ensures
        streamed(seq![line] + rest, 0) == streamed(rest, 0),
{
    let lines = seq![line] + rest;
    assert(lines[0] == line);
    lemma_streamed_from(lines, 1, 1);
    assert(lines.skip(1) =~= rest);
}

/// Behind the line that ends a streamed answer nothing is read.
pub proof fn nothing_is_read_behind_the_end(data: Seq<char>, rest: Seq<Seq<char>>)
    requires
        trimmed(data) == "[DONE]"@,
    ensures
        streamed(seq!["data: "@ + data] + rest, 0) == Seq::<char>::empty(),
{
    reveal_strlit("data: ");
    let line = "data: "@ + data;
    let lines = seq![line] + rest;
    assert(lines[0] == line);
    assert(line.subrange(0, 6) =~= "data: "@);
    assert(line.skip(6) =~= data);
}

/// A chunk adds its content to a streamed answer, in the order of the lines, and
/// one without content adds nothing.
pub proof fn chunks_add_their_content(data: Seq<char>, rest: Seq<Seq<char>>)
    requires
        trimmed(data) != "[DONE]"@,
    ensures
        streamed(seq!["data: "@ + data] + rest, 0) == match chunk_content(data) {
            Some(text) => text + streamed(rest, 0),
            None => streamed(rest, 0),
        },
        streamed(seq![], 0) == Seq::<char>::empty(),
{
    reveal_strlit("data: ");
    let line = "data: "@ + data;
    let lines = seq![line] + rest;
    assert(lines[0] == line);
    assert(line.subrange(0, 6) =~= "data: "@);
    assert(line.skip(6) =~= data);
    lemma_streamed_from(lines, 1, 1);
    assert(lines.skip(1) =~= rest);
}

/// A text names a server error just where it has a status of three digits, the
/// first of them a five.
pub proof fn server_errors_are_five_hundreds(before: Seq<char>, a: char, b: char, after: Seq<char>)
    requires
        '0' <= a <= '9',
        '0' <= b <= '9',
    ensures
        names_server_error(before + "HTTP 5"@ + seq![a, b] + after),
{
    reveal_strlit("HTTP 5");
    let text = before + "HTTP 5"@ + seq![a, b] + after;
    let i = before.len() as int;
    assert(text.subrange(i, i + 6) =~= "HTTP 5"@);
    assert(occurs_at(text, "HTTP 5"@, i));
}

/// A text without such a status names no server error.
pub proof fn other_statuses_are_no_server_errors(text: Seq<char>)
    requires
        !occurs(text, "HTTP 5"@),
    ensures
        !names_server_error(text),
{
}

/// What is tried again: a failed connection, a timeout, a server error and a rate
/// limit; nothing else.
pub proof fn what_is_tried_again(e: GEPAError)
    ensures
        e matches GEPAError::Http(f) ==> (retryable(e) <==> f.connect || f.timeout || (
        f.status is Some && 500 <= f.status->0 <= 599)),
        e matches GEPAError::LmApi(t) && occurs(t@, "HTTP 429"@) ==> retryable(e),
        e matches GEPAError::LmApi(t) && !occurs(t@, "HTTP 429"@) && !occurs(t@, "HTTP 5"@)
            ==> !retryable(e),
        !(e is Http) && !(e is LmApi) ==> !retryable(e),
{
}

/// The value of a hexadecimal digit.
pub open spec fn hex_value(c: char) -> int {
    if c <= '9' {
        c as int - '0' as int
    } else {
        c as int - 'a' as int + 10
    }
}

/// Each number below sixteen has its hexadecimal digit.
pub proof fn hex_digits_have_their_values(n: int)
    requires
        0 <= n < 16,
    ensures
        hex_value(hex_digit(n)) == n,
        '0' <= hex_digit(n) <= '9' || 'a' <= hex_digit(n) <= 'f',
{
    reveal_strlit("0123456789abcdef");
}

/// How characters are escaped: quotes and backslashes by a backslash; five control
/// characters by a letter and the others by their code; no other character.
pub proof fn characters_are_escaped_by_kind(c: char)
    ensures
        c as int >= 32 && c != '"' && c != '\\' ==> json_escape(c) == seq![c],
        c == '"' || c == '\\' ==> json_escape(c) == seq!['\\', c],
        c as int == 8 ==> json_escape(c) == seq!['\\', 'b'],
        c as int == 12 ==> json_escape(c) == seq!['\\', 'f'],
        c as int == 10 ==> json_escape(c) == seq!['\\', 'n'],
        c as int == 13 ==> json_escape(c) == seq!['\\', 'r'],
        c as int == 9 ==> json_escape(c) == seq!['\\', 't'],
        (c as int) < 32 && !(8 <= c as int <= 10) && c as int != 12 && c as int != 13 ==> {
            let e = json_escape(c);
            &&& e.len() == 6
            &&& e.take(4) == seq!['\\', 'u', '0', '0']
            &&& hex_value(e[4]) * 16 + hex_value(e[5]) == c as int
        },
{
    if (c as int) < 32 {
        hex_digits_have_their_values(c as int / 16);
        hex_digits_have_their_values(c as int % 16);
        if !(8 <= c as int <= 10) && c as int != 12 && c as int != 13 {
            assert(json_escape(c).take(4) =~= seq!['\\', 'u', '0', '0']);
        }
    }
}

/// Texts are escaped character by character.
pub proof fn texts_are_escaped_by_character(a: Seq<char>, b: Seq<char>)
    ensures
        json_escaped(a + b) == json_escaped(a) + json_escaped(b),
        forall|c: char| #[trigger] json_escaped(seq![c]) == json_escape(c),
        json_string_text(a).len() == json_escaped(a).len() + 2,
        json_string_text(a)[0] == '"' && json_string_text(a).last() == '"',
    decreases a.len(),
{
    assert forall|c: char| #[trigger] json_escaped(seq![c]) == json_escape(c) by {
        assert(seq![c].skip(1) =~= Seq::<char>::empty());
        assert(json_escaped(Seq::<char>::empty()) =~= seq![]);
        assert(json_escape(c) + seq![] =~= json_escape(c));
    }
    if a.len() == 0 {
        assert(a + b =~= b);
        assert(json_escaped(a) + json_escaped(b) =~= json_escaped(b));
    } else {
        texts_are_escaped_by_character(a.skip(1), b);
        assert((a + b).skip(1) =~= a.skip(1) + b);
        assert(json_escape(a[0]) + (json_escaped(a.skip(1)) + json_escaped(b)) =~= json_escape(
            a[0],
        ) + json_escaped(a.skip(1)) + json_escaped(b));
    }
}

/// A list of pairs is written as the pairs with a comma between them, in brackets.
pub proof fn pairs_are_listed_in_order(pairs: Seq<(Seq<char>, Seq<char>)>)
    ensures
        forall|i: int|
            0 <= i < pairs.len() ==> #[trigger] json_pair_text(pairs[i]) == seq!['[', '"']
                + json_escaped(pairs[i].0) + seq!['"', ',', '"'] + json_escaped(pairs[i].1)
                + seq!['"', ']'],
        json_pairs_text(pairs) == seq!['['] + glued(
            Seq::new(pairs.len(), |i: int| json_pair_text(pairs[i])),
            seq![','],
        ) + seq![']'],
{
    lemma_items(pairs);
    assert forall|i: int| 0 <= i < pairs.len() implies #[trigger] json_pair_text(pairs[i]) == seq![
        '[',
        '"',
    ] + json_escaped(pairs[i].0) + seq!['"', ',', '"'] + json_escaped(pairs[i].1) + seq![
        '"',
        ']',
    ] by {
        assert(json_pair_text(pairs[i]) =~= seq!['[', '"'] + json_escaped(pairs[i].0) + seq![
            '"',
            ',',
            '"',
        ] + json_escaped(pairs[i].1) + seq!['"', ']']);
    }
}

proof fn lemma_items(pairs: Seq<(Seq<char>, Seq<char>)>)
    ensures
        json_items(pairs) == glued(
            Seq::new(pairs.len(), |i: int| json_pair_text(pairs[i])),
            seq![','],
        ),
    decreases pairs.len(),
{
    let texts = Seq::new(pairs.len(), |i: int| json_pair_text(pairs[i]));
    if pairs.len() > 1 {
        lemma_items(pairs.skip(1));
        let rest = pairs.skip(1);
        assert(texts.skip(1) =~= Seq::new(rest.len(), |i: int| json_pair_text(rest[i])));
    }
}

} // verus!
