//! Strings and lists of strings as JSON text.
use vstd::prelude::*;

use crate::optimizer::adapter::pair_views;

verus! {

/// The hexadecimal digit for `n`.
pub open spec fn hex_digit(n: int) -> char {
    "0123456789abcdef"@[n]
}

/// How a character stands in a JSON string: a quote, a backslash and control
/// characters are escaped.
pub open spec fn json_escape(c: char) -> Seq<char> {
    if c == '"' {
        seq!['\\', '"']
    } else if c == '\\' {
        seq!['\\', '\\']
    } else if c == '\u{8}' {
        seq!['\\', 'b']
    } else if c == '\u{c}' {
        seq!['\\', 'f']
    } else if c == '\n' {
        seq!['\\', 'n']
    } else if c == '\r' {
        seq!['\\', 'r']
    } else if c == '\t' {
        seq!['\\', 't']
    } else if '\u{20}' > c {
        seq!['\\', 'u', '0', '0', hex_digit(c as int / 16), hex_digit(c as int % 16)]
    } else {
        seq![c]
    }
}

/// The characters of a JSON string, between its quotes.
pub open spec fn json_escaped(s: Seq<char>) -> Seq<char>
    decreases s.len(),
{
    if s.len() == 0 {
        seq![]
    } else {
        json_escape(s[0]) + json_escaped(s.skip(1))
    }
}

/// The JSON text of a string.
pub open spec fn json_string_text(s: Seq<char>) -> Seq<char> {
    seq!['"'] + json_escaped(s) + seq!['"']
}

/// The JSON text of a pair of strings.
pub open spec fn json_pair_text(pair: (Seq<char>, Seq<char>)) -> Seq<char> {
    seq!['['] + json_string_text(pair.0) + seq![','] + json_string_text(pair.1) + seq![']']
}

/// The JSON texts of pairs of strings, with commas between them.
pub open spec fn json_items(pairs: Seq<(Seq<char>, Seq<char>)>) -> Seq<char>
    decreases pairs.len(),
{
    if pairs.len() == 0 {
        seq![]
    } else if pairs.len() == 1 {
        json_pair_text(pairs[0])
    } else {
        json_pair_text(pairs[0]) + seq![','] + json_items(pairs.skip(1))
    }
}

/// The JSON text of a list of pairs of strings.
pub open spec fn json_pairs_text(pairs: Seq<(Seq<char>, Seq<char>)>) -> Seq<char> {
    seq!['['] + json_items(pairs) + seq![']']
}

/// `serde_json::to_string` of a string, which cannot fail: the string in
/// quotes, with quotes, backslashes and control characters escaped.
#[verifier::external_body]
pub(crate) fn json_string(s: &str) -> (text: String)
    ensures
        text@ == json_string_text(s@),
{
    serde_json::to_string(s).unwrap_or_default()
}

/// `serde_json::to_string` of a list of pairs of strings, which cannot fail: an
/// array of arrays of two strings, without white space.
#[verifier::external_body]
pub(crate) fn json_pairs(pairs: &Vec<(String, String)>) -> (text: String)
    ensures
        text@ == json_pairs_text(pair_views(pairs@)),
{
    serde_json::to_string(pairs).unwrap_or_default()
}

proof fn lemma_hex_digit(m: int, n: int)
    requires
        0 <= m < 16,
        0 <= n < 16,
        hex_digit(m) == hex_digit(n),
    ensures
        m == n,
{
    reveal_strlit("0123456789abcdef");
}

/// What follows a prefix of a sequence is what is left of it.
proof fn lemma_same_rest(p: Seq<char>, x: Seq<char>, y: Seq<char>)
    requires
        p + x == p + y,
    ensures
        x == y,
{
    assert((p + x).skip(p.len() as int) =~= x);
    assert((p + y).skip(p.len() as int) =~= y);
}

/// How a character stands in a string tells which character it is, whatever
/// follows.
proof fn lemma_escape_tells(c: char, d: char, x: Seq<char>, y: Seq<char>)
    requires
        json_escape(c) + x == json_escape(d) + y,
    ensures
        c == d,
        x == y,
{
    let a = json_escape(c) + x;
    let b = json_escape(d) + y;
    assert(a[0] == json_escape(c)[0]);
    assert(b[0] == json_escape(d)[0]);
    if a[0] == '\\' {
        assert(a[1] == json_escape(c)[1]);
        assert(b[1] == json_escape(d)[1]);
        if a[1] == 'u' {
            assert(a[4] == json_escape(c)[4]);
            assert(b[4] == json_escape(d)[4]);
            assert(a[5] == json_escape(c)[5]);
            assert(b[5] == json_escape(d)[5]);
            lemma_hex_digit(c as int / 16, d as int / 16);
            lemma_hex_digit(c as int % 16, d as int % 16);
        }
    }
    lemma_same_rest(json_escape(c), x, y);
}

proof fn lemma_escaped_tells(s: Seq<char>, t: Seq<char>, x: Seq<char>, y: Seq<char>)
    requires
        json_escaped(s) + (seq!['"'] + x) == json_escaped(t) + (seq!['"'] + y),
    ensures
        s == t,
        x == y,
    decreases s.len(),
{
    let a = json_escaped(s) + (seq!['"'] + x);
    let b = json_escaped(t) + (seq!['"'] + y);
    if s.len() == 0 {
        assert(a[0] == '"');
        if t.len() > 0 {
            assert(b[0] == json_escape(t[0])[0]);
        }
        assert(s =~= t);
        lemma_same_rest(seq!['"'], x, y);
    } else if t.len() == 0 {
        assert(b[0] == '"');
        assert(a[0] == json_escape(s[0])[0]);
    } else {
        let rs = json_escaped(s.skip(1)) + (seq!['"'] + x);
        let rt = json_escaped(t.skip(1)) + (seq!['"'] + y);
        assert(a =~= json_escape(s[0]) + rs);
        assert(b =~= json_escape(t[0]) + rt);
        lemma_escape_tells(s[0], t[0], rs, rt);
        lemma_escaped_tells(s.skip(1), t.skip(1), x, y);
        assert(s =~= seq![s[0]] + s.skip(1));
        assert(t =~= seq![t[0]] + t.skip(1));
    }
}

/// The JSON text of a string tells which string it is, whatever follows.
pub proof fn json_strings_differ(s: Seq<char>, t: Seq<char>, x: Seq<char>, y: Seq<char>)
    requires
        json_string_text(s) + x == json_string_text(t) + y,
    ensures
        s == t,
        x == y,
{
    let rs = json_escaped(s) + (seq!['"'] + x);
    let rt = json_escaped(t) + (seq!['"'] + y);
    assert(json_string_text(s) + x =~= seq!['"'] + rs);
    assert(json_string_text(t) + y =~= seq!['"'] + rt);
    lemma_same_rest(seq!['"'], rs, rt);
    lemma_escaped_tells(s, t, x, y);
}

proof fn lemma_pair_tells(
    p: (Seq<char>, Seq<char>),
    q: (Seq<char>, Seq<char>),
    x: Seq<char>,
    y: Seq<char>,
)
    requires
        json_pair_text(p) + x == json_pair_text(q) + y,
    ensures
        p == q,
        x == y,
{
    let p1 = seq![','] + (json_string_text(p.1) + (seq![']'] + x));
    let q1 = seq![','] + (json_string_text(q.1) + (seq![']'] + y));
    assert(json_pair_text(p) + x =~= seq!['['] + (json_string_text(p.0) + p1));
    assert(json_pair_text(q) + y =~= seq!['['] + (json_string_text(q.0) + q1));
    lemma_same_rest(seq!['['], json_string_text(p.0) + p1, json_string_text(q.0) + q1);
    json_strings_differ(p.0, q.0, p1, q1);
    lemma_same_rest(
        seq![','],
        json_string_text(p.1) + (seq![']'] + x),
        json_string_text(q.1) + (seq![']'] + y),
    );
    json_strings_differ(p.1, q.1, seq![']'] + x, seq![']'] + y);
    lemma_same_rest(seq![']'], x, y);
}

proof fn lemma_items_tell(a: Seq<(Seq<char>, Seq<char>)>, b: Seq<(Seq<char>, Seq<char>)>)
    requires
        json_items(a) + seq![']'] == json_items(b) + seq![']'],
    ensures
        a == b,
    decreases a.len(),
{
    let x = json_items(a) + seq![']'];
    let y = json_items(b) + seq![']'];
    if a.len() == 0 {
        assert(x[0] == ']');
        if b.len() > 0 {
            assert(y[0] == '[');
        }
        assert(a =~= b);
    } else if b.len() == 0 {
        assert(y[0] == ']');
        assert(x[0] == '[');
    } else {
        let ra = if a.len() == 1 {
            seq![']']
        } else {
            seq![','] + (json_items(a.skip(1)) + seq![']'])
        };
        let rb = if b.len() == 1 {
            seq![']']
        } else {
            seq![','] + (json_items(b.skip(1)) + seq![']'])
        };
        assert(x =~= json_pair_text(a[0]) + ra);
        assert(y =~= json_pair_text(b[0]) + rb);
        lemma_pair_tells(a[0], b[0], ra, rb);
        assert(ra[0] == rb[0]);
        if a.len() > 1 {
            lemma_same_rest(
                seq![','],
                json_items(a.skip(1)) + seq![']'],
                json_items(b.skip(1)) + seq![']'],
            );
            lemma_items_tell(a.skip(1), b.skip(1));
        }
        assert(a =~= seq![a[0]] + a.skip(1));
        assert(b =~= seq![b[0]] + b.skip(1));
        assert(a.len() == 1 ==> a.skip(1) =~= b.skip(1));
    }
}

/// The JSON text of a list of pairs of strings tells which list it is.
pub proof fn json_lists_differ(a: Seq<(Seq<char>, Seq<char>)>, b: Seq<(Seq<char>, Seq<char>)>)
    requires
        json_pairs_text(a) == json_pairs_text(b),
    ensures
        a == b,
{
    assert(json_pairs_text(a) =~= seq!['['] + (json_items(a) + seq![']']));
    assert(json_pairs_text(b) =~= seq!['['] + (json_items(b) + seq![']']));
    lemma_same_rest(seq!['['], json_items(a) + seq![']'], json_items(b) + seq![']']);
    lemma_items_tell(a, b);
}

} // verus!
