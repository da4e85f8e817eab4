//! Text as sequences of characters: searching, trimming, splitting, replacing.
use vstd::prelude::*;
use vstd::relations::{antisymmetric, reflexive, sorted_by, strongly_connected, total_ordering, transitive};

verus! {

broadcast use vstd::string::group_string_axioms;

/// `String::push` appends one character.
pub assume_specification[ String::push ](s: &mut String, c: char)
    ensures
        final(s)@ == old(s)@.push(c),
;

/// The characters of `s`.
pub fn to_chars(s: &str) -> (v: Vec<char>)
    ensures
        v@ == s@,
{
    let mut v: Vec<char> = Vec::new();
    for c in it: s.chars()
        invariant
            it.seq() == s@,
            v@ == s@.take(it.index() as int),
    {
        v.push(c);
        assert(v@ =~= s@.take(it.index() + 1));
    }
    assert(v@ =~= s@);
    v
}

/// The views of a list of strings.
pub open spec fn text_views(list: Seq<String>) -> Seq<Seq<char>> {
    Seq::new(list.len(), |i: int| list[i]@)
}

/// The text that `v` spells from `from` up to `to`.
pub fn slice_text(v: &Vec<char>, from: usize, to: usize) -> (s: String)
    requires
        from <= to <= v@.len(),
    ensures
        s@ == v@.subrange(from as int, to as int),
{
    let mut s = String::new();
    let mut i: usize = from;
    while i < to
        invariant
            from <= i <= to <= v@.len(),
            s@ == v@.subrange(from as int, i as int),
        decreases to - i,
    {
        s.push(v[i]);
        i += 1;
        assert(s@ =~= v@.subrange(from as int, i as int));
    }
    s
}

/// The decimal digit of `d`.
pub open spec fn digit_char(d: nat) -> char {
    if d == 0 {
        '0'
    } else if d == 1 {
        '1'
    } else if d == 2 {
        '2'
    } else if d == 3 {
        '3'
    } else if d == 4 {
        '4'
    } else if d == 5 {
        '5'
    } else if d == 6 {
        '6'
    } else if d == 7 {
        '7'
    } else if d == 8 {
        '8'
    } else {
        '9'
    }
}

/// The decimal digits of `n`, without leading zeros.
pub open spec fn decimal_text(n: nat) -> Seq<char>
    decreases n,
{
    if n < 10 {
        seq![digit_char(n)]
    } else {
        decimal_text(n / 10).push(digit_char(n % 10))
    }
}

/// Different numbers have different decimal digits.
pub proof fn decimals_differ(m: nat, n: nat)
    requires
        decimal_text(m) == decimal_text(n),
    ensures
        m == n,
    decreases m,
{
    let a = decimal_text(m);
    let b = decimal_text(n);
    assert(a.last() == digit_char(m % 10));
    assert(b.last() == digit_char(n % 10));
    if m < 10 {
        if n >= 10 {
            lemma_decimal_text_len(n / 10);
            assert(b.len() >= 2);
        }
    } else if n < 10 {
        lemma_decimal_text_len(m / 10);
        assert(a.len() >= 2);
    } else {
        assert(a.drop_last() =~= decimal_text(m / 10));
        assert(b.drop_last() =~= decimal_text(n / 10));
        decimals_differ(m / 10, n / 10);
    }
}

proof fn lemma_decimal_text_len(n: nat)
    ensures
        decimal_text(n).len() >= 1,
{
}

fn digit(d: u64) -> (c: char)
    requires
        d < 10,
    ensures
        c == digit_char(d as nat),
{
    if d == 0 {
        '0'
    } else if d == 1 {
        '1'
    } else if d == 2 {
        '2'
    } else if d == 3 {
        '3'
    } else if d == 4 {
        '4'
    } else if d == 5 {
        '5'
    } else if d == 6 {
        '6'
    } else if d == 7 {
        '7'
    } else if d == 8 {
        '8'
    } else {
        '9'
    }
}

/// The decimal digits of `n`.
pub fn decimal(n: u64) -> (s: String)
    ensures
        s@ == decimal_text(n as nat),
    decreases n,
{
    if n < 10 {
        let mut s = String::new();
        s.push(digit(n));
        assert(s@ =~= decimal_text(n as nat));
        s
    } else {
        let mut s = decimal(n / 10);
        s.push(digit(n % 10));
        s
    }
}

/// Whether `p` stands in `s` at position `i`.
pub open spec fn occurs_at(s: Seq<char>, p: Seq<char>, i: int) -> bool {
    &&& 0 <= i
    &&& i + p.len() <= s.len()
    &&& s.subrange(i, i + p.len()) == p
}

/// Whether `p` stands somewhere in `s`.
pub open spec fn occurs(s: Seq<char>, p: Seq<char>) -> bool {
    exists|i: int| occurs_at(s, p, i)
}

/// The first position at or after `i` at which `p` stands in `s`.
pub open spec fn next_at(s: Seq<char>, p: Seq<char>, i: int) -> Option<int>
    decreases s.len() + 1 - i,
{
    if i < 0 || i + p.len() > s.len() {
        None
    } else if occurs_at(s, p, i) {
        Some(i)
    } else {
        next_at(s, p, i + 1)
    }
}

/// The last position before `i` at which `p` stands in `s`.
pub open spec fn last_before(s: Seq<char>, p: Seq<char>, i: int) -> Option<int>
    decreases i,
{
    if i <= 0 {
        None
    } else if occurs_at(s, p, i - 1) {
        Some(i - 1)
    } else {
        last_before(s, p, i - 1)
    }
}

/// What [`next_at`] says: the place found is the first one, and there is one
/// where `p` stands at all.
pub proof fn lemma_next_at(s: Seq<char>, p: Seq<char>, i: int)
    requires
        0 <= i,
    ensures
        match next_at(s, p, i) {
            Some(k) => i <= k && occurs_at(s, p, k) && forall|j: int|
                i <= j < k ==> !occurs_at(s, p, j),
            None => forall|j: int| i <= j ==> !occurs_at(s, p, j),
        },
    decreases s.len() + 1 - i,
{
    if i + p.len() <= s.len() && !occurs_at(s, p, i) {
        lemma_next_at(s, p, i + 1);
    }
}

/// What [`last_before`] says.
pub proof fn lemma_last_before(s: Seq<char>, p: Seq<char>, i: int)
    ensures
        match last_before(s, p, i) {
            Some(k) => k < i && occurs_at(s, p, k) && forall|j: int|
                k < j < i ==> !occurs_at(s, p, j),
            None => forall|j: int| j < i ==> !occurs_at(s, p, j),
        },
    decreases i,
{
    if i > 0 && !occurs_at(s, p, i - 1) {
        lemma_last_before(s, p, i - 1);
    }
}

/// Whether `p` stands in `s` at position `i`.
pub fn stands_at(s: &Vec<char>, p: &Vec<char>, i: usize) -> (b: bool)
    ensures
        b == occurs_at(s@, p@, i as int),
{
    if i > s.len() || p.len() > s.len() - i {
        return false;
    }
    let mut j: usize = 0;
    while j < p.len()
        invariant
            j <= p.len(),
            i + p.len() <= s.len(),
            forall|k: int| 0 <= k < j ==> s@[i + k] == p@[k],
        decreases p.len() - j,
    {
        if s[i + j] != p[j] {
            assert(s@.subrange(i as int, i + p@.len())[j as int] != p@[j as int]);
            return false;
        }
        j += 1;
    }
    assert(s@.subrange(i as int, i + p@.len()) =~= p@);
    true
}

/// The first position at or after `from` at which `p` stands in `s`.
pub fn find_from(s: &Vec<char>, p: &Vec<char>, from: usize) -> (r: Option<usize>)
    ensures
        match r {
            Some(k) => next_at(s@, p@, from as int) == Some(k as int) && from <= k && k
                + p@.len() <= s@.len() && occurs_at(s@, p@, k as int),
            None => next_at(s@, p@, from as int) is None,
        },
{
    let mut i: usize = from;
    while i <= s.len() && p.len() <= s.len() - i
        invariant
            from <= i,
            next_at(s@, p@, from as int) == next_at(s@, p@, i as int),
        decreases s.len() + 1 - i,
    {
        if stands_at(s, p, i) {
            return Some(i);
        }
        if i == s.len() {
            assert(next_at(s@, p@, i + 1) is None);
            return None;
        }
        i += 1;
    }
    None
}

/// The last position at which `p` stands in `s`.
pub fn find_last(s: &Vec<char>, p: &Vec<char>) -> (r: Option<usize>)
    ensures
        match r {
            Some(k) => last_before(s@, p@, s@.len() as int) == Some(k as int) && k + p@.len()
                <= s@.len() && occurs_at(s@, p@, k as int),
            None => last_before(s@, p@, s@.len() as int) is None,
        },
{
    let mut i: usize = s.len();
    while i > 0
        invariant
            i <= s.len(),
            last_before(s@, p@, s@.len() as int) == last_before(s@, p@, i as int),
        decreases i,
    {
        i -= 1;
        if stands_at(s, p, i) {
            return Some(i);
        }
    }
    None
}

/// Whether `needle` stands in `haystack`.
pub fn contains_text(haystack: &str, needle: &str) -> (b: bool)
    ensures
        b == occurs(haystack@, needle@),
{
    let s = to_chars(haystack);
    let p = to_chars(needle);
    proof {
        lemma_next_at(s@, p@, 0);
    }
    find_from(&s, &p, 0).is_some()
}

/// `s` with every occurrence of `p`, taken from the left and not overlapping,
/// replaced by `r`.
pub open spec fn replaced(s: Seq<char>, p: Seq<char>, r: Seq<char>) -> Seq<char>
    decreases s.len(),
{
    match next_at(s, p, 0) {
        Some(k) => if p.len() > 0 && 0 <= k && k + p.len() <= s.len() {
            s.take(k) + r + replaced(s.skip(k + p.len()), p, r)
        } else {
            s
        },
        None => s,
    }
}

pub(crate) proof fn lemma_occurs_skip(s: Seq<char>, p: Seq<char>, n: int, i: int)
    requires
        0 <= n <= s.len(),
        0 <= i,
    ensures
        occurs_at(s.skip(n), p, i) == occurs_at(s, p, n + i),
{
    if n + i + p.len() <= s.len() {
        assert(s.skip(n).subrange(i, i + p.len()) =~= s.subrange(n + i, n + i + p.len()));
    }
}

proof fn lemma_next_skip(s: Seq<char>, p: Seq<char>, n: int, i: int)
    requires
        0 <= n <= s.len(),
        0 <= i,
    ensures
        match next_at(s.skip(n), p, i) {
            Some(k) => next_at(s, p, n + i) == Some(n + k),
            None => next_at(s, p, n + i) is None,
        },
    decreases s.len() + 1 - n - i,
{
    lemma_occurs_skip(s, p, n, i);
    if i + p.len() <= s.len() - n && !occurs_at(s.skip(n), p, i) {
        lemma_next_skip(s, p, n, i + 1);
    }
}

/// `text` with every occurrence of `pattern` replaced by `with`.
pub fn replace_text(text: &str, pattern: &str, with: &str) -> (r: String)
    requires
        pattern@.len() > 0,
    ensures
        r@ == replaced(text@, pattern@, with@),
{
    let s = to_chars(text);
    let p = to_chars(pattern);
    let mut out = String::new();
    let mut from: usize = 0;
    assert(s@.skip(0) =~= s@);
    assert(out@ + replaced(s@, p@, with@) =~= replaced(s@, p@, with@));
    loop
        invariant
            from <= s@.len(),
            p@.len() > 0,
            p@ == pattern@,
            s@ == text@,
            out@ + replaced(s@.skip(from as int), p@, with@) == replaced(s@, p@, with@),
        decreases s@.len() - from,
    {
        proof {
            lemma_next_skip(s@, p@, from as int, 0);
        }
        match find_from(&s, &p, from) {
            Some(k) => {
                let ghost rest = s@.skip(from as int);
                let before = slice_text(&s, from, k);
                let ghost out0 = out@;
                out.append(before.as_str());
                out.append(with);
                proof {
                    assert(next_at(rest, p@, 0) == Some(k - from));
                    assert(rest.take(k - from) =~= s@.subrange(from as int, k as int));
                    assert(rest.skip(k - from + p@.len()) =~= s@.skip(k + p@.len()));
                    assert(out@ + replaced(s@.skip(k + p@.len()), p@, with@) =~= out0 + replaced(
                        rest,
                        p@,
                        with@,
                    ));
                }
                assert(k + p.len() <= s.len());
                from = k + p.len();
            },
            None => {
                let rest = slice_text(&s, from, s.len());
                out.append(rest.as_str());
                assert(rest@ =~= s@.skip(from as int));
                return out;
            },
        }
    }
}

/// Whether `c` has Unicode's `White_Space` property.
pub open spec fn white_space(c: char) -> bool {
    ||| '\u{9}' <= c <= '\u{d}'
    ||| c == ' '
    ||| c == '\u{85}'
    ||| c == '\u{a0}'
    ||| c == '\u{1680}'
    ||| '\u{2000}' <= c <= '\u{200a}'
    ||| c == '\u{2028}'
    ||| c == '\u{2029}'
    ||| c == '\u{202f}'
    ||| c == '\u{205f}'
    ||| c == '\u{3000}'
}

/// Whether `c` has Unicode's `White_Space` property.
pub fn is_space(c: char) -> (b: bool)
    ensures
        b == white_space(c),
{
    ('\u{9}' <= c && c <= '\u{d}') || c == ' ' || c == '\u{85}' || c == '\u{a0}' || c == '\u{1680}'
        || ('\u{2000}' <= c && c <= '\u{200a}') || c == '\u{2028}' || c == '\u{2029}' || c
        == '\u{202f}' || c == '\u{205f}' || c == '\u{3000}'
}

/// `s` without white space at its start.
pub open spec fn trimmed_start(s: Seq<char>) -> Seq<char>
    decreases s.len(),
{
    if s.len() > 0 && white_space(s[0]) {
        trimmed_start(s.skip(1))
    } else {
        s
    }
}

/// `s` without white space at its end.
pub open spec fn trimmed_end(s: Seq<char>) -> Seq<char>
    decreases s.len(),
{
    if s.len() > 0 && white_space(s.last()) {
        trimmed_end(s.drop_last())
    } else {
        s
    }
}

/// `s` without white space at either end.
pub open spec fn trimmed(s: Seq<char>) -> Seq<char> {
    trimmed_end(trimmed_start(s))
}

/// The bounds of `v[from..to]` without white space at either end.
pub fn trim_bounds(v: &Vec<char>, from: usize, to: usize) -> (r: (usize, usize))
    requires
        from <= to <= v@.len(),
    ensures
        from <= r.0 <= r.1 <= to,
        v@.subrange(r.0 as int, r.1 as int) == trimmed(v@.subrange(from as int, to as int)),
        r.0 < r.1 ==> !white_space(v@[r.0 as int]),
{
    let ghost whole = v@.subrange(from as int, to as int);
    let mut a: usize = from;
    while a < to && is_space(v[a])
        invariant
            from <= a <= to <= v@.len(),
            trimmed_start(v@.subrange(a as int, to as int)) == trimmed_start(whole),
        decreases to - a,
    {
        assert(v@.subrange(a as int, to as int).skip(1) =~= v@.subrange(a + 1, to as int));
        a += 1;
    }
    let ghost rest = v@.subrange(a as int, to as int);
    let mut b: usize = to;
    while b > a && is_space(v[b - 1])
        invariant
            from <= a <= b <= to <= v@.len(),
            trimmed_end(v@.subrange(a as int, b as int)) == trimmed_end(rest),
        decreases b,
    {
        assert(v@.subrange(a as int, b as int).drop_last() =~= v@.subrange(a as int, b - 1));
        b -= 1;
    }
    (a, b)
}

/// `s` without white space at either end.
pub fn trim_text(s: &str) -> (r: String)
    ensures
        r@ == trimmed(s@),
{
    let v = to_chars(s);
    let (a, b) = trim_bounds(&v, 0, v.len());
    assert(v@.subrange(0, v@.len() as int) =~= v@);
    slice_text(&v, a, b)
}

/// The end of the line that starts at `from`: the position of the next newline,
/// or of the end of the text.
pub open spec fn line_end(s: Seq<char>, from: int) -> int
    decreases s.len() - from,
{
    if from >= s.len() || s[from] == '\n' {
        from
    } else {
        line_end(s, from + 1)
    }
}

/// The line from `from` to `to`, without the carriage return before a newline.
pub open spec fn line_text(s: Seq<char>, from: int, to: int) -> Seq<char> {
    if to < s.len() && from < to && s[to - 1] == '\r' {
        s.subrange(from, to - 1)
    } else {
        s.subrange(from, to)
    }
}

/// The lines of `s` from position `from` on.
pub open spec fn lines_from(s: Seq<char>, from: int) -> Seq<Seq<char>>
    decreases s.len() + 1 - from,
{
    if from < 0 || from >= s.len() {
        seq![]
    } else {
        let to = line_end(s, from);
        if to < from || to > s.len() {
            seq![]
        } else {
            seq![line_text(s, from, to)] + lines_from(s, to + 1)
        }
    }
}

proof fn lemma_line_end(s: Seq<char>, from: int)
    requires
        0 <= from <= s.len(),
    ensures
        from <= line_end(s, from) <= s.len(),
        line_end(s, from) < s.len() ==> s[line_end(s, from)] == '\n',
    decreases s.len() - from,
{
    if from < s.len() && s[from] != '\n' {
        lemma_line_end(s, from + 1);
    }
}

/// The lines of `s`.
pub fn split_lines(s: &str) -> (lines: Vec<String>)
    ensures
        text_views(lines@) == lines_from(s@, 0),
{
    let v = to_chars(s);
    let mut lines: Vec<String> = Vec::new();
    let mut from: usize = 0;
    assert(text_views(lines@) + lines_from(v@, 0) =~= lines_from(v@, 0));
    while from < v.len()
        invariant
            v@ == s@,
            from <= v@.len(),
            text_views(lines@) + lines_from(v@, from as int) == lines_from(
                v@,
                0,
            ),
        decreases v@.len() - from,
    {
        let mut to: usize = from;
        while to < v.len() && v[to] != '\n'
            invariant
                from <= to <= v@.len(),
                line_end(v@, from as int) == line_end(v@, to as int),
            decreases v@.len() - to,
        {
            to += 1;
        }
        let ghost before = text_views(lines@);
        let line = if to < v.len() && from < to && v[to - 1] == '\r' {
            slice_text(&v, from, to - 1)
        } else {
            slice_text(&v, from, to)
        };
        let ghost lv = line@;
        lines.push(line);
        proof {
            assert(text_views(lines@) =~= before.push(lv));
            assert(before.push(lv) + lines_from(v@, to + 1) =~= before + (seq![lv] + lines_from(
                v@,
                to + 1,
            )));
        }
        from = if to < v.len() {
            to + 1
        } else {
            to
        };
        assert(to == v@.len() ==> lines_from(v@, to + 1) == lines_from(v@, to as int));
    }
    assert(text_views(lines@) + lines_from(v@, from as int)
        =~= text_views(lines@));
    lines
}

/// The order of texts by their first different character.
pub open spec fn text_le(a: Seq<char>, b: Seq<char>) -> bool
    decreases a.len(),
{
    if a.len() == 0 {
        true
    } else if b.len() == 0 {
        false
    } else if a[0] == b[0] {
        text_le(a.skip(1), b.skip(1))
    } else {
        a[0] < b[0]
    }
}

/// Of two texts one comes before the other, and both only where they are the
/// same.
pub proof fn lemma_text_le_total(a: Seq<char>, b: Seq<char>)
    ensures
        text_le(a, a),
        text_le(a, b) || text_le(b, a),
        text_le(a, b) && text_le(b, a) ==> a == b,
    decreases a.len(),
{
    if a.len() > 0 {
        lemma_text_le_total(a.skip(1), b.skip(1));
        if b.len() > 0 && a[0] == b[0] && a.skip(1) == b.skip(1) {
            assert(a =~= seq![a[0]] + a.skip(1));
            assert(b =~= seq![b[0]] + b.skip(1));
        }
    } else if b.len() == 0 {
        assert(a =~= b);
    }
}

/// The order of texts is transitive.
pub proof fn lemma_text_le_transitive(a: Seq<char>, b: Seq<char>, c: Seq<char>)
    requires
        text_le(a, b),
        text_le(b, c),
    ensures
        text_le(a, c),
    decreases a.len(),
{
    if a.len() > 0 && b.len() > 0 && c.len() > 0 && a[0] == b[0] && b[0] == c[0] {
        lemma_text_le_transitive(a.skip(1), b.skip(1), c.skip(1));
    }
}

/// Whether `a` comes before `b` or is the same.
pub fn not_after(a: &str, b: &str) -> (r: bool)
    ensures
        r == text_le(a@, b@),
{
    let x = to_chars(a);
    let y = to_chars(b);
    let mut i: usize = 0;
    assert(x@.skip(0) =~= x@);
    assert(y@.skip(0) =~= y@);
    while i < x.len() && i < y.len()
        invariant
            x@ == a@,
            y@ == b@,
            i <= x@.len(),
            i <= y@.len(),
            text_le(x@, y@) == text_le(x@.skip(i as int), y@.skip(i as int)),
        decreases x@.len() - i,
    {
        if x[i] != y[i] {
            return x[i] < y[i];
        }
        assert(x@.skip(i as int).skip(1) =~= x@.skip(i + 1));
        assert(y@.skip(i as int).skip(1) =~= y@.skip(i + 1));
        i += 1;
    }
    i == x.len()
}

/// The order of texts is total.
pub proof fn lemma_text_order()
    ensures
        total_ordering(|a: Seq<char>, b: Seq<char>| text_le(a, b)),
{
    let leq = |a: Seq<char>, b: Seq<char>| text_le(a, b);
    assert forall|x: Seq<char>, y: Seq<char>| (#[trigger] leq(x, y) || #[trigger] leq(y, x)) && leq(
        x,
        x,
    ) by {
        lemma_text_le_total(x, y);
    }
    assert forall|x: Seq<char>, y: Seq<char>| #[trigger] leq(x, y) && #[trigger] leq(
        y,
        x,
    ) implies x == y by {
        lemma_text_le_total(x, y);
    }
    assert forall|x: Seq<char>, y: Seq<char>, z: Seq<char>| #[trigger] leq(x, y) && #[trigger] leq(
        y,
        z,
    ) implies leq(x, z) by {
        lemma_text_le_transitive(x, y, z);
    }
    assert(reflexive(leq)) by {
        assert forall|x: Seq<char>| #[trigger] leq(x, x) by {
            lemma_text_le_total(x, x);
        }
    }
    assert(antisymmetric(leq));
    assert(transitive(leq));
    assert(strongly_connected(leq));
}

/// The texts in order.
pub open spec fn sorted_texts(list: Seq<Seq<char>>) -> Seq<Seq<char>> {
    list.sort_by(|a: Seq<char>, b: Seq<char>| text_le(a, b))
}

/// The texts in order.
pub fn sort_texts(list: &Vec<String>) -> (out: Vec<String>)
    ensures
        text_views(out@) == sorted_texts(text_views(list@)),
{
    broadcast use vstd::seq_lib::group_to_multiset_ensures;

    let ghost leq = |a: Seq<char>, b: Seq<char>| text_le(a, b);
    let ghost all = text_views(list@);
    let mut out: Vec<String> = Vec::new();
    let mut n: usize = 0;
    assert(text_views(out@) =~= all.take(0));
    while n < list.len()
        invariant
            all == text_views(list@),
            leq == (|a: Seq<char>, b: Seq<char>| text_le(a, b)),
            n <= list@.len(),
            text_views(out@).to_multiset() == all.take(n as int).to_multiset(),
            sorted_by(text_views(out@), leq),
        decreases list@.len() - n,
    {
        let ghost before = text_views(out@);
        let ghost p = all[n as int];
        let mut i: usize = 0;
        while i < out.len() && not_after(out[i].as_str(), list[n].as_str())
            invariant
                n < list@.len(),
                p == list@[n as int]@,
                before == text_views(out@),
                i <= out@.len(),
                forall|j: int| 0 <= j < i ==> text_le(#[trigger] before[j], p),
            decreases out@.len() - i,
        {
            i += 1;
        }
        out.insert(i, list[n].clone());
        proof {
            let after = text_views(out@);
            assert(after =~= before.insert(i as int, p));
            vstd::seq_lib::to_multiset_insert(before, i as int, p);
            assert(all.take(n + 1) =~= all.take(n as int).push(p));
            vstd::seq_lib::to_multiset_build(all.take(n as int), p);
            assert forall|a: int, b: int| 0 <= a < b < after.len() implies #[trigger] leq(
                after[a],
                after[b],
            ) by {
                if b == i {
                    assert(after[a] == before[a]);
                } else if a == i {
                    assert(after[b] == before[b - 1]);
                    let q = before[i as int];
                    lemma_text_le_total(q, p);
                    if b - 1 > i {
                        assert(leq(before[i as int], before[b - 1]));
                        lemma_text_le_transitive(p, q, before[b - 1]);
                    }
                } else {
                    let a0 = if a < i {
                        a
                    } else {
                        a - 1
                    };
                    let b0 = if b < i {
                        b
                    } else {
                        b - 1
                    };
                    assert(leq(before[a0], before[b0]));
                }
            }
        }
        n += 1;
    }
    proof {
        assert(all.take(n as int) =~= all);
        lemma_text_order();
        all.lemma_sort_by_ensures(leq);
        vstd::seq_lib::lemma_sorted_unique(text_views(out@), all.sort_by(leq), leq);
    }
    out
}

} // verus!
