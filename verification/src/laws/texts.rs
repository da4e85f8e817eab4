//! What the operations on text give, in terms of the characters.
use vstd::prelude::*;

use crate::text::{
    decimal_text, lemma_next_at, lemma_text_order, line_end, line_text, lines_from, next_at,
    occurs, occurs_at, replaced, sorted_texts, text_le, trimmed, trimmed_end, trimmed_start,
    white_space,
};

verus! {

/// White space are the tab, the line ends, the blank and the blanks of other
/// scripts.
pub proof fn white_space_by_its_code(c: char)
    ensures
        white_space(c) <==> {
            let n = c as int;
            9 <= n <= 13 || n == 32 || n == 133 || n == 160 || n == 5760 || 8192 <= n <= 8202 || n
                == 8232 || n == 8233 || n == 8239 || n == 8287 || n == 12288
        },
{
}

/// Whether a text has nothing but white space.
pub open spec fn blank(s: Seq<char>) -> bool {
    forall|i: int| 0 <= i < s.len() ==> white_space(#[trigger] s[i])
}

proof fn lemma_trimmed_start_parts(s: Seq<char>) -> (a: Seq<char>)
    ensures
        blank(a),
        s == a + trimmed_start(s),
        trimmed_start(s).len() > 0 ==> !white_space(trimmed_start(s)[0]),
    decreases s.len(),
{
    if s.len() > 0 && white_space(s[0]) {
        let b = lemma_trimmed_start_parts(s.skip(1));
        let a = seq![s[0]] + b;
        assert(s =~= seq![s[0]] + s.skip(1));
        assert(seq![s[0]] + (b + trimmed_start(s)) =~= a + trimmed_start(s));
        a
    } else {
        let a = Seq::<char>::empty();
        assert(s =~= a + trimmed_start(s));
        a
    }
}

proof fn lemma_trimmed_end_parts(s: Seq<char>) -> (b: Seq<char>)
    ensures
        blank(b),
        s == trimmed_end(s) + b,
        trimmed_end(s).len() > 0 ==> !white_space(trimmed_end(s).last()),
    decreases s.len(),
{
    if s.len() > 0 && white_space(s.last()) {
        let a = lemma_trimmed_end_parts(s.drop_last());
        let b = a.push(s.last());
        assert(s =~= s.drop_last().push(s.last()));
        assert((trimmed_end(s) + a).push(s.last()) =~= trimmed_end(s) + b);
        b
    } else {
        let b = Seq::<char>::empty();
        assert(s =~= trimmed_end(s) + b);
        b
    }
}

/// Trimming takes white space from both ends, and no more.
pub proof fn trimming_takes_the_blank_ends(s: Seq<char>)
    ensures
        exists|a: Seq<char>, b: Seq<char>|
            blank(a) && blank(b) && s == #[trigger] (a + trimmed(s) + b),
        trimmed(s).len() > 0 ==> !white_space(trimmed(s)[0]) && !white_space(trimmed(s).last()),
{
    let a = lemma_trimmed_start_parts(s);
    let b = lemma_trimmed_end_parts(trimmed_start(s));
    assert(s =~= a + trimmed(s) + b);
    if trimmed(s).len() > 0 {
        assert(trimmed(s)[0] == trimmed_start(s)[0]);
    }
}

/// A text that does not start or end with white space is what trimming leaves
/// of it, with whatever white space it is surrounded.
pub proof fn trimming_finds_the_text(a: Seq<char>, s: Seq<char>, b: Seq<char>)
    requires
        blank(a),
        blank(b),
        s.len() > 0 ==> !white_space(s[0]) && !white_space(s.last()),
    ensures
        trimmed(a + s + b) == s,
    decreases a.len() + b.len(),
{
    if a.len() > 0 {
        let whole = a + s + b;
        assert(white_space(a[0]));
        assert(whole.skip(1) =~= a.skip(1) + s + b);
        trimming_finds_the_text(a.skip(1), s, b);
    } else if s.len() == 0 {
        if b.len() > 0 {
            let whole = a + s + b;
            assert(white_space(b[0]));
            assert(whole.skip(1) =~= a + s + b.skip(1));
            trimming_finds_the_text(a, s, b.skip(1));
        } else {
            assert(a + s + b =~= s);
        }
    } else {
        let whole = a + s + b;
        assert(trimmed_start(whole) == whole);
        if b.len() > 0 {
            assert(white_space(b.last()));
            assert(whole.drop_last() =~= a + s + b.drop_last());
            trimming_finds_the_text(a, s, b.drop_last());
            assert((a + s + b.drop_last())[0] == s[0]);
        } else {
            assert(whole =~= s);
        }
    }
}

/// Nothing is left of a text just where it has nothing but white space.
pub proof fn nothing_is_left_of_a_blank(s: Seq<char>)
    ensures
        trimmed(s).len() == 0 <==> blank(s),
{
    trimming_takes_the_blank_ends(s);
    let (a, b) = choose|a: Seq<char>, b: Seq<char>|
        blank(a) && blank(b) && s == #[trigger] (a + trimmed(s) + b);
    if trimmed(s).len() > 0 {
        assert(s[a.len() as int] == trimmed(s)[0]);
    } else {
        assert forall|i: int| 0 <= i < s.len() implies white_space(#[trigger] s[i]) by {
            if i < a.len() {
                assert(s[i] == a[i]);
            } else {
                assert(s[i] == b[i - a.len()]);
            }
        }
    }
}

/// The parts of a text with `sep` between them.
pub open spec fn glued(parts: Seq<Seq<char>>, sep: Seq<char>) -> Seq<char>
    decreases parts.len(),
{
    if parts.len() == 0 {
        Seq::empty()
    } else if parts.len() == 1 {
        parts[0]
    } else {
        parts[0] + sep + glued(parts.skip(1), sep)
    }
}

/// Whether `parts` are what stands between the occurrences of `p`, taken from
/// the left.
pub open spec fn cut_at(parts: Seq<Seq<char>>, p: Seq<char>) -> bool {
    &&& parts.len() > 0
    &&& !occurs(parts.last(), p)
    &&& forall|i: int, j: int|
        0 <= i < parts.len() - 1 && 0 <= j < parts[i].len() ==> !#[trigger] occurs_at(
            parts[i] + p,
            p,
            j,
        )
}

/// Replacing keeps what stands between the occurrences of the pattern, and puts
/// the replacement for each of them.
pub proof fn replacing_swaps_what_is_between(s: Seq<char>, p: Seq<char>, r: Seq<char>)
    requires
        p.len() > 0,
    ensures
        exists|parts: Seq<Seq<char>>|
            cut_at(parts, p) && #[trigger] glued(parts, p) == s && glued(parts, r) == replaced(
                s,
                p,
                r,
            ),
{
    let parts = lemma_cut(s, p, r);
    assert(glued(parts, p) == s);
}

proof fn lemma_cut(s: Seq<char>, p: Seq<char>, r: Seq<char>) -> (parts: Seq<Seq<char>>)
    requires
        p.len() > 0,
    ensures
        cut_at(parts, p),
        glued(parts, p) == s,
        glued(parts, r) == replaced(s, p, r),
    decreases s.len(),
{
    lemma_next_at(s, p, 0);
    match next_at(s, p, 0) {
        Some(k) => {
            let rest = s.skip(k + p.len());
            let more = lemma_cut(rest, p, r);
            let head = s.take(k);
            let parts = seq![head] + more;
            assert(parts.skip(1) =~= more);
            assert(s =~= head + p + rest) by {
                assert(s.subrange(k, k + p.len()) == p);
                assert forall|i: int| 0 <= i < s.len() implies s[i] == (head + p + rest)[i] by {
                    if k <= i < k + p.len() {
                        assert(s.subrange(k, k + p.len())[i - k] == s[i]);
                    }
                }
            }
            assert(glued(parts, p) == head + p + glued(more, p));
            assert(glued(parts, r) == head + r + glued(more, r));
            assert(parts.last() == more.last());
            assert forall|i: int, j: int|
                0 <= i < parts.len() - 1 && 0 <= j < parts[i].len() implies !#[trigger] occurs_at(
                parts[i] + p,
                p,
                j,
            ) by {
                if i == 0 {
                    if occurs_at(head + p, p, j) {
                        assert(s.subrange(j, j + p.len()) =~= (head + p).subrange(j, j + p.len()));
                        assert(occurs_at(s, p, j));
                    }
                } else {
                    assert(parts[i] == more[i - 1]);
                    assert(!occurs_at(more[i - 1] + p, p, j));
                }
            }
            parts
        },
        None => {
            let parts = seq![s];
            assert(!occurs(s, p));
            parts
        },
    }
}

/// The number that decimal digits spell.
pub open spec fn number_of(s: Seq<char>) -> int
    decreases s.len(),
{
    if s.len() == 0 {
        0
    } else {
        10 * number_of(s.drop_last()) + (s.last() as int - '0' as int)
    }
}

/// The digits of a number spell it, and the first is 0 only for 0 itself.
pub proof fn digits_spell_the_number(n: nat)
    ensures
        number_of(decimal_text(n)) == n,
        decimal_text(n).len() > 0,
        forall|i: int|
            0 <= i < decimal_text(n).len() ==> '0' <= #[trigger] decimal_text(n)[i] <= '9',
        decimal_text(n)[0] == '0' ==> n == 0,
    decreases n,
{
    if n < 10 {
        let s = decimal_text(n);
        assert(s.drop_last() =~= Seq::<char>::empty());
        assert(number_of(s.drop_last()) == 0);
    } else {
        digits_spell_the_number(n / 10);
        let s = decimal_text(n);
        assert(s.drop_last() =~= decimal_text(n / 10));
        assert(s[0] == decimal_text(n / 10)[0]);
    }
}

/// A text comes before another where it is the start of it, or where it has the
/// smaller character at the first place at which they differ.
pub proof fn order_of_texts(a: Seq<char>, b: Seq<char>)
    ensures
        text_le(a, b) <==> a.is_prefix_of(b) || exists|k: int|
            0 <= k < a.len() && k < b.len() && a.take(k) == b.take(k) && #[trigger] a[k] < b[k],
    decreases a.len(),
{
    if a.len() == 0 {
        assert(a =~= b.subrange(0, 0));
    } else if b.len() == 0 {
    } else if a[0] == b[0] {
        let x = a.skip(1);
        let y = b.skip(1);
        order_of_texts(x, y);
        if x.is_prefix_of(y) {
            assert(a =~= b.subrange(0, a.len() as int)) by {
                assert forall|i: int| 0 <= i < a.len() implies a[i] == b[i] by {
                    if i > 0 {
                        assert(x[i - 1] == y.subrange(0, x.len() as int)[i - 1]);
                    }
                }
            }
        } else if text_le(x, y) {
            let k = choose|k: int|
                0 <= k < x.len() && k < y.len() && x.take(k) == y.take(k) && #[trigger] x[k] < y[k];
            assert(a[k + 1] < b[k + 1]);
            assert(a.take(k + 1) =~= b.take(k + 1)) by {
                assert forall|i: int| 0 <= i < k + 1 implies a[i] == b[i] by {
                    if i > 0 {
                        assert(x.take(k)[i - 1] == y.take(k)[i - 1]);
                    }
                }
            }
        }
        if a.is_prefix_of(b) {
            assert(x =~= y.subrange(0, x.len() as int)) by {
                assert forall|i: int| 0 <= i < x.len() implies x[i] == y[i] by {
                    assert(a[i + 1] == b.subrange(0, a.len() as int)[i + 1]);
                }
            }
        }
        if exists|k: int|
            0 <= k < a.len() && k < b.len() && a.take(k) == b.take(k) && #[trigger] a[k] < b[k] {
            let k = choose|k: int|
                0 <= k < a.len() && k < b.len() && a.take(k) == b.take(k) && #[trigger] a[k] < b[k];
            assert(x[k - 1] < y[k - 1]);
            assert(x.take(k - 1) =~= y.take(k - 1)) by {
                assert forall|i: int| 0 <= i < k - 1 implies x[i] == y[i] by {
                    assert(a.take(k)[i + 1] == b.take(k)[i + 1]);
                }
            }
        }
    } else {
        if a.is_prefix_of(b) {
            assert(a[0] == b.subrange(0, a.len() as int)[0]);
        }
        if a[0] < b[0] {
            assert(a.take(0) =~= b.take(0));
        }
        if exists|k: int|
            0 <= k < a.len() && k < b.len() && a.take(k) == b.take(k) && #[trigger] a[k] < b[k] {
            let k = choose|k: int|
                0 <= k < a.len() && k < b.len() && a.take(k) == b.take(k) && #[trigger] a[k] < b[k];
            if k > 0 {
                assert(a.take(k)[0] == b.take(k)[0]);
            }
        }
    }
}

/// Sorting keeps the texts and puts none before one that comes before it.
pub proof fn sorting_orders_the_texts(list: Seq<Seq<char>>)
    ensures
        sorted_texts(list).to_multiset() == list.to_multiset(),
        forall|i: int, j: int|
            0 <= i < j < sorted_texts(list).len() ==> text_le(
                #[trigger] sorted_texts(list)[i],
                #[trigger] sorted_texts(list)[j],
            ),
{
    let leq = |a: Seq<char>, b: Seq<char>| text_le(a, b);
    lemma_text_order();
    list.lemma_sort_by_ensures(leq);
    assert forall|i: int, j: int| 0 <= i < j < sorted_texts(list).len() implies text_le(
        #[trigger] sorted_texts(list)[i],
        #[trigger] sorted_texts(list)[j],
    ) by {
        assert(leq(sorted_texts(list)[i], sorted_texts(list)[j]));
    }
}

/// The lines, each with its line end.
pub open spec fn with_ends(lines: Seq<Seq<char>>, ends: Seq<Seq<char>>) -> Seq<char>
    decreases lines.len(),
{
    if lines.len() == 0 {
        Seq::empty()
    } else {
        lines[0] + ends[0] + with_ends(lines.skip(1), ends.skip(1))
    }
}

/// Whether `end` may stand behind `line`: a newline, with a carriage return
/// before it just where the line lost one; or nothing, behind the last line.
pub open spec fn line_ends_with(line: Seq<char>, end: Seq<char>, last: bool) -> bool {
    ||| end == seq!['\r', '\n']
    ||| end == seq!['\n'] && (line.len() > 0 ==> line.last() != '\r')
    ||| end.len() == 0 && last && line.len() > 0
}

/// The lines make up the text with their line ends, and no newline stands in
/// any of them.
pub proof fn lines_make_up_the_text(s: Seq<char>)
    ensures
        exists|ends: Seq<Seq<char>>|
            ends.len() == lines_from(s, 0).len() && #[trigger] with_ends(lines_from(s, 0), ends)
                == s && forall|i: int|
                0 <= i < ends.len() ==> line_ends_with(
                    lines_from(s, 0)[i],
                    #[trigger] ends[i],
                    i == ends.len() - 1,
                ),
        forall|i: int|
            0 <= i < lines_from(s, 0).len() ==> !(#[trigger] lines_from(s, 0)[i]).contains('\n'),
{
    let ends = lemma_lines(s, 0);
    assert(s.skip(0) =~= s);
    assert(with_ends(lines_from(s, 0), ends) == s);
}

proof fn lemma_no_newline(s: Seq<char>, from: int)
    requires
        0 <= from <= s.len(),
    ensures
        from <= line_end(s, from) <= s.len(),
        line_end(s, from) < s.len() ==> s[line_end(s, from)] == '\n',
        forall|i: int| from <= i < line_end(s, from) ==> s[i] != '\n',
    decreases s.len() - from,
{
    if from < s.len() && s[from] != '\n' {
        lemma_no_newline(s, from + 1);
    }
}

proof fn lemma_lines(s: Seq<char>, from: int) -> (ends: Seq<Seq<char>>)
    requires
        0 <= from <= s.len(),
    ensures
        ends.len() == lines_from(s, from).len(),
        with_ends(lines_from(s, from), ends) == s.skip(from),
        forall|i: int|
            0 <= i < ends.len() ==> line_ends_with(
                lines_from(s, from)[i],
                #[trigger] ends[i],
                i == ends.len() - 1,
            ),
        forall|i: int|
            0 <= i < lines_from(s, from).len() ==> !(#[trigger] lines_from(s, from)[i]).contains(
                '\n',
            ),
    decreases s.len() - from,
{
    if from < s.len() {
        let to = line_end(s, from);
        lemma_no_newline(s, from);
        let line = line_text(s, from, to);
        assert(!line.contains('\n')) by {
            if line.contains('\n') {
                let i = choose|i: int| 0 <= i < line.len() && line[i] == '\n';
                assert(s[from + i] == '\n');
            }
        }
        let lines = lines_from(s, from);
        if to < s.len() {
            let rest = lines_from(s, to + 1);
            let more = lemma_lines(s, to + 1);
            let end = if from < to && s[to - 1] == '\r' {
                seq!['\r', '\n']
            } else {
                seq!['\n']
            };
            let ends = seq![end] + more;
            assert(lines =~= seq![line] + rest);
            assert(lines.skip(1) =~= rest);
            assert(ends.skip(1) =~= more);
            assert(line + end =~= s.subrange(from, to + 1));
            assert(s.skip(from) =~= line + end + s.skip(to + 1));
            assert(line_ends_with(line, end, ends.len() == 1));
            assert forall|i: int| 0 <= i < ends.len() implies line_ends_with(
                lines[i],
                #[trigger] ends[i],
                i == ends.len() - 1,
            ) by {
                if i > 0 {
                    assert(ends[i] == more[i - 1]);
                    assert(lines[i] == rest[i - 1]);
                }
            }
            assert forall|i: int| 0 <= i < lines.len() implies !(#[trigger] lines[i]).contains(
                '\n',
            ) by {
                if i > 0 {
                    assert(lines[i] == rest[i - 1]);
                }
            }
            ends
        } else {
            assert(lines_from(s, to + 1) =~= seq![]);
            assert(lines =~= seq![line]);
            let end = Seq::<char>::empty();
            let ends = seq![end];
            assert(lines.skip(1) =~= seq![]);
            assert(with_ends(lines.skip(1), ends.skip(1)) =~= seq![]);
            assert(line =~= s.skip(from));
            assert(line + end + with_ends(lines.skip(1), ends.skip(1)) =~= line);
            ends
        }
    } else {
        let ends = Seq::<Seq<char>>::empty();
        assert(s.skip(from) =~= seq![]);
        ends
    }
}

} // verus!
