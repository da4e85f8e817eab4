//! Metrics in the output of a process.
use vstd::prelude::*;

use crate::keyed::KeyMap;
use crate::optimizer::adapter::pair_views;
use crate::score::{Score, ScoreArithmetic};
use crate::text::{
    is_space, lines_from, slice_text, split_lines, text_views, to_chars, trim_bounds, trimmed,
    white_space,
};

verus! {

/// The end of the part that starts at `from` and that `mark` ends: the position
/// of the next `mark`, or of the end of the text.
pub open spec fn part_end(s: Seq<char>, mark: char, from: int) -> int
    decreases s.len() - from,
{
    if from >= s.len() || s[from] == mark {
        from
    } else {
        part_end(s, mark, from + 1)
    }
}

/// The key of a segment, and what stands behind it, where it has a colon or
/// else an equals sign.
pub open spec fn split_segment(s: Seq<char>) -> Option<(Seq<char>, Seq<char>)> {
    let colon = part_end(s, ':', 0);
    let equals = part_end(s, '=', 0);
    if colon < s.len() {
        Some((s.take(colon), s.skip(colon + 1)))
    } else if equals < s.len() {
        Some((s.take(equals), s.skip(equals + 1)))
    } else {
        None
    }
}

/// The position of the first white space at or after `from`.
pub open spec fn word_end(s: Seq<char>, from: int) -> int
    decreases s.len() - from,
{
    if from >= s.len() || white_space(s[from]) {
        from
    } else {
        word_end(s, from + 1)
    }
}

/// Whether `c` may follow a number without belonging to it.
pub open spec fn is_suffix_mark(c: char) -> bool {
    c == ',' || c == ';' || c == '%'
}

/// `s` without marks at its end that do not belong to a number.
pub open spec fn without_marks(s: Seq<char>) -> Seq<char>
    decreases s.len(),
{
    if s.len() > 0 && is_suffix_mark(s.last()) {
        without_marks(s.drop_last())
    } else {
        s
    }
}

/// The first word of `s`, without marks at its end; nothing where there is no
/// word.
pub open spec fn value_token(s: Seq<char>) -> Option<Seq<char>> {
    let t = trimmed(s);
    if t.len() == 0 {
        None
    } else {
        Some(without_marks(t.take(word_end(t, 0))))
    }
}

/// The key of a segment and the token that is its value, where it has both.
pub open spec fn segment_token(segment: Seq<char>) -> Option<(Seq<char>, Seq<char>)> {
    match split_segment(trimmed(segment)) {
        Some((key, rest)) => if trimmed(key).len() == 0 {
            None
        } else {
            match value_token(rest) {
                Some(token) => Some((trimmed(key), token)),
                None => None,
            }
        },
        None => None,
    }
}

/// The keys and tokens of the segments of a line from position `from` on.
pub open spec fn line_tokens(line: Seq<char>, from: int) -> Seq<(Seq<char>, Seq<char>)>
    decreases line.len() + 1 - from,
{
    if from < 0 || from > line.len() {
        seq![]
    } else {
        let to = part_end(line, '|', from);
        if to < from || to > line.len() {
            seq![]
        } else {
            (match segment_token(line.subrange(from, to)) {
                Some(t) => seq![t],
                None => seq![],
            }) + line_tokens(line, to + 1)
        }
    }
}

/// The keys and tokens of the first `n` lines.
pub open spec fn all_tokens(lines: Seq<Seq<char>>, n: int) -> Seq<(Seq<char>, Seq<char>)>
    decreases n,
{
    if n <= 0 {
        seq![]
    } else {
        all_tokens(lines, n - 1) + line_tokens(lines[n - 1], 0)
    }
}

fn find_mark(v: &Vec<char>, mark: char, from: usize) -> (r: usize)
    requires
        from <= v@.len(),
    ensures
        r == part_end(v@, mark, from as int),
        from <= r <= v@.len(),
{
    let mut i: usize = from;
    while i < v.len() && v[i] != mark
        invariant
            from <= i <= v@.len(),
            part_end(v@, mark, from as int) == part_end(v@, mark, i as int),
        decreases v@.len() - i,
    {
        i += 1;
    }
    i
}

fn trim_vec(v: &Vec<char>, from: usize, to: usize) -> (r: Vec<char>)
    requires
        from <= to <= v@.len(),
    ensures
        r@ == trimmed(v@.subrange(from as int, to as int)),
{
    let (a, b) = trim_bounds(v, from, to);
    let s = slice_text(v, a, b);
    to_chars(s.as_str())
}

/// The first word of `v` from position `from` on, without marks at its end.
fn find_token(v: &Vec<char>, from: usize) -> (r: Option<String>)
    requires
        from <= v@.len(),
    ensures
        (match r {
            Some(t) => Some(t@),
            None => None,
        }) == value_token(v@.skip(from as int)),
{
    let t = trim_vec(v, from, v.len());
    assert(v@.subrange(from as int, v@.len() as int) =~= v@.skip(from as int));
    if t.len() == 0 {
        return None;
    }
    let mut end: usize = 0;
    while end < t.len() && !is_space(t[end])
        invariant
            end <= t@.len(),
            word_end(t@, 0) == word_end(t@, end as int),
        decreases t@.len() - end,
    {
        end += 1;
    }
    let ghost word = t@.take(end as int);
    let mut n: usize = end;
    while n > 0 && (t[n - 1] == ',' || t[n - 1] == ';' || t[n - 1] == '%')
        invariant
            n <= end <= t@.len(),
            without_marks(t@.take(n as int)) == without_marks(word),
        decreases n,
    {
        assert(t@.take(n as int).drop_last() =~= t@.take(n - 1));
        n -= 1;
    }
    let token = slice_text(&t, 0, n);
    assert(token@ =~= t@.take(n as int));
    Some(token)
}

/// The key of a segment and the token that is its value.
fn parse_metric_segment(line: &Vec<char>, from: usize, to: usize) -> (r: Option<(String, String)>)
    requires
        from <= to <= line@.len(),
    ensures
        (match r {
            Some(t) => Some((t.0@, t.1@)),
            None => None,
        }) == segment_token(line@.subrange(from as int, to as int)),
{
    let s = trim_vec(line, from, to);
    let colon: usize = find_mark(&s, ':', 0);
    let at: usize = if colon < s.len() {
        colon
    } else {
        let equals: usize = find_mark(&s, '=', 0);
        if equals == s.len() {
            return None;
        }
        equals
    };
    let (a, b) = trim_bounds(&s, 0, at);
    assert(s@.subrange(0, at as int) =~= s@.take(at as int));
    let key = slice_text(&s, a, b);
    if a == b {
        assert(key@.len() == 0);
        return None;
    }
    match find_token(&s, at + 1) {
        Some(token) => Some((key, token)),
        None => None,
    }
}

/// The keys and tokens of the segments of a line.
fn parse_line(line: &str, tokens: &mut Vec<(String, String)>)
    ensures
        pair_views(final(tokens)@) == pair_views(old(tokens)@) + line_tokens(line@, 0),
{
    let ghost before = pair_views(tokens@);
    let v = to_chars(line);
    let mut from: usize = 0;
    assert(pair_views(tokens@) + line_tokens(v@, 0) =~= before + line_tokens(v@, 0));
    loop
        invariant
            v@ == line@,
            from <= v@.len(),
            before == pair_views(old(tokens)@),
            pair_views(tokens@) + line_tokens(v@, from as int) == before + line_tokens(v@, 0),
        decreases v@.len() - from,
    {
        let to: usize = find_mark(&v, '|', from);
        let ghost t0 = pair_views(tokens@);
        match parse_metric_segment(&v, from, to) {
            Some(t) => {
                let ghost tv = (t.0@, t.1@);
                tokens.push(t);
                proof {
                    assert(pair_views(tokens@) =~= t0.push(tv));
                    assert(t0.push(tv) + line_tokens(v@, to + 1) =~= t0 + (seq![tv] + line_tokens(
                        v@,
                        to + 1,
                    )));
                }
            },
            None => {
                assert(t0 + line_tokens(v@, to + 1) =~= t0 + (Seq::<
                    (Seq<char>, Seq<char>),
                >::empty() + line_tokens(v@, to + 1)));
            },
        }
        if to == v.len() {
            assert(line_tokens(v@, to + 1) =~= seq![]);
            assert(pair_views(tokens@) + line_tokens(v@, to + 1) =~= pair_views(tokens@));
            return;
        }
        from = to + 1;
    }
}

/// The keys and the tokens that are their values in the output of a process:
/// every line may have several segments with a bar between them, and each
/// segment a key, a colon or an equals sign, and a value.
pub fn metric_tokens(stdout: &str) -> (tokens: Vec<(String, String)>)
    ensures
        pair_views(tokens@) == all_tokens(
            lines_from(stdout@, 0),
            lines_from(stdout@, 0).len() as int,
        ),
{
    let lines = split_lines(stdout);
    let ghost all = lines_from(stdout@, 0);
    let mut tokens: Vec<(String, String)> = Vec::new();
    let mut i: usize = 0;
    assert(pair_views(tokens@) =~= all_tokens(all, 0));
    while i < lines.len()
        invariant
            all == text_views(lines@),
            i <= lines@.len(),
            pair_views(tokens@) == all_tokens(all, i as int),
        decreases lines@.len() - i,
    {
        assert(all[i as int] == lines@[i as int]@);
        parse_line(lines[i].as_str(), &mut tokens);
        i += 1;
    }
    tokens
}

/// Whether `arith` may read the token as `number`.
pub open spec fn reads_as<A: ScoreArithmetic>(
    arith: A,
    token: Seq<char>,
    number: Option<Score>,
) -> bool {
    exists|text: String|
        text@ == token && #[trigger] call_ensures(A::parse, (&arith, &text), number)
}

/// The metrics of the first `n` tokens, read as `numbers`. Of a key that occurs
/// more than once the last number counts; a token that is no number does not.
pub open spec fn metrics_of(
    tokens: Seq<(Seq<char>, Seq<char>)>,
    numbers: Seq<Option<Score>>,
    n: int,
) -> Map<Seq<char>, Score>
    decreases n,
{
    if n <= 0 {
        Map::empty()
    } else {
        let before = metrics_of(tokens, numbers, n - 1);
        match numbers[n - 1] {
            Some(s) => before.insert(tokens[n - 1].0, s),
            None => before,
        }
    }
}

/// Whether `numbers` are what `arith` may read the tokens as.
pub open spec fn all_read_as<A: ScoreArithmetic>(
    arith: A,
    tokens: Seq<(Seq<char>, Seq<char>)>,
    numbers: Seq<Option<Score>>,
) -> bool {
    &&& numbers.len() == tokens.len()
    &&& forall|i: int| 0 <= i < tokens.len() ==> reads_as(arith, tokens[i].1, #[trigger] numbers[i])
}

/// The metrics with the keys and tokens of `list`.
fn read_metrics<A: ScoreArithmetic>(list: &Vec<(String, String)>, arith: &A) -> (metrics: KeyMap<
    String,
    Score,
>)
    ensures
        metrics.wf(),
        exists|numbers: Seq<Option<Score>>|
            #[trigger] all_read_as(*arith, pair_views(list@), numbers) && metrics@ == metrics_of(
                pair_views(list@),
                numbers,
                numbers.len() as int,
            ),
{
    let ghost tokens = pair_views(list@);
    let ghost mut numbers: Seq<Option<Score>> = Seq::empty();
    let mut metrics: KeyMap<String, Score> = KeyMap::new();
    let mut i: usize = 0;
    while i < list.len()
        invariant
            tokens == pair_views(list@),
            i <= list@.len(),
            metrics.wf(),
            numbers.len() == i,
            forall|j: int| 0 <= j < i ==> reads_as(*arith, tokens[j].1, #[trigger] numbers[j]),
            metrics@ == metrics_of(tokens, numbers, i as int),
        decreases list@.len() - i,
    {
        let number = arith.parse(&list[i].1);
        proof {
            let text = list@[i as int].1;
            assert(call_ensures(A::parse, (arith, &text), number));
            assert(reads_as(*arith, tokens[i as int].1, number));
            let before = numbers;
            numbers = numbers.push(number);
            assert forall|j: int| 0 <= j < i + 1 implies reads_as(
                *arith,
                tokens[j].1,
                #[trigger] numbers[j],
            ) by {
                if j < i {
                    assert(numbers[j] == before[j]);
                }
            }
            lemma_metrics_prefix(tokens, before, number, i as int);
        }
        if let Some(s) = number {
            metrics.insert(list[i].0.clone(), s);
        }
        i += 1;
    }
    assert(all_read_as(*arith, tokens, numbers));
    metrics
}

proof fn lemma_metrics_prefix(
    tokens: Seq<(Seq<char>, Seq<char>)>,
    numbers: Seq<Option<Score>>,
    more: Option<Score>,
    n: int,
)
    requires
        n <= numbers.len(),
    ensures
        metrics_of(tokens, numbers.push(more), n) == metrics_of(tokens, numbers, n),
    decreases n,
{
    if n > 0 {
        lemma_metrics_prefix(tokens, numbers, more, n - 1);
    }
}

/// The metrics in the output of a process, by key.
pub fn parse_key_value_metrics<A: ScoreArithmetic>(stdout: &str, arith: &A) -> (metrics: KeyMap<
    String,
    Score,
>)
    ensures
        metrics.wf(),
        ({
            let lines = lines_from(stdout@, 0);
            let tokens = all_tokens(lines, lines.len() as int);
            exists|numbers: Seq<Option<Score>>|
                #[trigger] all_read_as(*arith, tokens, numbers) && metrics@ == metrics_of(
                    tokens,
                    numbers,
                    numbers.len() as int,
                )
        }),
{
    let list = metric_tokens(stdout);
    read_metrics(&list, arith)
}

} // verus!
