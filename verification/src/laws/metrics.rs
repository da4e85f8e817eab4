//! How the output of a process is read and scored.
use vstd::prelude::*;

use crate::adapters::metrics::{
    all_tokens, is_suffix_mark, line_tokens, metrics_of, part_end, segment_token, split_segment,
    value_token, without_marks, word_end,
};
use crate::adapters::process::{
    failure_score, feedback_text, first_missing, is_feedback, is_record, objectives_by,
    signed_text, underscored, ProcessTrace, ScoreDirection, MAX_STDERR_CHARS,
};
use crate::laws::prompts::{
    a_part_occurs, an_object_has_what_its_fields_have, has_text, lemma_glued_push,
    lemma_without_the_end,
};
use crate::laws::texts::{blank, digits_spell_the_number, glued, nothing_is_left_of_a_blank, number_of};
use crate::score::Score;
use crate::strategies::instruction_proposal::{lemma_trimmed_end_after, lemma_trimmed_start_before};
use crate::strategies::markdown::Json;
use crate::text::{
    decimal_text, lines_from, occurs, occurs_at, trimmed, trimmed_end, trimmed_start, white_space,
};

verus! {

/// A part ends at the first mark, or at the end of the text.
pub proof fn a_part_ends_at_the_first_mark(s: Seq<char>, mark: char, from: int)
    requires
        0 <= from <= s.len(),
    ensures
        from <= part_end(s, mark, from) <= s.len(),
        part_end(s, mark, from) < s.len() ==> s[part_end(s, mark, from)] == mark,
        forall|i: int| from <= i < part_end(s, mark, from) ==> s[i] != mark,
    decreases s.len() - from,
{
    if from < s.len() && s[from] != mark {
        a_part_ends_at_the_first_mark(s, mark, from + 1);
    }
}

/// A segment is split at its first colon; at its first equals sign where it has
/// no colon; and not at all where it has neither.
pub proof fn a_segment_is_split_at_its_sign(key: Seq<char>, rest: Seq<char>)
    requires
        !key.contains(':'),
    ensures
        split_segment(key + seq![':'] + rest) == Some((key, rest)),
        !key.contains('=') && !rest.contains(':') ==> split_segment(key + seq!['='] + rest) == Some(
            (key, rest),
        ),
        !key.contains('=') ==> split_segment(key) is None,
{
    let n = key.len() as int;
    let s = key + seq![':'] + rest;
    lemma_part(key, ':', rest);
    assert(s.take(n) =~= key);
    assert(s.skip(n + 1) =~= rest);
    if !key.contains('=') && !rest.contains(':') {
        let t = key + seq!['='] + rest;
        lemma_part(key, '=', rest);
        a_part_ends_at_the_first_mark(t, ':', 0);
        let c = part_end(t, ':', 0);
        if c < t.len() {
            if c < n {
                assert(key[c] == ':');
            } else if c > n {
                assert(rest[c - n - 1] == ':');
            }
        }
        assert(t.take(n) =~= key);
        assert(t.skip(n + 1) =~= rest);
    }
    if !key.contains('=') {
        a_part_ends_at_the_first_mark(key, ':', 0);
        a_part_ends_at_the_first_mark(key, '=', 0);
        let c = part_end(key, ':', 0);
        let e = part_end(key, '=', 0);
        if c < n {
            assert(key[c] == ':');
        }
        if e < n {
            assert(key[e] == '=');
        }
    }
}

proof fn lemma_part(key: Seq<char>, mark: char, rest: Seq<char>)
    requires
        !key.contains(mark),
    ensures
        part_end(key + seq![mark] + rest, mark, 0) == key.len(),
{
    let s = key + seq![mark] + rest;
    a_part_ends_at_the_first_mark(s, mark, 0);
    let e = part_end(s, mark, 0);
    if e < key.len() {
        assert(key[e] == mark);
    }
    assert(s[key.len() as int] == mark);
}

/// A word ends at the first white space, or at the end of the text.
pub proof fn a_word_ends_at_the_first_white_space(s: Seq<char>, from: int)
    requires
        0 <= from <= s.len(),
    ensures
        from <= word_end(s, from) <= s.len(),
        word_end(s, from) < s.len() ==> white_space(s[word_end(s, from)]),
        forall|i: int| from <= i < word_end(s, from) ==> !white_space(#[trigger] s[i]),
    decreases s.len() - from,
{
    if from < s.len() && !white_space(s[from]) {
        a_word_ends_at_the_first_white_space(s, from + 1);
    }
}

/// Commas, semicolons and percent signs are taken off the end of a number, all of
/// them and nothing else.
pub proof fn only_marks_are_taken_off(s: Seq<char>)
    ensures
        without_marks(s).is_prefix_of(s),
        without_marks(s).len() > 0 ==> !(without_marks(s).last() == ','
            || without_marks(s).last() == ';' || without_marks(s).last() == '%'),
        forall|i: int|
            without_marks(s).len() <= i < s.len() ==> (#[trigger] s[i] == ',' || s[i] == ';' || s[i]
                == '%'),
    decreases s.len(),
{
    if s.len() > 0 && is_suffix_mark(s.last()) {
        only_marks_are_taken_off(s.drop_last());
        let r = without_marks(s);
        assert(r =~= s.subrange(0, r.len() as int)) by {
            assert(r == s.drop_last().subrange(0, r.len() as int));
        }
        assert forall|i: int| r.len() <= i < s.len() implies (#[trigger] s[i] == ',' || s[i] == ';'
            || s[i] == '%') by {
            if i < s.len() - 1 {
                assert(s.drop_last()[i] == s[i]);
            }
        }
    } else {
        assert(s =~= s.subrange(0, s.len() as int));
    }
}

proof fn lemma_marks_off(word: Seq<char>, marks: Seq<char>)
    requires
        word.len() > 0,
        !is_suffix_mark(word.last()),
        forall|i: int| 0 <= i < marks.len() ==> is_suffix_mark(#[trigger] marks[i]),
    ensures
        without_marks(word + marks) == word,
    decreases marks.len(),
{
    if marks.len() > 0 {
        assert(is_suffix_mark(marks.last()));
        assert((word + marks).drop_last() =~= word + marks.drop_last());
        lemma_marks_off(word, marks.drop_last());
    } else {
        assert(word + marks =~= word);
    }
}

/// The value of a text is its first word, without marks at its end.
pub proof fn the_value_is_the_first_word(
    space: Seq<char>,
    word: Seq<char>,
    marks: Seq<char>,
    rest: Seq<char>,
)
    requires
        blank(space),
        word.len() > 0,
        forall|i: int| 0 <= i < word.len() ==> !white_space(#[trigger] word[i]),
        !is_suffix_mark(word.last()),
        forall|i: int| 0 <= i < marks.len() ==> is_suffix_mark(#[trigger] marks[i]),
        rest.len() > 0 ==> white_space(rest[0]),
    ensures
        value_token(space + word + marks + rest) == Some(word),
{
    let core = word + marks;
    let s = space + word + marks + rest;
    assert(s =~= space + (core + rest));
    assert(core[0] == word[0]);
    lemma_trimmed_start_before(space, core + rest);
    nothing_is_left_of_a_blank(space);
    assert(trimmed_start(space).len() == 0) by {
        lemma_blank_start(space);
    }
    assert(trimmed_start(s) =~= core + rest);
    assert(!white_space(core.last())) by {
        if marks.len() > 0 {
            assert(is_suffix_mark(marks.last()));
            assert(core.last() == marks.last());
        } else {
            assert(core =~= word);
        }
    }
    lemma_trimmed_end_after(core, rest);
    let tail = trimmed_end(rest);
    let t = trimmed(s);
    assert(t == core + tail);
    a_word_ends_at_the_first_white_space(t, 0);
    let e = word_end(t, 0);
    assert forall|i: int| 0 <= i < core.len() implies !white_space(#[trigger] core[i]) by {
        if i < word.len() {
            assert(core[i] == word[i]);
        } else {
            assert(core[i] == marks[i - word.len()]);
            assert(is_suffix_mark(marks[i - word.len()]));
        }
    }
    if e < core.len() {
        assert(t[e] == core[e]);
        assert(!white_space(core[e]));
    }
    if e > core.len() {
        lemma_end_keeps_the_start(rest);
        assert(t[core.len() as int] == tail[0]);
        assert(tail[0] == rest[0]);
    }
    assert(t.take(e) =~= core);
    lemma_marks_off(word, marks);
}

proof fn lemma_blank_start(s: Seq<char>)
    requires
        blank(s),
    ensures
        trimmed_start(s).len() == 0,
    decreases s.len(),
{
    if s.len() > 0 {
        assert(white_space(s[0]));
        assert(blank(s.skip(1)));
        lemma_blank_start(s.skip(1));
    }
}

proof fn lemma_end_keeps_the_start(s: Seq<char>)
    ensures
        trimmed_end(s).len() <= s.len(),
        trimmed_end(s).len() > 0 ==> trimmed_end(s)[0] == s[0],
    decreases s.len(),
{
    if s.len() > 0 && white_space(s.last()) {
        lemma_end_keeps_the_start(s.drop_last());
    }
}

proof fn lemma_start_once(s: Seq<char>)
    ensures
        trimmed_start(trimmed_start(s)) == trimmed_start(s),
        trimmed_start(s).len() <= s.len(),
    decreases s.len(),
{
    if s.len() > 0 && white_space(s[0]) {
        lemma_start_once(s.skip(1));
    }
}

proof fn lemma_start_without(s: Seq<char>, c: char)
    requires
        !s.contains(c),
    ensures
        !trimmed_start(s).contains(c),
{
    crate::strategies::instruction_proposal::lemma_trimmed_start_is_suffix(s, c);
}

/// A segment with a key, a colon and a value gives the key, without white space
/// at its ends, and the value; one without a key or without a value gives
/// nothing.
pub proof fn a_segment_gives_its_key_and_value(key: Seq<char>, rest: Seq<char>)
    requires
        !key.contains(':'),
    ensures
        segment_token(key + seq![':'] + rest) == if blank(key) || blank(rest) {
            None
        } else {
            Some((trimmed(key), value_token(rest)->0))
        },
{
    let s = key + seq![':'] + rest;
    let back = seq![':'] + rest;
    assert(s =~= key + back);
    lemma_trimmed_start_before(key, back);
    let k = trimmed_start(key);
    let front = k + seq![':'];
    assert(k + back =~= front + rest);
    assert(front.last() == ':');
    lemma_trimmed_end_after(front, rest);
    let r = trimmed_end(rest);
    assert(trimmed(s) == front + r);
    lemma_start_without(key, ':');
    a_segment_is_split_at_its_sign(k, r);
    lemma_start_once(key);
    nothing_is_left_of_a_blank(key);
    nothing_is_left_of_a_blank(rest);
    assert(trimmed(k) == trimmed(key));
    assert(trimmed(r) == trimmed(rest)) by {
        lemma_without_the_end(Seq::empty(), rest);
        assert(Seq::<char>::empty() + r =~= r);
        assert(Seq::<char>::empty() + rest =~= rest);
    }
}

proof fn lemma_part_from(line: Seq<char>, mark: char, from: int, n: int)
    requires
        0 <= n <= from <= line.len(),
    ensures
        part_end(line, mark, from) == part_end(line.skip(n), mark, from - n) + n,
    decreases line.len() - from,
{
    if from < line.len() {
        assert(line.skip(n)[from - n] == line[from]);
        if line[from] != mark {
            lemma_part_from(line, mark, from + 1, n);
        }
    }
}

proof fn lemma_tokens_from(line: Seq<char>, from: int, n: int)
    requires
        0 <= n <= from,
        n <= line.len(),
    ensures
        line_tokens(line, from) == line_tokens(line.skip(n), from - n),
    decreases line.len() + 1 - from,
{
    if from <= line.len() {
        lemma_part_from(line, '|', from, n);
        a_part_ends_at_the_first_mark(line, '|', from);
        let to = part_end(line, '|', from);
        assert(line.subrange(from, to) =~= line.skip(n).subrange(from - n, to - n));
        lemma_tokens_from(line, to + 1, n);
    }
}

/// What a segment gives, as a list.
pub open spec fn token_list(segment: Seq<char>) -> Seq<(Seq<char>, Seq<char>)> {
    match segment_token(segment) {
        Some(t) => seq![t],
        None => seq![],
    }
}

/// A line gives what its segments give, in order; a bar stands between segments.
pub proof fn a_line_gives_what_its_segments_give(first: Seq<char>, rest: Seq<char>)
    requires
        !first.contains('|'),
    ensures
        line_tokens(first + seq!['|'] + rest, 0) == token_list(first) + line_tokens(rest, 0),
        line_tokens(first, 0) == token_list(first),
{
    let line = first + seq!['|'] + rest;
    let n = first.len() as int;
    lemma_part(first, '|', rest);
    assert(line.subrange(0, n) =~= first);
    lemma_tokens_from(line, n + 1, n + 1);
    assert(line.skip(n + 1) =~= rest);
    a_part_ends_at_the_first_mark(first, '|', 0);
    let e = part_end(first, '|', 0);
    if e < n {
        assert(first[e] == '|');
    }
    assert(first.subrange(0, n) =~= first);
    assert(line_tokens(first, n + 1) =~= seq![]);
    assert(token_list(first) + line_tokens(first, n + 1) =~= token_list(first));
}

/// The lines give what each of them gives, in order.
pub proof fn lines_give_what_each_gives(lines: Seq<Seq<char>>, n: int)
    requires
        0 < n <= lines.len(),
    ensures
        all_tokens(lines, n) == all_tokens(lines, n - 1) + line_tokens(lines[n - 1], 0),
        all_tokens(lines, 0) == Seq::<(Seq<char>, Seq<char>)>::empty(),
{
}

/// The metric of a key is the last number that was given for it.
pub proof fn the_last_number_counts(
    tokens: Seq<(Seq<char>, Seq<char>)>,
    numbers: Seq<Option<Score>>,
    n: int,
    i: int,
)
    requires
        0 <= i < n <= tokens.len(),
        n <= numbers.len(),
        numbers[i] is Some,
        forall|j: int| i < j < n && numbers[j] is Some ==> (#[trigger] tokens[j]).0 != tokens[i].0,
    ensures
        metrics_of(tokens, numbers, n).dom().contains(tokens[i].0),
        Some(metrics_of(tokens, numbers, n)[tokens[i].0]) == numbers[i],
    decreases n,
{
    if i < n - 1 {
        the_last_number_counts(tokens, numbers, n - 1, i);
        if numbers[n - 1] is Some {
            assert(tokens[n - 1].0 != tokens[i].0);
        }
    }
}

/// There is a metric only where a number was given for it.
pub proof fn only_numbers_give_metrics(
    tokens: Seq<(Seq<char>, Seq<char>)>,
    numbers: Seq<Option<Score>>,
    n: int,
    key: Seq<char>,
)
    requires
        0 <= n <= tokens.len(),
        n <= numbers.len(),
        metrics_of(tokens, numbers, n).dom().contains(key),
    ensures
        exists|i: int| 0 <= i < n && (#[trigger] tokens[i]).0 == key && numbers[i] is Some,
    decreases n,
{
    if n > 0 {
        if numbers[n - 1] is Some && tokens[n - 1].0 == key {
            assert(tokens[n - 1].0 == key);
        } else {
            only_numbers_give_metrics(tokens, numbers, n - 1, key);
        }
    }
}

/// Where lower values are better, of two values the lower has the higher score;
/// where higher values are better, a value is its own score.
pub proof fn scores_follow_the_direction(a: Score, b: Score)
    ensures
        ScoreDirection::Higher.adjusted(a) == a,
        ScoreDirection::Lower.adjusted(a).above(ScoreDirection::Lower.adjusted(b)) <==> b.above(a),
        ScoreDirection::Lower.adjusted(a).place() == -a.place(),
        ScoreDirection::Lower.adjusted(a).finite() <==> a.finite(),
{
}

/// The score of a failure is finite, and above no other finite score.
pub proof fn a_failure_is_above_nothing(s: Score)
    requires
        s.finite(),
    ensures
        failure_score().finite(),
        s.at_least(failure_score()),
{
}

/// Hyphens become underscores, and nothing else changes.
pub proof fn hyphens_become_underscores(s: Seq<char>, i: int)
    requires
        0 <= i < s.len(),
    ensures
        underscored(s).len() == s.len(),
        s[i] == '-' ==> underscored(s)[i] == '_',
        s[i] != '-' ==> underscored(s)[i] == s[i],
{
}

/// The first key that is missing is found, if there is one.
pub proof fn missing_keys_are_found(
    keys: Seq<Seq<char>>,
    metrics: Map<Seq<char>, Score>,
    i: int,
)
    requires
        0 <= i <= keys.len(),
    ensures
        match first_missing(keys, metrics, i) {
            Some(k) => i <= k < keys.len() && !metrics.dom().contains(keys[k]) && forall|j: int|
                i <= j < k ==> metrics.dom().contains(#[trigger] keys[j]),
            None => forall|j: int|
                i <= j < keys.len() ==> metrics.dom().contains(#[trigger] keys[j]),
        },
    decreases keys.len() - i,
{
    if i < keys.len() && metrics.dom().contains(keys[i]) {
        missing_keys_are_found(keys, metrics, i + 1);
    }
}

/// The objectives are the metrics of the keys; of a failure, the failure's score.
pub proof fn objectives_are_the_metrics_of_the_keys(
    keys: Seq<Seq<char>>,
    metrics: Map<Seq<char>, Score>,
    failed: bool,
    n: int,
    key: Seq<char>,
)
    requires
        0 <= n <= keys.len(),
    ensures
        objectives_by(keys, metrics, failed, n).dom().contains(key) <==> keys.take(n).contains(key),
        objectives_by(keys, metrics, failed, n).dom().contains(key) ==> objectives_by(
            keys,
            metrics,
            failed,
            n,
        )[key] == if failed {
            failure_score()
        } else {
            metrics[key]
        },
    decreases n,
{
    if n > 0 {
        objectives_are_the_metrics_of_the_keys(keys, metrics, failed, n - 1, key);
        let before = keys.take(n - 1);
        let now = keys.take(n);
        if before.contains(key) {
            let i = choose|i: int| 0 <= i < before.len() && before[i] == key;
            assert(now[i] == key);
        }
        if now.contains(key) {
            let i = choose|i: int| 0 <= i < now.len() && now[i] == key;
            if i < n - 1 {
                assert(before[i] == key);
            }
        }
        if key == keys[n - 1] {
            assert(now[n - 1] == key);
        }
    }
}

/// What is shown of the output are the lines that tell of progress or failure, in
/// order, with a newline between them.
pub proof fn shown_lines_are_in_order(lines: Seq<Seq<char>>, n: int)
    requires
        0 <= n <= lines.len(),
    ensures
        feedback_text(lines, n).0 == glued(
            lines.take(n).filter(|line: Seq<char>| is_feedback(line)),
            seq!['\n'],
        ),
        feedback_text(lines, n).1 <==> lines.take(n).filter(|line: Seq<char>| is_feedback(line)).len()
            > 0,
    decreases n,
{
    let f = |line: Seq<char>| is_feedback(line);
    reveal(Seq::filter);
    reveal_strlit("\n");
    assert("\n"@ =~= seq!['\n']);
    if n > 0 {
        shown_lines_are_in_order(lines, n - 1);
        assert(lines.take(n).drop_last() =~= lines.take(n - 1));
        assert(lines.take(n).last() == lines[n - 1]);
        lemma_glued_push(lines.take(n - 1).filter(f), lines[n - 1], seq!['\n']);
    }
}

/// A line is shown where it names a loss, a rate or a failure, or is a rule.
pub proof fn lines_that_are_shown(line: Seq<char>)
    ensures
        occurs(line, "loss"@) ==> is_feedback(line),
        occurs(line, "bpb"@) ==> is_feedback(line),
        occurs(line, "mfu"@) ==> is_feedback(line),
        occurs(line, "FAIL"@) ==> is_feedback(line),
        occurs_at(line, "---"@, 0) ==> is_feedback(line),
        is_feedback(line) ==> occurs(line, "loss"@) || occurs(line, "bpb"@) || occurs(line, "mfu"@)
            || occurs(line, "FAIL"@) || occurs_at(line, "---"@, 0),
{
}

/// A number is written with its digits, and with a sign before them just where it
/// is negative.
pub proof fn signed_numbers_are_spelled(n: int)
    ensures
        n >= 0 ==> number_of(signed_text(n)) == n,
        n < 0 ==> signed_text(n)[0] == '-' && number_of(signed_text(n).skip(1)) == -n,
        n >= 0 ==> signed_text(n)[0] != '-',
{
    reveal_strlit("-");
    if n < 0 {
        digits_spell_the_number((-n) as nat);
        assert(signed_text(n).skip(1) =~= decimal_text((-n) as nat));
    } else {
        digits_spell_the_number(n as nat);
        assert('0' <= decimal_text(n as nat)[0]);
    }
}

/// A record tells the language model of the current value and of the lines of
/// output that are shown, and of a process that failed also its code and the start
/// of what it wrote about the failure.
pub proof fn a_record_tells_of_the_run(
    record: Vec<(String, Json)>,
    current_value: Seq<char>,
    metrics: Json,
    score: Json,
    trace: Option<&ProcessTrace>,
)
    requires
        is_record(record@, current_value, metrics, score, trace),
    ensures
        has_text(Json::Object(record), current_value),
        trace is Some ==> has_text(
            Json::Object(record),
            feedback_text(
                lines_from(trace->0.stdout@, 0),
                lines_from(trace->0.stdout@, 0).len() as int,
            ).0,
        ),
        trace is Some && trace->0.exit_code != 0 ==> record@[4].0@ == "Error"@ && (
        record@[4].1 matches Json::Text(t) && occurs(
            t@,
            signed_text(trace->0.exit_code as int),
        ) && occurs(t@, trace->0.stderr@.take(
            if trace->0.stderr@.len() < 500 {
                trace->0.stderr@.len() as int
            } else {
                500
            },
        ))),
        trace is Some && trace->0.exit_code == 0 ==> record@.len() == 4,
        trace is None ==> record@.len() == 3,
{
    an_object_has_what_its_fields_have(record, 0, current_value);
    if trace is Some {
        let t = trace->0;
        let lines = lines_from(t.stdout@, 0);
        an_object_has_what_its_fields_have(
            record,
            3,
            feedback_text(lines, lines.len() as int).0,
        );
        if t.exit_code != 0 {
            let code = signed_text(t.exit_code as int);
            let start = t.stderr@.take(
                if t.stderr@.len() <= MAX_STDERR_CHARS {
                    t.stderr@.len() as int
                } else {
                    MAX_STDERR_CHARS as int
                },
            );
            let head = "Process exited with code "@;
            let mid = ". stderr: "@;
            let whole = head + code + mid + start;
            assert(whole =~= head + code + (mid + start));
            a_part_occurs(head, code, mid + start);
            assert(whole =~= (head + code + mid) + start + Seq::<char>::empty());
            a_part_occurs(head + code + mid, start, Seq::empty());
        }
    }
}

} // verus!
