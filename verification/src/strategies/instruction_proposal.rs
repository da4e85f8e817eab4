//! The prompt that asks a language model for a better instruction, and the
//! reading of its answer.
use vstd::prelude::*;

use crate::strategies::built_in_prompt::built_in_template_is_complete;
use crate::text::{
    contains_text, find_from, find_last, is_space, last_before, lemma_last_before, lemma_next_at,
    lemma_occurs_skip, next_at, occurs, occurs_at, replace_text, replaced, slice_text, to_chars,
    trim_bounds, trimmed, trimmed_end, trimmed_start, white_space,
};

verus! {

/// The prompt template. `<curr_param>` stands for the current instruction and
/// `<side_info>` for the formatted examples.
pub const META_PROMPT_TEMPLATE: &'static str = "\
I provided an assistant with the following instructions to perform a task for me:
```
<curr_param>
```

The following are examples of different task inputs provided to the assistant \
along with the assistant's response for each of them, and some feedback on how \
the assistant's response could be better:
```
<side_info>
```

Your task is to write a new instruction for the assistant.

Read the inputs carefully and identify the input format and infer detailed task \
description about the task I wish to solve with the assistant.

Read all the assistant responses and the corresponding feedback. Identify all \
niche and domain specific factual information about the task and include it in \
the instruction, as a lot of it may not be available to the assistant in the \
future. The assistant may have utilized a generalizable strategy to solve the \
task, if so, include that in the instruction as well.

Provide the new instructions within ``` blocks.";

/// `template` with both placeholders replaced.
pub open spec fn rendered_prompt(
    template: Seq<char>,
    current_instruction: Seq<char>,
    reflective_dataset: Seq<char>,
) -> Seq<char> {
    replaced(
        replaced(template, "<curr_param>"@, current_instruction),
        "<side_info>"@,
        reflective_dataset,
    )
}

fn substitute(template: &str, current_instruction: &str, reflective_dataset: &str) -> (r: String)
    ensures
        r@ == rendered_prompt(template@, current_instruction@, reflective_dataset@),
{
    proof {
        reveal_strlit("<curr_param>");
        reveal_strlit("<side_info>");
    }
    let half = replace_text(template, "<curr_param>", current_instruction);
    replace_text(half.as_str(), "<side_info>", reflective_dataset)
}

/// The prompt for an instruction and formatted examples.
pub fn render_prompt(current_instruction: &str, reflective_dataset: &str) -> (r: String)
    ensures
        r@ == rendered_prompt(META_PROMPT_TEMPLATE@, current_instruction@, reflective_dataset@),
        rendering(META_PROMPT_TEMPLATE@, current_instruction@, reflective_dataset@) == Ok::<
            Seq<char>,
            Seq<char>,
        >(r@),
{
    proof {
        built_in_template_is_complete();
    }
    substitute(META_PROMPT_TEMPLATE, current_instruction, reflective_dataset)
}

/// The placeholders that `template` lacks, with a comma between them.
pub open spec fn missing_placeholders(template: Seq<char>) -> Seq<char> {
    let first = occurs(template, "<curr_param>"@);
    let second = occurs(template, "<side_info>"@);
    if first && second {
        Seq::empty()
    } else if first {
        "<side_info>"@
    } else if second {
        "<curr_param>"@
    } else {
        "<curr_param>"@ + ", "@ + "<side_info>"@
    }
}

/// Whether `template` has both placeholders.
pub open spec fn complete_template(template: Seq<char>) -> bool {
    occurs(template, "<curr_param>"@) && occurs(template, "<side_info>"@)
}

/// Check that `template` has both placeholders.
///
/// # Errors
/// A message that names the placeholders that are missing.
pub fn validate_prompt_template(template: &str) -> (r: Result<(), String>)
    ensures
        match r {
            Ok(()) => complete_template(template@),
            Err(text) => !complete_template(template@) && text@
                == "Missing placeholder(s) in prompt template: "@ + missing_placeholders(template@),
        },
{
    let first = contains_text(template, "<curr_param>");
    let second = contains_text(template, "<side_info>");
    if first && second {
        return Ok(());
    }
    let mut text = "Missing placeholder(s) in prompt template: ".to_owned();
    if !first {
        text.append("<curr_param>");
        if !second {
            text.append(", ");
        }
    }
    if !second {
        text.append("<side_info>");
    }
    assert(text@ =~= "Missing placeholder(s) in prompt template: "@ + missing_placeholders(
        template@,
    ));
    Err(text)
}

/// The prompt by a template, or the message that names the placeholders that
/// the template lacks.
pub open spec fn rendering(
    template: Seq<char>,
    current_instruction: Seq<char>,
    reflective_dataset: Seq<char>,
) -> Result<Seq<char>, Seq<char>> {
    if complete_template(template) {
        Ok(rendered_prompt(template, current_instruction, reflective_dataset))
    } else {
        Err("Missing placeholder(s) in prompt template: "@ + missing_placeholders(template))
    }
}

/// The prompt for an instruction and formatted examples by a template.
///
/// # Errors
/// A message that names the placeholders that the template lacks.
pub fn render_prompt_with_template(
    template: &str,
    current_instruction: &str,
    reflective_dataset: &str,
) -> (r: Result<String, String>)
    ensures
        (match r {
            Ok(text) => Ok(text@),
            Err(text) => Err(text@),
        }) == rendering(template@, current_instruction@, reflective_dataset@),
{
    match validate_prompt_template(template) {
        Ok(()) => Ok(substitute(template, current_instruction, reflective_dataset)),
        Err(text) => Err(text),
    }
}

/// Where a pattern stands in a text, its replacement stands in the new text.
pub proof fn replacement_occurs(s: Seq<char>, p: Seq<char>, r: Seq<char>)
    requires
        p.len() > 0,
        occurs(s, p),
    ensures
        occurs(replaced(s, p, r), r),
{
    let i = choose|i: int| occurs_at(s, p, i);
    lemma_next_at(s, p, 0);
    assert(occurs_at(s, p, i));
    let k = next_at(s, p, 0)->0;
    let rest = replaced(s.skip(k + p.len()), p, r);
    let whole = s.take(k) + r + rest;
    assert(replaced(s, p, r) == whole);
    assert(whole.subrange(k, k + r.len()) =~= r);
    assert(occurs_at(whole, r, k));
}

/// Whether `p` and `q` never overlap in `s`.
pub open spec fn apart(s: Seq<char>, p: Seq<char>, q: Seq<char>) -> bool {
    forall|i: int, j: int| #[trigger]
        occurs_at(s, p, i) && #[trigger] occurs_at(s, q, j) ==> j + q.len() <= i || i + p.len()
            <= j
}

/// Replacing a pattern leaves another that never overlaps it.
pub proof fn replacing_leaves_the_other(s: Seq<char>, p: Seq<char>, q: Seq<char>, r: Seq<char>)
    requires
        p.len() > 0,
        apart(s, p, q),
        occurs(s, q),
    ensures
        occurs(replaced(s, p, r), q),
    decreases s.len(),
{
    lemma_next_at(s, p, 0);
    if let Some(k) = next_at(s, p, 0) {
        let j = choose|j: int| occurs_at(s, q, j);
        let after = s.skip(k + p.len());
        let rest = replaced(after, p, r);
        let whole = s.take(k) + r + rest;
        if j + q.len() <= k {
            assert(whole.subrange(j, j + q.len()) =~= s.subrange(j, j + q.len()));
            assert(occurs_at(whole, q, j));
        } else {
            let d = j - (k + p.len());
            lemma_occurs_skip(s, q, k + p.len(), d);
            assert(occurs_at(after, q, d));
            assert forall|a: int, b: int| #[trigger]
                occurs_at(after, p, a) && #[trigger] occurs_at(after, q, b) implies b + q.len()
                <= a || a + p.len() <= b by {
                lemma_occurs_skip(s, p, k + p.len(), a);
                lemma_occurs_skip(s, q, k + p.len(), b);
                assert(occurs_at(s, p, k + p.len() + a));
                assert(occurs_at(s, q, k + p.len() + b));
            }
            replacing_leaves_the_other(after, p, q, r);
            let e = choose|e: int| occurs_at(rest, q, e);
            let n = k + r.len();
            assert(whole.subrange(n + e, n + e + q.len()) =~= rest.subrange(e, e + q.len()));
            assert(occurs_at(whole, q, n + e));
        }
    }
}

/// The placeholders never overlap.
proof fn lemma_placeholders_apart(s: Seq<char>)
    ensures
        apart(s, "<curr_param>"@, "<side_info>"@),
{
    reveal_strlit("<curr_param>");
    reveal_strlit("<side_info>");
    let p = "<curr_param>"@;
    let q = "<side_info>"@;
    assert forall|i: int, j: int| #[trigger]
        occurs_at(s, p, i) && #[trigger] occurs_at(s, q, j) implies j + q.len() <= i || i + p.len()
        <= j by {
        let x = s.subrange(i, i + p.len());
        let y = s.subrange(j, j + q.len());
        if i == j {
            assert(x[1] == 'c');
            assert(y[1] == 's');
        } else if i < j < i + p.len() {
            assert(y[0] == '<');
            assert(x[j - i] == '<');
            assert(p[j - i] != '<');
        } else if j < i < j + q.len() {
            assert(x[0] == '<');
            assert(y[i - j] == '<');
            assert(q[i - j] != '<');
        }
    }
}

/// The prompt by a complete template holds the formatted examples, whatever the
/// instruction is.
pub proof fn prompt_holds_the_examples(
    template: Seq<char>,
    current_instruction: Seq<char>,
    reflective_dataset: Seq<char>,
)
    requires
        complete_template(template),
    ensures
        occurs(
            rendered_prompt(template, current_instruction, reflective_dataset),
            reflective_dataset,
        ),
{
    reveal_strlit("<curr_param>");
    reveal_strlit("<side_info>");
    lemma_placeholders_apart(template);
    replacing_leaves_the_other(
        template,
        "<curr_param>"@,
        "<side_info>"@,
        current_instruction,
    );
    replacement_occurs(
        replaced(template, "<curr_param>"@, current_instruction),
        "<side_info>"@,
        reflective_dataset,
    );
}

/// Where a pattern stands in a text with a character in it that the pattern
/// lacks: before that character, or behind it.
pub(crate) proof fn lemma_occurs_split(x: Seq<char>, c: char, y: Seq<char>, p: Seq<char>, j: int)
    requires
        p.len() > 0,
        !p.contains(c),
    ensures
        occurs_at(x.push(c) + y, p, j) <==> occurs_at(x, p, j) || occurs_at(
            y,
            p,
            j - x.len() - 1,
        ),
{
    let s = x.push(c) + y;
    let n = x.len() as int;
    if 0 <= j && j + p.len() <= s.len() {
        let here = s.subrange(j, j + p.len());
        if j + p.len() <= n {
            assert(here =~= x.subrange(j, j + p.len()));
        } else if j > n {
            assert(here =~= y.subrange(j - n - 1, j - n - 1 + p.len()));
        } else {
            assert(here[n - j] == c);
            assert(here != p);
        }
    }
}

/// A character that a pattern lacks parts a text: each part has the pattern
/// replaced by itself.
pub proof fn replacing_keeps_to_the_parts(
    x: Seq<char>,
    c: char,
    y: Seq<char>,
    p: Seq<char>,
    r: Seq<char>,
)
    requires
        p.len() > 0,
        !p.contains(c),
    ensures
        replaced(x.push(c) + y, p, r) == replaced(x, p, r).push(c) + replaced(y, p, r),
    decreases x.len(),
{
    let s = x.push(c) + y;
    let n = x.len() as int;
    lemma_next_at(s, p, 0);
    lemma_next_at(x, p, 0);
    lemma_next_at(y, p, 0);
    assert forall|j: int| #[trigger] occurs_at(s, p, j) <==> occurs_at(x, p, j) || occurs_at(
        y,
        p,
        j - n - 1,
    ) by {
        lemma_occurs_split(x, c, y, p, j);
    }
    match next_at(x, p, 0) {
        Some(k) => {
            assert(occurs_at(s, p, k));
            assert(next_at(s, p, 0) == Some(k));
            let m = k + p.len();
            assert(s.take(k) =~= x.take(k));
            assert(s.skip(m) =~= x.skip(m).push(c) + y);
            replacing_keeps_to_the_parts(x.skip(m), c, y, p, r);
            assert(replaced(s, p, r) =~= replaced(x, p, r).push(c) + replaced(y, p, r));
        },
        None => match next_at(y, p, 0) {
            Some(k) => {
                assert(occurs_at(s, p, n + 1 + k)) by {
                    assert(occurs_at(y, p, (n + 1 + k) - n - 1));
                }
                assert(next_at(s, p, 0) == Some(n + 1 + k));
                let m = n + 1 + k + p.len();
                assert(s.take(n + 1 + k) =~= x.push(c) + y.take(k));
                assert(s.skip(m) =~= y.skip(k + p.len()));
                assert(replaced(s, p, r) =~= x.push(c) + replaced(y, p, r));
            },
            None => {
                assert(next_at(s, p, 0) is None);
            },
        },
    }
}

/// The prompt by a template with the placeholder on a line of its own holds the
/// instruction, unless the instruction itself has a placeholder for examples.
pub proof fn prompt_holds_the_instruction(
    before: Seq<char>,
    after: Seq<char>,
    current_instruction: Seq<char>,
    reflective_dataset: Seq<char>,
)
    requires
        !occurs(current_instruction, "<side_info>"@),
    ensures
        occurs(
            rendered_prompt(
                before.push('\n') + ("<curr_param>"@.push('\n') + after),
                current_instruction,
                reflective_dataset,
            ),
            current_instruction,
        ),
{
    reveal_strlit("<curr_param>");
    reveal_strlit("<side_info>");
    let p = "<curr_param>"@;
    let q = "<side_info>"@;
    let line = current_instruction;
    let d = reflective_dataset;
    let template = before.push('\n') + (p.push('\n') + after);
    assert(!p.contains('\n'));
    assert(!q.contains('\n'));
    replacing_keeps_to_the_parts(before, '\n', p.push('\n') + after, p, line);
    replacing_keeps_to_the_parts(p, '\n', after, p, line);
    assert(replaced(p, p, line) == line) by {
        assert(p.subrange(0, p.len() as int) =~= p);
        assert(occurs_at(p, p, 0));
        assert(next_at(p, p, 0) == Some(0int));
        let none = p.skip(p.len() as int);
        assert(none.len() == 0);
        assert(next_at(none, p, 0) is None);
        assert(replaced(none, p, line) == none);
        assert(replaced(p, p, line) == p.take(0) + line + none);
        assert(p.take(0) + line + none =~= line);
    }
    let head = replaced(before, p, line);
    let tail = replaced(after, p, line);
    let half = head.push('\n') + (line.push('\n') + tail);
    assert(replaced(template, p, line) == half);
    replacing_keeps_to_the_parts(head, '\n', line.push('\n') + tail, q, d);
    replacing_keeps_to_the_parts(line, '\n', tail, q, d);
    lemma_next_at(line, q, 0);
    assert(replaced(line, q, d) == line);
    let h = replaced(head, q, d);
    let t = replaced(tail, q, d);
    let prompt = h.push('\n') + (line.push('\n') + t);
    assert(replaced(half, q, d) == prompt);
    let at = h.len() + 1;
    assert(prompt.subrange(at as int, (at + line.len()) as int) =~= line);
    assert(occurs_at(prompt, line, at as int));
}

/// The position after the language name at the start of `s`: a run of
/// characters that are no white space, and the newline after it. 0 where there
/// is none.
pub open spec fn language_end(s: Seq<char>, i: int) -> int
    decreases s.len() - i,
{
    if i < 0 || i >= s.len() {
        0
    } else if s[i] == '\n' {
        i + 1
    } else if white_space(s[i]) {
        0
    } else {
        language_end(s, i + 1)
    }
}

/// `s` without the language name at its start.
pub open spec fn without_language(s: Seq<char>) -> Seq<char> {
    s.skip(language_end(s, 0))
}

/// The position after the language name in `v[from..to]`.
fn skip_language(v: &Vec<char>, from: usize, to: usize) -> (r: usize)
    requires
        from <= to <= v@.len(),
    ensures
        from <= r <= to,
        v@.subrange(r as int, to as int) == without_language(v@.subrange(from as int, to as int)),
{
    let ghost s = v@.subrange(from as int, to as int);
    let mut i: usize = from;
    while i < to
        invariant
            from <= i <= to <= v@.len(),
            s == v@.subrange(from as int, to as int),
            language_end(s, 0) == language_end(s, i - from),
        decreases to - i,
    {
        let c = v[i];
        assert(s[i - from] == c);
        if c == '\n' {
            assert(s.skip(i - from + 1) =~= v@.subrange(i + 1, to as int));
            return i + 1;
        }
        if is_space(c) {
            assert(s.skip(0) =~= s);
            return from;
        }
        i += 1;
    }
    assert(s.skip(0) =~= s);
    from
}

/// The instruction in an answer: what stands between the first and the last
/// fence, without the name of a language; the answer without its fence where
/// there is only one; the whole answer where there is none.
pub open spec fn extracted(response: Seq<char>) -> Option<Seq<char>> {
    let t = trimmed(response);
    let fence = "```"@;
    if t.len() == 0 {
        None
    } else {
        match (next_at(t, fence, 0), last_before(t, fence, t.len() as int)) {
            (Some(a), Some(b)) => if b >= a + 3 {
                Some(trimmed(without_language(t.subrange(a + 3, b))))
            } else if a == 0 {
                Some(trimmed(without_language(t.skip(3))))
            } else {
                Some(trimmed(t.take(a) + t.skip(a + 3)))
            },
            _ => Some(t),
        }
    }
}

/// The instruction in an answer, if the answer is not blank.
pub fn extract_output(lm_response: &str) -> (r: Option<String>)
    ensures
        (match r {
            Some(text) => Some(text@),
            None => None,
        }) == extracted(lm_response@),
{
    let whole = to_chars(lm_response);
    let (from, to) = trim_bounds(&whole, 0, whole.len());
    assert(whole@.subrange(0, whole@.len() as int) =~= whole@);
    if from == to {
        return None;
    }
    let t = to_chars(slice_text(&whole, from, to).as_str());
    let fence = to_chars("```");
    proof {
        reveal_strlit("```");
        lemma_next_at(t@, fence@, 0);
        lemma_last_before(t@, fence@, t@.len() as int);
    }
    match find_from(&t, &fence, 0) {
        Some(a) => {
            let b: usize = match find_last(&t, &fence) {
                Some(b) => b,
                None => {
                    assert(occurs_at(t@, fence@, a as int));
                    a
                },
            };
            if b >= a && b - a >= 3 {
                let start: usize = skip_language(&t, a + 3, b);
                let (x, y) = trim_bounds(&t, start, b);
                Some(slice_text(&t, x, y))
            } else if a == 0 {
                let start: usize = skip_language(&t, 3, t.len());
                let (x, y) = trim_bounds(&t, start, t.len());
                assert(t@.subrange(3, t@.len() as int) =~= t@.skip(3));
                Some(slice_text(&t, x, y))
            } else {
                let mut rest = slice_text(&t, 0, a);
                let tail = slice_text(&t, a + 3, t.len());
                rest.append(tail.as_str());
                assert(rest@ =~= t@.take(a as int) + t@.skip(a + 3));
                let v = to_chars(rest.as_str());
                let (x, y) = trim_bounds(&v, 0, v.len());
                assert(v@.subrange(0, v@.len() as int) =~= v@);
                Some(slice_text(&v, x, y))
            }
        },
        None => {
            let r = slice_text(&t, 0, t.len());
            assert(r@ =~= t@);
            Some(r)
        },
    }
}

pub(crate) proof fn lemma_trimmed_start_before(a: Seq<char>, rest: Seq<char>)
    requires
        rest.len() > 0,
        !white_space(rest[0]),
    ensures
        trimmed_start(a + rest) == trimmed_start(a) + rest,
    decreases a.len(),
{
    if a.len() > 0 && white_space(a[0]) {
        assert((a + rest).skip(1) =~= a.skip(1) + rest);
        lemma_trimmed_start_before(a.skip(1), rest);
    } else if a.len() == 0 {
        assert(a + rest =~= rest);
    }
}

pub(crate) proof fn lemma_trimmed_end_after(front: Seq<char>, b: Seq<char>)
    requires
        front.len() > 0,
        !white_space(front.last()),
    ensures
        trimmed_end(front + b) == front + trimmed_end(b),
    decreases b.len(),
{
    if b.len() > 0 && white_space(b.last()) {
        assert((front + b).drop_last() =~= front + b.drop_last());
        lemma_trimmed_end_after(front, b.drop_last());
    } else if b.len() == 0 {
        assert(front + b =~= front);
    }
}

pub(crate) proof fn lemma_trimmed_start_is_suffix(a: Seq<char>, c: char)
    requires
        !a.contains(c),
    ensures
        !trimmed_start(a).contains(c),
    decreases a.len(),
{
    if a.len() > 0 && white_space(a[0]) {
        let rest = a.skip(1);
        assert(!rest.contains(c)) by {
            if rest.contains(c) {
                let i = choose|i: int| 0 <= i < rest.len() && rest[i] == c;
                assert(a[i + 1] == c);
            }
        }
        lemma_trimmed_start_is_suffix(rest, c);
    }
}

pub(crate) proof fn lemma_trimmed_end_is_prefix(b: Seq<char>, c: char)
    requires
        !b.contains(c),
    ensures
        !trimmed_end(b).contains(c),
    decreases b.len(),
{
    if b.len() > 0 && white_space(b.last()) {
        let rest = b.drop_last();
        assert(!rest.contains(c)) by {
            if rest.contains(c) {
                let i = choose|i: int| 0 <= i < rest.len() && rest[i] == c;
                assert(b[i] == c);
            }
        }
        lemma_trimmed_end_is_prefix(rest, c);
    }
}

pub(crate) proof fn lemma_newline_is_trimmed(t: Seq<char>)
    ensures
        trimmed(t.push('\n')) == trimmed(t),
    decreases t.len(),
{
    let more = t.push('\n');
    if t.len() == 0 {
        assert(more.skip(1) =~= t);
        assert(more[0] == '\n');
        assert(trimmed_start(more) == trimmed_start(t));
    } else if white_space(t[0]) {
        assert(more.skip(1) =~= t.skip(1).push('\n'));
        lemma_newline_is_trimmed(t.skip(1));
    } else {
        assert(more.drop_last() =~= t);
    }
}

/// What an answer has in a fenced block is taken out of it, without white space
/// at its ends, whatever stands before and after the block, as long as no
/// backtick stands there.
pub proof fn fenced_text_is_extracted(before: Seq<char>, text: Seq<char>, after: Seq<char>)
    requires
        !before.contains('`'),
        !after.contains('`'),
    ensures
        extracted(before + "```\n"@ + text + "\n```"@ + after) == Some(trimmed(text)),
{
    reveal_strlit("```\n");
    reveal_strlit("\n```");
    reveal_strlit("```");
    let fence = "```"@;
    let open = "```\n"@;
    let close = "\n```"@;
    let block = open + text + close;
    let response = before + open + text + close + after;
    assert(response =~= before + (block + after));
    assert(block[0] == '`');
    assert(block.last() == '`');
    lemma_trimmed_start_before(before, block + after);
    let head = trimmed_start(before);
    assert(head + (block + after) =~= (head + block) + after);
    lemma_trimmed_end_after(head + block, after);
    let tail = trimmed_end(after);
    let t = trimmed(response);
    assert(t == (head + block) + tail);
    lemma_trimmed_start_is_suffix(before, '`');
    lemma_trimmed_end_is_prefix(after, '`');
    let a = head.len() as int;
    let b = a + 4 + text.len() + 1;
    assert(t.subrange(a, a + 3) =~= fence);
    assert(t.subrange(b, b + 3) =~= fence);
    assert(occurs_at(t, fence, a));
    assert(occurs_at(t, fence, b));
    lemma_next_at(t, fence, 0);
    lemma_last_before(t, fence, t.len() as int);
    assert forall|j: int| 0 <= j < a implies !occurs_at(t, fence, j) by {
        if occurs_at(t, fence, j) {
            assert(t.subrange(j, j + 3)[0] == fence[0]);
            assert(t[j] == head[j]);
            assert(head.contains('`'));
        }
    }
    assert forall|j: int| b < j implies !occurs_at(t, fence, j) by {
        if occurs_at(t, fence, j) {
            assert(t.subrange(j, j + 3)[2] == fence[2]);
            assert(t[j + 2] == tail[j + 2 - (b + 3)]);
            assert(tail.contains('`'));
        }
    }
    assert(next_at(t, fence, 0) == Some(a));
    assert(last_before(t, fence, t.len() as int) == Some(b));
    let inner = t.subrange(a + 3, b);
    assert(inner =~= seq!['\n'] + text.push('\n'));
    assert(inner[0] == '\n');
    assert(language_end(inner, 0) == 1);
    assert(inner.skip(1) =~= text.push('\n'));
    lemma_newline_is_trimmed(text);
}

} // verus!
