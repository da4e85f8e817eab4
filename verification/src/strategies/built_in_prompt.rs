//! What the built-in prompt holds.
use vstd::prelude::*;

use crate::strategies::instruction_proposal::{
    complete_template, lemma_occurs_split, prompt_holds_the_examples, rendered_prompt, rendering,
    replacing_keeps_to_the_parts, META_PROMPT_TEMPLATE,
};
use crate::text::{lemma_next_at, next_at, occurs, occurs_at, replaced};

verus! {

/// Where the built-in template has its placeholders and the lines around them.
proof fn lemma_template_characters()
    ensures
        META_PROMPT_TEMPLATE@.len() == 942,
        META_PROMPT_TEMPLATE@[85] == '\n',
        META_PROMPT_TEMPLATE@.subrange(86, 98) == "<curr_param>"@,
        META_PROMPT_TEMPLATE@[98] == '\n',
        META_PROMPT_TEMPLATE@[306] == '\n',
        META_PROMPT_TEMPLATE@.subrange(307, 318) == "<side_info>"@,
        META_PROMPT_TEMPLATE@[318] == '\n',
        forall|i: int|
            0 <= i < 942 && #[trigger] META_PROMPT_TEMPLATE@[i] == '<' ==> i == 86 || i == 307,
{
    reveal_strlit(
        "\
I provided an assistant with the following instructions to perform a task for me:
```
<curr_param>
```

The following are examples of different task inputs provided to the assistant \
along with the assistant's response for each of them, and some feedback on how \
the assistant's response could be better:
```
<side_info>
```

Your task is to write a new instruction for the assistant.

Read the inputs carefully and identify the input format and infer detailed task \
description about the task I wish to solve with the assistant.

Read all the assistant responses and the corresponding feedback. Identify all \
niche and domain specific factual information about the task and include it in \
the instruction, as a lot of it may not be available to the assistant in the \
future. The assistant may have utilized a generalizable strategy to solve the \
task, if so, include that in the instruction as well.

Provide the new instructions within ``` blocks.",
    );
    reveal_strlit("<curr_param>");
    reveal_strlit("<side_info>");
    let t = META_PROMPT_TEMPLATE@;
    assert(t.subrange(86, 98) =~= "<curr_param>"@);
    assert(t.subrange(307, 318) =~= "<side_info>"@);
    assert forall|i: int| 0 <= i < 942 && #[trigger] t[i] == '<' implies i == 86 || i == 307 by {}
}

/// Five texts with newlines between them.
spec fn lines(a: Seq<char>, b: Seq<char>, c: Seq<char>, d: Seq<char>, e: Seq<char>) -> Seq<char> {
    a.push('\n') + (b.push('\n') + (c.push('\n') + (d.push('\n') + e)))
}

/// What stands before the placeholders, between them and behind them.
spec fn before() -> Seq<char> {
    META_PROMPT_TEMPLATE@.take(85)
}

spec fn between() -> Seq<char> {
    META_PROMPT_TEMPLATE@.subrange(99, 306)
}

spec fn behind() -> Seq<char> {
    META_PROMPT_TEMPLATE@.skip(319)
}

proof fn lemma_template_lines()
    ensures
        META_PROMPT_TEMPLATE@ == lines(
            before(),
            "<curr_param>"@,
            between(),
            "<side_info>"@,
            behind(),
        ),
        !before().contains('<'),
        !between().contains('<'),
        !behind().contains('<'),
{
    lemma_template_characters();
    reveal_strlit("<curr_param>");
    reveal_strlit("<side_info>");
    let t = META_PROMPT_TEMPLATE@;
    let p = "<curr_param>"@;
    let q = "<side_info>"@;
    let all = lines(before(), p, between(), q, behind());
    assert(all.len() == t.len());
    assert forall|i: int| 0 <= i < t.len() implies t[i] == all[i] by {
        if 86 <= i < 98 {
            assert(t.subrange(86, 98)[i - 86] == p[i - 86]);
        } else if 307 <= i < 318 {
            assert(t.subrange(307, 318)[i - 307] == q[i - 307]);
        }
    }
    assert(t =~= all);
    assert forall|i: int| 0 <= i < before().len() implies before()[i] != '<' by {
        assert(before()[i] == t[i]);
    }
    assert forall|i: int| 0 <= i < between().len() implies between()[i] != '<' by {
        assert(between()[i] == t[99 + i]);
    }
    assert forall|i: int| 0 <= i < behind().len() implies behind()[i] != '<' by {
        assert(behind()[i] == t[319 + i]);
    }
}

/// A text without the first character of a pattern lacks the pattern.
proof fn lemma_lacks(s: Seq<char>, p: Seq<char>)
    requires
        p.len() > 0,
        !s.contains(p[0]),
    ensures
        !occurs(s, p),
{
    if occurs(s, p) {
        let i = choose|i: int| occurs_at(s, p, i);
        assert(s.subrange(i, i + p.len())[0] == p[0]);
        assert(s[i] == p[0]);
    }
}

/// A text that lacks a pattern stays as it is.
proof fn lemma_kept(s: Seq<char>, p: Seq<char>, r: Seq<char>)
    requires
        p.len() > 0,
        !occurs(s, p),
    ensures
        replaced(s, p, r) == s,
{
    lemma_next_at(s, p, 0);
}

/// A pattern is replaced by its replacement.
proof fn lemma_whole(p: Seq<char>, r: Seq<char>)
    requires
        p.len() > 0,
    ensures
        replaced(p, p, r) == r,
{
    assert(p.subrange(0, p.len() as int) =~= p);
    assert(occurs_at(p, p, 0));
    assert(next_at(p, p, 0) == Some(0int));
    let none = p.skip(p.len() as int);
    assert(none.len() == 0);
    assert(next_at(none, p, 0) is None);
    assert(replaced(none, p, r) == none);
    assert(replaced(p, p, r) == p.take(0) + r + none);
    assert(p.take(0) + r + none =~= r);
}

/// A pattern without newlines is replaced line by line.
proof fn lemma_lines_replaced(
    a: Seq<char>,
    b: Seq<char>,
    c: Seq<char>,
    d: Seq<char>,
    e: Seq<char>,
    p: Seq<char>,
    r: Seq<char>,
)
    requires
        p.len() > 0,
        !p.contains('\n'),
    ensures
        replaced(lines(a, b, c, d, e), p, r) == lines(
            replaced(a, p, r),
            replaced(b, p, r),
            replaced(c, p, r),
            replaced(d, p, r),
            replaced(e, p, r),
        ),
{
    let de = d.push('\n') + e;
    let cde = c.push('\n') + de;
    let bcde = b.push('\n') + cde;
    replacing_keeps_to_the_parts(a, '\n', bcde, p, r);
    replacing_keeps_to_the_parts(b, '\n', cde, p, r);
    replacing_keeps_to_the_parts(c, '\n', de, p, r);
    replacing_keeps_to_the_parts(d, '\n', e, p, r);
}

/// The prompt has the instruction and the examples in the places of the
/// placeholders.
proof fn lemma_prompt_lines(current_instruction: Seq<char>, reflective_dataset: Seq<char>)
    requires
        !occurs(current_instruction, "<side_info>"@),
    ensures
        rendered_prompt(META_PROMPT_TEMPLATE@, current_instruction, reflective_dataset) == lines(
            before(),
            current_instruction,
            between(),
            reflective_dataset,
            behind(),
        ),
{
    lemma_template_lines();
    reveal_strlit("<curr_param>");
    reveal_strlit("<side_info>");
    let p = "<curr_param>"@;
    let q = "<side_info>"@;
    let c = current_instruction;
    let d = reflective_dataset;
    assert(p[0] == '<' && q[0] == '<');
    assert(!p.contains('\n'));
    assert(!q.contains('\n'));
    lemma_lacks(before(), p);
    lemma_lacks(between(), p);
    lemma_lacks(behind(), p);
    lemma_lacks(before(), q);
    lemma_lacks(between(), q);
    lemma_lacks(behind(), q);
    assert(!occurs(q, p)) by {
        if occurs(q, p) {
            let i = choose|i: int| occurs_at(q, p, i);
            assert(false);
        }
    }
    lemma_kept(before(), p, c);
    lemma_whole(p, c);
    lemma_kept(between(), p, c);
    lemma_kept(q, p, c);
    lemma_kept(behind(), p, c);
    lemma_lines_replaced(before(), p, between(), q, behind(), p, c);
    lemma_kept(before(), q, d);
    lemma_kept(c, q, d);
    lemma_kept(between(), q, d);
    lemma_whole(q, d);
    lemma_kept(behind(), q, d);
    lemma_lines_replaced(before(), c, between(), q, behind(), q, d);
}

/// The built-in template has both placeholders.
pub proof fn built_in_template_is_complete()
    ensures
        complete_template(META_PROMPT_TEMPLATE@),
{
    lemma_template_characters();
    reveal_strlit("<curr_param>");
    reveal_strlit("<side_info>");
    assert(occurs_at(META_PROMPT_TEMPLATE@, "<curr_param>"@, 86));
    assert(occurs_at(META_PROMPT_TEMPLATE@, "<side_info>"@, 307));
}

/// The built-in template is never refused: it gives the built-in prompt.
pub proof fn built_in_template_is_accepted(
    current_instruction: Seq<char>,
    reflective_dataset: Seq<char>,
)
    ensures
        rendering(META_PROMPT_TEMPLATE@, current_instruction, reflective_dataset) == Ok::<
            Seq<char>,
            Seq<char>,
        >(rendered_prompt(META_PROMPT_TEMPLATE@, current_instruction, reflective_dataset)),
{
    built_in_template_is_complete();
}

/// The built-in prompt holds the formatted examples, whatever the instruction
/// is.
pub proof fn built_in_prompt_holds_the_examples(
    current_instruction: Seq<char>,
    reflective_dataset: Seq<char>,
)
    ensures
        occurs(
            rendered_prompt(META_PROMPT_TEMPLATE@, current_instruction, reflective_dataset),
            reflective_dataset,
        ),
{
    built_in_template_is_complete();
    prompt_holds_the_examples(META_PROMPT_TEMPLATE@, current_instruction, reflective_dataset);
}

/// The built-in prompt holds the instruction, unless the instruction itself has
/// a placeholder for examples.
pub proof fn built_in_prompt_holds_the_instruction(
    current_instruction: Seq<char>,
    reflective_dataset: Seq<char>,
)
    requires
        !occurs(current_instruction, "<side_info>"@),
    ensures
        occurs(
            rendered_prompt(META_PROMPT_TEMPLATE@, current_instruction, reflective_dataset),
            current_instruction,
        ),
{
    lemma_prompt_lines(current_instruction, reflective_dataset);
    let prompt = rendered_prompt(META_PROMPT_TEMPLATE@, current_instruction, reflective_dataset);
    let n = before().len() + 1;
    assert(prompt.subrange(n as int, (n + current_instruction.len()) as int)
        =~= current_instruction);
    assert(occurs_at(prompt, current_instruction, n as int));
}

/// A pattern without newlines that no line has is not in the lines.
proof fn lemma_lines_lack(
    a: Seq<char>,
    b: Seq<char>,
    c: Seq<char>,
    d: Seq<char>,
    e: Seq<char>,
    p: Seq<char>,
)
    requires
        p.len() > 0,
        !p.contains('\n'),
        !occurs(a, p),
        !occurs(b, p),
        !occurs(c, p),
        !occurs(d, p),
        !occurs(e, p),
    ensures
        !occurs(lines(a, b, c, d, e), p),
{
    let de = d.push('\n') + e;
    let cde = c.push('\n') + de;
    let bcde = b.push('\n') + cde;
    lemma_joined_lack(d, e, p);
    lemma_joined_lack(c, de, p);
    lemma_joined_lack(b, cde, p);
    lemma_joined_lack(a, bcde, p);
}

proof fn lemma_joined_lack(x: Seq<char>, y: Seq<char>, p: Seq<char>)
    requires
        p.len() > 0,
        !p.contains('\n'),
        !occurs(x, p),
        !occurs(y, p),
    ensures
        !occurs(x.push('\n') + y, p),
{
    let s = x.push('\n') + y;
    if occurs(s, p) {
        let j = choose|j: int| occurs_at(s, p, j);
        lemma_occurs_split(x, '\n', y, p, j);
    }
}

/// The built-in prompt has no placeholder left, unless one comes with the
/// instruction or with the examples.
pub proof fn built_in_prompt_leaves_no_placeholder(
    current_instruction: Seq<char>,
    reflective_dataset: Seq<char>,
)
    requires
        !occurs(current_instruction, "<curr_param>"@),
        !occurs(current_instruction, "<side_info>"@),
        !occurs(reflective_dataset, "<curr_param>"@),
        !occurs(reflective_dataset, "<side_info>"@),
    ensures
        ({
            let prompt = rendered_prompt(
                META_PROMPT_TEMPLATE@,
                current_instruction,
                reflective_dataset,
            );
            &&& !occurs(prompt, "<curr_param>"@)
            &&& !occurs(prompt, "<side_info>"@)
        }),
{
    lemma_prompt_lines(current_instruction, reflective_dataset);
    lemma_template_lines();
    reveal_strlit("<curr_param>");
    reveal_strlit("<side_info>");
    let p = "<curr_param>"@;
    let q = "<side_info>"@;
    assert(p[0] == '<' && q[0] == '<');
    assert(!p.contains('\n'));
    assert(!q.contains('\n'));
    lemma_lacks(before(), p);
    lemma_lacks(between(), p);
    lemma_lacks(behind(), p);
    lemma_lacks(before(), q);
    lemma_lacks(between(), q);
    lemma_lacks(behind(), q);
    lemma_lines_lack(before(), current_instruction, between(), reflective_dataset, behind(), p);
    lemma_lines_lack(before(), current_instruction, between(), reflective_dataset, behind(), q);
}

} // verus!
