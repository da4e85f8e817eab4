//! What a prompt shows of the records, and what is read from an answer.
use vstd::prelude::*;

use crate::laws::texts::{
    blank, glued, nothing_is_left_of_a_blank, trimming_finds_the_text,
    trimming_takes_the_blank_ends,
};
use crate::strategies::instruction_proposal::{
    extracted, language_end, lemma_newline_is_trimmed,
    lemma_trimmed_end_after, lemma_trimmed_end_is_prefix, lemma_trimmed_start_before,
    lemma_trimmed_start_is_suffix, missing_placeholders, rendering,
};
use crate::strategies::markdown::{
    fields_text, fields_under, hashes, header_level, items_text, sample_text, samples_text,
    value_text, Json,
};
use crate::text::{
    decimal_text, last_before, lemma_last_before, lemma_next_at, next_at, occurs, occurs_at,
    trimmed, trimmed_end, trimmed_start, white_space,
};

verus! {

/// What stands between two texts occurs in the whole.
pub proof fn a_part_occurs(a: Seq<char>, p: Seq<char>, b: Seq<char>)
    ensures
        occurs(a + p + b, p),
{
    let s = a + p + b;
    assert(s.subrange(a.len() as int, (a.len() + p.len()) as int) =~= p);
    assert(occurs_at(s, p, a.len() as int));
}

/// What occurs in a part occurs in the whole.
pub proof fn a_part_of_a_part_occurs(s: Seq<char>, p: Seq<char>, q: Seq<char>)
    requires
        occurs(s, p),
        occurs(p, q),
    ensures
        occurs(s, q),
{
    let i = choose|i: int| occurs_at(s, p, i);
    let j = choose|j: int| occurs_at(p, q, j);
    assert(s.subrange(i + j, i + j + q.len()) =~= q) by {
        let x = s.subrange(i, i + p.len());
        assert(x.subrange(j, j + q.len()) == q);
        assert(s.subrange(i + j, i + j + q.len()) =~= x.subrange(j, j + q.len()));
    }
    assert(occurs_at(s, q, i + j));
}

/// The formatted records are their sections in order, numbered from 1, with a
/// blank line between them.
pub proof fn records_are_shown_in_order(samples: Seq<Json>, n: int)
    requires
        0 <= n <= samples.len(),
    ensures
        samples_text(samples, n) == glued(
            Seq::new(n as nat, |i: int| sample_text(samples[i], (i + 1) as nat)),
            seq!['\n', '\n'],
        ),
    decreases n,
{
    reveal_strlit("\n\n");
    assert("\n\n"@ =~= seq!['\n', '\n']);
    let sections = Seq::new(n as nat, |i: int| sample_text(samples[i], (i + 1) as nat));
    if n > 0 {
        records_are_shown_in_order(samples, n - 1);
        let before = Seq::new((n - 1) as nat, |i: int| sample_text(samples[i], (i + 1) as nat));
        assert(sections =~= before.push(sections.last()));
        lemma_glued_push(before, sections.last(), seq!['\n', '\n']);
    }
}

pub(crate) proof fn lemma_glued_push(parts: Seq<Seq<char>>, last: Seq<char>, sep: Seq<char>)
    ensures
        glued(parts.push(last), sep) == if parts.len() == 0 {
            last
        } else {
            glued(parts, sep) + sep + last
        },
    decreases parts.len(),
{
    let more = parts.push(last);
    if parts.len() == 0 {
        assert(more.len() == 1);
    } else if parts.len() == 1 {
        assert(more.skip(1) =~= seq![last]);
        assert(glued(more.skip(1), sep) == last);
    } else {
        assert(more.skip(1) =~= parts.skip(1).push(last));
        lemma_glued_push(parts.skip(1), last, sep);
        assert(parts[0] + sep + (glued(parts.skip(1), sep) + sep + last) =~= parts[0] + sep + glued(
            parts.skip(1),
            sep,
        ) + sep + last);
    }
}

/// The section of each record occurs in the formatted text, under the record's
/// number, counted from 1.
pub proof fn each_record_has_its_section(samples: Seq<Json>, n: int, i: int)
    requires
        0 <= i < n <= samples.len(),
    ensures
        occurs(samples_text(samples, n), sample_text(samples[i], (i + 1) as nat)),
        occurs(
            samples_text(samples, n),
            "# Example "@ + decimal_text((i + 1) as nat) + "\n"@ + match samples[i] {
                Json::Object(fields) => fields_under(fields@, fields@.len() as int),
                _ => value_text(samples[i], 2),
            },
        ),
    decreases n,
{
    let section = sample_text(samples[n - 1], n as nat);
    let whole = samples_text(samples, n);
    if n == 1 {
        assert(whole =~= Seq::<char>::empty() + section + Seq::<char>::empty());
        a_part_occurs(Seq::empty(), section, Seq::empty());
    } else {
        let before = samples_text(samples, n - 1) + "\n\n"@;
        assert(whole =~= before + section + Seq::<char>::empty());
        if i == n - 1 {
            a_part_occurs(before, section, Seq::empty());
        } else {
            each_record_has_its_section(samples, n - 1, i);
            let part = samples_text(samples, n - 1);
            assert(whole =~= Seq::<char>::empty() + part + ("\n\n"@ + section));
            a_part_occurs(Seq::empty(), part, "\n\n"@ + section);
            a_part_of_a_part_occurs(whole, part, sample_text(samples[i], (i + 1) as nat));
        }
    }
}

/// Each field of a record stands in the record's section: its name as a header,
/// and its value below that.
pub proof fn each_field_stands_under_its_name(fields: Vec<(String, Json)>, num: nat, k: int)
    requires
        0 <= k < fields@.len(),
    ensures
        exists|before: Seq<char>, after: Seq<char>|
            sample_text(Json::Object(fields), num) == "# Example "@ + decimal_text(num) + "\n"@
                + #[trigger] (before + ("## "@ + fields@[k].0@ + "\n"@ + value_text(
                fields@[k].1,
                3,
            )) + after),
        occurs(
            sample_text(Json::Object(fields), num),
            "## "@ + fields@[k].0@ + "\n"@ + value_text(fields@[k].1, 3),
        ),
{
    let part = "## "@ + fields@[k].0@ + "\n"@ + value_text(fields@[k].1, 3);
    let head = "# Example "@ + decimal_text(num) + "\n"@;
    let n = fields@.len() as int;
    let (before, after) = lemma_field_within(fields@, n, k);
    assert(fields_under(fields@, n) == before + part + after);
    let whole = sample_text(Json::Object(fields), num);
    assert(whole == head + (before + part + after));
    assert(whole =~= (head + before) + part + after);
    a_part_occurs(head + before, part, after);
}

proof fn lemma_field_within(fields: Seq<(String, Json)>, n: int, k: int) -> (r: (
    Seq<char>,
    Seq<char>,
))
    requires
        0 <= k < n <= fields.len(),
    ensures
        fields_under(fields, n) == r.0 + ("## "@ + fields[k].0@ + "\n"@ + value_text(
            fields[k].1,
            3,
        )) + r.1,
    decreases n,
{
    let part = "## "@ + fields[k].0@ + "\n"@ + value_text(fields[k].1, 3);
    if k == n - 1 {
        let before = fields_under(fields, n - 1);
        assert(fields_under(fields, n) =~= before + part + Seq::<char>::empty());
        (before, Seq::empty())
    } else {
        let (before, after) = lemma_field_within(fields, n - 1, k);
        let last = ("## "@ + fields[n - 1].0@ + "\n"@) + value_text(fields[n - 1].1, 3);
        assert(fields_under(fields, n) =~= before + part + (after + last));
        (before, after + last)
    }
}

/// A text or a number is shown as it is, with a blank line behind it.
pub proof fn a_leaf_is_shown_as_it_is(text: String, level: nat)
    ensures
        value_text(Json::Text(text), level) == text@ + seq!['\n', '\n'],
        value_text(Json::Scalar(text), level) == text@ + seq!['\n', '\n'],
{
    reveal_strlit("\n\n");
    assert("\n\n"@ =~= seq!['\n', '\n']);
}

/// What a header is marked with: as many signs as its level, at most six.
pub open spec fn marks(level: nat) -> Seq<char> {
    Seq::new(
        if level < 6 {
            level
        } else {
            6
        },
        |i: int| '#',
    )
}

/// Within a value each field stands under its name, one level further down than
/// the header of its value.
pub proof fn each_inner_field_stands_under_its_name(
    fields: Vec<(String, Json)>,
    level: nat,
    k: int,
)
    requires
        0 <= k < fields@.len(),
    ensures
        occurs(
            value_text(Json::Object(fields), level),
            marks(level) + " "@ + fields@[k].0@ + "\n"@ + value_text(
                fields@[k].1,
                marks(level).len() + 1,
            ),
        ),
{
    assert(marks(level) =~= hashes(header_level(level)));
    lemma_inner_field(Json::Object(fields), fields, header_level(level), fields@.len(), k);
}

proof fn lemma_inner_field(
    value: Json,
    fields: Vec<(String, Json)>,
    level: nat,
    n: nat,
    k: int,
)
    requires
        value == Json::Object(fields),
        0 <= k < n <= fields@.len(),
    ensures
        occurs(
            fields_text(value, level, n),
            hashes(level) + " "@ + fields@[k].0@ + "\n"@ + value_text(fields@[k].1, level + 1),
        ),
    decreases n,
{
    let part = hashes(level) + " "@ + fields@[k].0@ + "\n"@ + value_text(fields@[k].1, level + 1);
    let whole = fields_text(value, level, n);
    let before = fields_text(value, level, (n - 1) as nat);
    if k == n - 1 {
        assert(whole =~= before + part + Seq::<char>::empty());
        a_part_occurs(before, part, Seq::empty());
    } else {
        lemma_inner_field(value, fields, level, (n - 1) as nat, k);
        let last = (hashes(level) + " "@ + fields@[n - 1].0@ + "\n"@) + value_text(
            fields@[n - 1].1,
            level + 1,
        );
        assert(whole =~= Seq::<char>::empty() + before + last);
        a_part_occurs(Seq::empty(), before, last);
        a_part_of_a_part_occurs(whole, before, part);
    }
}

/// Within a value each item stands under its number, counted from 1.
pub proof fn each_item_stands_under_its_number(items: Vec<Json>, level: nat, k: int)
    requires
        0 <= k < items@.len(),
    ensures
        occurs(
            value_text(Json::Array(items), level),
            marks(level) + " Item "@ + decimal_text((k + 1) as nat) + "\n"@ + value_text(
                items@[k],
                marks(level).len() + 1,
            ),
        ),
{
    assert(marks(level) =~= hashes(header_level(level)));
    lemma_item(Json::Array(items), items, header_level(level), items@.len(), k);
}

proof fn lemma_item(value: Json, items: Vec<Json>, level: nat, n: nat, k: int)
    requires
        value == Json::Array(items),
        0 <= k < n <= items@.len(),
    ensures
        occurs(
            items_text(value, level, n),
            hashes(level) + " Item "@ + decimal_text((k + 1) as nat) + "\n"@ + value_text(
                items@[k],
                level + 1,
            ),
        ),
    decreases n,
{
    let part = hashes(level) + " Item "@ + decimal_text((k + 1) as nat) + "\n"@ + value_text(
        items@[k],
        level + 1,
    );
    let whole = items_text(value, level, n);
    let before = items_text(value, level, (n - 1) as nat);
    if k == n - 1 {
        assert(whole =~= before + part + Seq::<char>::empty());
        a_part_occurs(before, part, Seq::empty());
    } else {
        lemma_item(value, items, level, (n - 1) as nat, k);
        let last = (hashes(level) + " Item "@ + decimal_text(n) + "\n"@) + value_text(
            items@[n - 1],
            level + 1,
        );
        assert(whole =~= Seq::<char>::empty() + before + last);
        a_part_occurs(Seq::empty(), before, last);
        a_part_of_a_part_occurs(whole, before, part);
    }
}

/// Whether a value has the text somewhere in it.
pub open spec fn has_text(value: Json, text: Seq<char>) -> bool
    decreases value,
{
    match value {
        Json::Object(fields) => exists|k: int|
            0 <= k < fields@.len() && has_text((#[trigger] fields@[k]).1, text),
        Json::Array(items) => exists|k: int|
            0 <= k < items@.len() && has_text(#[trigger] items@[k], text),
        Json::Text(t) => t@ == text,
        Json::Scalar(t) => t@ == text,
    }
}

/// What the value of a field has, the object has.
pub proof fn an_object_has_what_its_fields_have(
    fields: Vec<(String, Json)>,
    k: int,
    text: Seq<char>,
)
    requires
        0 <= k < fields@.len(),
        has_text(fields@[k].1, text),
    ensures
        has_text(Json::Object(fields), text),
{
    let value = Json::Object(fields);
    match value {
        Json::Object(inner) => {
            assert(inner == fields);
            assert(exists|q: int|
                0 <= q < inner@.len() && has_text((#[trigger] inner@[q]).1, text)) by {
                assert(has_text(inner@[k].1, text));
            }
            assert(has_text(value, text));
        },
        _ => {},
    }
}

/// Every text in a value is shown, however deep it stands.
pub proof fn every_text_of_a_value_is_shown(value: Json, level: nat, text: Seq<char>)
    requires
        has_text(value, text),
    ensures
        occurs(value_text(value, level), text),
    decreases value,
{
    let whole = value_text(value, level);
    match value {
        Json::Object(fields) => {
            let k = choose|k: int|
                0 <= k < fields@.len() && has_text((#[trigger] fields@[k]).1, text);
            let down = marks(level).len() + 1;
            every_text_of_a_value_is_shown(fields@[k].1, down, text);
            let head = marks(level) + " "@ + fields@[k].0@ + "\n"@;
            let inner = value_text(fields@[k].1, down);
            each_inner_field_stands_under_its_name(fields, level, k);
            assert(head + inner =~= head + inner + Seq::<char>::empty());
            a_part_occurs(head, inner, Seq::empty());
            a_part_of_a_part_occurs(whole, head + inner, inner);
            a_part_of_a_part_occurs(whole, inner, text);
        },
        Json::Array(items) => {
            let k = choose|k: int| 0 <= k < items@.len() && has_text(#[trigger] items@[k], text);
            let down = marks(level).len() + 1;
            every_text_of_a_value_is_shown(items@[k], down, text);
            let head = marks(level) + " Item "@ + decimal_text((k + 1) as nat) + "\n"@;
            let inner = value_text(items@[k], down);
            each_item_stands_under_its_number(items, level, k);
            assert(head + inner =~= head + inner + Seq::<char>::empty());
            a_part_occurs(head, inner, Seq::empty());
            a_part_of_a_part_occurs(whole, head + inner, inner);
            a_part_of_a_part_occurs(whole, inner, text);
        },
        Json::Text(t) => {
            assert(whole =~= Seq::<char>::empty() + text + "\n\n"@);
            a_part_occurs(Seq::empty(), text, "\n\n"@);
        },
        Json::Scalar(t) => {
            assert(whole =~= Seq::<char>::empty() + text + "\n\n"@);
            a_part_occurs(Seq::empty(), text, "\n\n"@);
        },
    }
}

/// Every text of every record is shown.
pub proof fn every_text_of_every_record_is_shown(
    samples: Seq<Json>,
    n: int,
    i: int,
    text: Seq<char>,
)
    requires
        0 <= i < n <= samples.len(),
        has_text(samples[i], text),
    ensures
        occurs(samples_text(samples, n), text),
{
    let whole = samples_text(samples, n);
    let section = sample_text(samples[i], (i + 1) as nat);
    each_record_has_its_section(samples, n, i);
    match samples[i] {
        Json::Object(fields) => {
            let k = choose|k: int|
                0 <= k < fields@.len() && has_text((#[trigger] fields@[k]).1, text);
            each_field_stands_under_its_name(fields, (i + 1) as nat, k);
            let head = "## "@ + fields@[k].0@ + "\n"@;
            let inner = value_text(fields@[k].1, 3);
            every_text_of_a_value_is_shown(fields@[k].1, 3, text);
            assert(head + inner =~= head + inner + Seq::<char>::empty());
            a_part_occurs(head, inner, Seq::empty());
            a_part_of_a_part_occurs(section, head + inner, inner);
            a_part_of_a_part_occurs(section, inner, text);
        },
        _ => {
            let head = "# Example "@ + decimal_text((i + 1) as nat) + "\n"@;
            let inner = value_text(samples[i], 2);
            every_text_of_a_value_is_shown(samples[i], 2, text);
            assert(section =~= head + inner + Seq::<char>::empty());
            a_part_occurs(head, inner, Seq::empty());
            a_part_of_a_part_occurs(section, inner, text);
        },
    }
    a_part_of_a_part_occurs(whole, section, text);
}

/// A placeholder is named as missing just where it is.
pub proof fn missing_placeholders_are_named(template: Seq<char>)
    ensures
        occurs(missing_placeholders(template), "<curr_param>"@) <==> !occurs(
            template,
            "<curr_param>"@,
        ),
        occurs(missing_placeholders(template), "<side_info>"@) <==> !occurs(
            template,
            "<side_info>"@,
        ),
{
    let p = "<curr_param>"@;
    let q = "<side_info>"@;
    lemma_placeholders_differ();
    assert(p =~= Seq::<char>::empty() + p + Seq::<char>::empty());
    assert(q =~= Seq::<char>::empty() + q + Seq::<char>::empty());
    a_part_occurs(Seq::empty(), p, Seq::empty());
    a_part_occurs(Seq::empty(), q, Seq::empty());
    let both = p + ", "@ + q;
    assert(both =~= Seq::<char>::empty() + p + (", "@ + q));
    assert(both =~= (p + ", "@) + q + Seq::<char>::empty());
    a_part_occurs(Seq::empty(), p, ", "@ + q);
    a_part_occurs(p + ", "@, q, Seq::empty());
}

proof fn lemma_placeholders_differ()
    ensures
        !occurs("<side_info>"@, "<curr_param>"@),
        !occurs("<curr_param>"@, "<side_info>"@),
        !occurs(Seq::empty(), "<curr_param>"@),
        !occurs(Seq::empty(), "<side_info>"@),
{
    reveal_strlit("<curr_param>");
    reveal_strlit("<side_info>");
    let p = "<curr_param>"@;
    let q = "<side_info>"@;
    assert(p.len() == 12 && q.len() == 11);
    assert(p[1] == 'c' && q[0] == '<' && q[1] == 's');
    if occurs(p, q) {
        let i = choose|i: int| occurs_at(p, q, i);
        let x = p.subrange(i, i + 11);
        assert(x == q);
        assert(x[0] == p[i]);
        assert(x[1] == p[i + 1]);
        assert(i == 0 || i == 1);
    }
}

/// A template gives a prompt just where it has both placeholders.
pub proof fn a_template_needs_both_placeholders(
    template: Seq<char>,
    instruction: Seq<char>,
    records: Seq<char>,
)
    ensures
        rendering(template, instruction, records) is Ok <==> occurs(template, "<curr_param>"@)
            && occurs(template, "<side_info>"@),
{
}

proof fn lemma_language_end(name: Seq<char>, rest: Seq<char>, i: int)
    requires
        0 <= i <= name.len(),
        forall|k: int| 0 <= k < name.len() ==> !white_space(#[trigger] name[k]),
    ensures
        language_end(name.push('\n') + rest, i) == name.len() + 1,
    decreases name.len() - i,
{
    let s = name.push('\n') + rest;
    if i < name.len() {
        assert(s[i] == name[i]);
        assert(!white_space(name[i]));
        assert(white_space('\n'));
        lemma_language_end(name, rest, i + 1);
    } else {
        assert(s[i] == '\n');
    }
}

/// What an answer has in a fenced block is taken out of it, without white space
/// at its ends, with whatever language the block is marked: the name may be of
/// any length and have any characters but white space. Before and behind the
/// block anything may stand but a backtick.
pub proof fn fenced_text_is_extracted_in_any_language(
    before: Seq<char>,
    name: Seq<char>,
    text: Seq<char>,
    after: Seq<char>,
)
    requires
        !before.contains('`'),
        !after.contains('`'),
        forall|k: int| 0 <= k < name.len() ==> !white_space(#[trigger] name[k]),
    ensures
        extracted(before + "```"@ + name + "\n"@ + text + "\n```"@ + after) == Some(trimmed(text)),
{
    reveal_strlit("\n");
    reveal_strlit("\n```");
    reveal_strlit("```");
    let fence = "```"@;
    let close = "\n```"@;
    let block = fence + name + "\n"@ + text + close;
    let response = before + fence + name + "\n"@ + text + close + after;
    assert(response =~= before + (block + after));
    assert(block[0] == '`');
    assert(block.last() == '`');
    lemma_trimmed_start_before(before, block + after);
    let head = trimmed_start(before);
    assert(head + (block + after) =~= (head + block) + after);
    lemma_trimmed_end_after(head + block, after);
    let tail = trimmed_end(after);
    let t = trimmed(response);
    assert(t == (head + block) + tail);
    lemma_trimmed_start_is_suffix(before, '`');
    lemma_trimmed_end_is_prefix(after, '`');
    let a = head.len() as int;
    let b = a + 3 + name.len() + 1 + text.len() + 1;
    assert(t.subrange(a, a + 3) =~= fence);
    assert(t.subrange(b, b + 3) =~= fence);
    lemma_only_fences(t, a, b);
    let inner = t.subrange(a + 3, b);
    assert(inner =~= name.push('\n') + text.push('\n'));
    lemma_language_end(name, text.push('\n'), 0);
    assert(inner.skip((name.len() + 1) as int) =~= text.push('\n'));
    lemma_newline_is_trimmed(text);
}

proof fn lemma_only_fences(t: Seq<char>, a: int, b: int)
    requires
        0 <= a <= b,
        b + 3 <= t.len(),
        t.subrange(a, a + 3) == "```"@,
        t.subrange(b, b + 3) == "```"@,
        forall|j: int| 0 <= j < a ==> t[j] != '`',
        forall|j: int| b + 3 <= j < t.len() ==> t[j] != '`',
    ensures
        next_at(t, "```"@, 0) == Some(a),
        last_before(t, "```"@, t.len() as int) == Some(b),
{
    reveal_strlit("```");
    let fence = "```"@;
    assert(occurs_at(t, fence, a));
    assert(occurs_at(t, fence, b));
    lemma_next_at(t, fence, 0);
    lemma_last_before(t, fence, t.len() as int);
    assert forall|j: int| 0 <= j < a implies !occurs_at(t, fence, j) by {
        if occurs_at(t, fence, j) {
            assert(t.subrange(j, j + 3)[0] == fence[0]);
            assert(t[j] != '`');
        }
    }
    assert forall|j: int| b < j implies !occurs_at(t, fence, j) by {
        if occurs_at(t, fence, j) {
            assert(t.subrange(j, j + 3)[2] == fence[2]);
            assert(t[j + 2] != '`');
        }
    }
}

/// An answer without a fence is the instruction, without white space at its
/// ends; a blank answer has none.
pub proof fn an_answer_without_a_fence_is_taken_whole(response: Seq<char>)
    requires
        !response.contains('`'),
    ensures
        extracted(response) is None <==> blank(response),
        !blank(response) ==> extracted(response) == Some(trimmed(response)),
{
    reveal_strlit("```");
    nothing_is_left_of_a_blank(response);
    let t = trimmed(response);
    lemma_trimmed_start_is_suffix(response, '`');
    lemma_trimmed_end_is_prefix(trimmed_start(response), '`');
    let fence = "```"@;
    lemma_next_at(t, fence, 0);
    if let Some(k) = next_at(t, fence, 0) {
        assert(t.subrange(k, k + 3)[0] == fence[0]);
        assert(t[k] == '`');
    }
}

/// An answer is without an instruction just where it is blank.
pub proof fn only_a_blank_answer_gives_nothing(response: Seq<char>)
    ensures
        extracted(response) is None <==> blank(response),
{
    nothing_is_left_of_a_blank(response);
}

/// An answer that only opens a fenced block gives what stands behind the line
/// that opens it.
pub proof fn an_open_block_is_extracted(name: Seq<char>, text: Seq<char>)
    requires
        !text.contains('`'),
        !name.contains('`'),
        !blank(text),
        forall|k: int| 0 <= k < name.len() ==> !white_space(#[trigger] name[k]),
    ensures
        extracted("```"@ + name + "\n"@ + text) == Some(trimmed(text)),
{
    reveal_strlit("\n");
    reveal_strlit("```");
    let fence = "```"@;
    let response = fence + name + "\n"@ + text;
    trimming_takes_the_blank_ends(text);
    nothing_is_left_of_a_blank(text);
    let (x, y) = choose|x: Seq<char>, y: Seq<char>|
        blank(x) && blank(y) && text == #[trigger] (x + trimmed(text) + y);
    let core = trimmed(text);
    let t = fence + name + "\n"@ + x + core;
    assert(response =~= Seq::<char>::empty() + t + y);
    assert(t[0] == '`');
    assert(!white_space('`'));
    assert(t.last() == core.last());
    trimming_finds_the_text(Seq::empty(), t, y);
    assert(trimmed(response) == t);
    assert(t.subrange(0, 3) =~= fence);
    assert forall|j: int| 3 <= j < t.len() implies t[j] != '`' by {
        if j < 3 + name.len() {
            assert(t[j] == name[j - 3]);
            assert(name.contains(name[j - 3]));
        } else if j > 3 + name.len() {
            let i = j - 4 - name.len();
            assert(t[j] == text[i]);
            assert(text.contains(text[i]));
        }
    }
    lemma_only_fences(t, 0, 0);
    let inner = t.skip(3);
    assert(inner =~= name.push('\n') + (x + core));
    lemma_language_end(name, x + core, 0);
    assert(inner.skip((name.len() + 1) as int) =~= x + core + Seq::<char>::empty());
    trimming_finds_the_text(x, core, Seq::empty());
}

/// An answer that only closes a fenced block gives what stands before and behind
/// the fence.
pub proof fn a_lone_fence_is_left_out(before: Seq<char>, after: Seq<char>)
    requires
        !before.contains('`'),
        !after.contains('`'),
        !blank(before),
    ensures
        extracted(before + "```"@ + after) == Some(trimmed(before + after)),
{
    reveal_strlit("```");
    let fence = "```"@;
    let response = before + fence + after;
    assert(response =~= before + (fence + after));
    lemma_trimmed_start_before(before, fence + after);
    let head = trimmed_start(before);
    assert(head + (fence + after) =~= (head + fence) + after);
    lemma_trimmed_end_after(head + fence, after);
    let tail = trimmed_end(after);
    let t = trimmed(response);
    assert(t == (head + fence) + tail);
    lemma_trimmed_start_is_suffix(before, '`');
    lemma_trimmed_end_is_prefix(after, '`');
    nothing_is_left_of_a_blank(before);
    let a = head.len() as int;
    assert(a > 0) by {
        if a == 0 {
            assert(trimmed_end(head) == head);
        }
    }
    assert(t.subrange(a, a + 3) =~= fence);
    assert forall|j: int| 0 <= j < a implies t[j] != '`' by {
        assert(t[j] == head[j]);
        assert(head.contains(head[j]));
    }
    assert forall|j: int| a + 3 <= j < t.len() implies t[j] != '`' by {
        assert(t[j] == tail[j - a - 3]);
        assert(tail.contains(tail[j - a - 3]));
    }
    lemma_only_fences(t, a, a);
    assert(t.take(a) + t.skip(a + 3) =~= head + tail);
    lemma_trimmed_halves(before, after);
}

proof fn lemma_trimmed_halves(before: Seq<char>, after: Seq<char>)
    ensures
        trimmed(trimmed_start(before) + trimmed_end(after)) == trimmed(before + after),
{
    lemma_without_the_end(trimmed_start(before), after);
    lemma_without_the_start(before, after);
}

pub(crate) proof fn lemma_without_the_start(before: Seq<char>, after: Seq<char>)
    ensures
        trimmed(trimmed_start(before) + after) == trimmed(before + after),
    decreases before.len(),
{
    if before.len() > 0 && white_space(before[0]) {
        lemma_without_the_start(before.skip(1), after);
        assert((before + after).skip(1) =~= before.skip(1) + after);
    }
}

proof fn lemma_drop_blank_end(s: Seq<char>)
    requires
        s.len() > 0,
        white_space(s.last()),
    ensures
        trimmed(s.drop_last()) == trimmed(s),
    decreases s.len(),
{
    if white_space(s[0]) {
        if s.len() == 1 {
            assert(s.skip(1) =~= s.drop_last());
        } else {
            assert(s.skip(1).drop_last() =~= s.drop_last().skip(1));
            lemma_drop_blank_end(s.skip(1));
        }
    }
}

pub(crate) proof fn lemma_without_the_end(before: Seq<char>, after: Seq<char>)
    ensures
        trimmed(before + trimmed_end(after)) == trimmed(before + after),
    decreases after.len(),
{
    if after.len() > 0 && white_space(after.last()) {
        lemma_without_the_end(before, after.drop_last());
        assert((before + after).drop_last() =~= before + after.drop_last());
        lemma_drop_blank_end(before + after);
    }
}

} // verus!
