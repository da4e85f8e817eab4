//! Examples for the prompt, as markdown.
use vstd::prelude::*;

use crate::text::{decimal, decimal_text};

verus! {

/// A JSON value, as far as it is rendered.
pub enum Json {
    /// An object: its keys and values, in order.
    Object(Vec<(String, Json)>),
    /// An array.
    Array(Vec<Json>),
    /// A string.
    Text(String),
    /// A null, a boolean or a number, as it is written.
    Scalar(String),
}

/// `n` number signs.
pub open spec fn hashes(n: nat) -> Seq<char> {
    Seq::new(n, |i: int| '#')
}

/// The level of a header, at most 6.
pub open spec fn header_level(level: nat) -> nat {
    if level <= 6 {
        level
    } else {
        6
    }
}

/// The text of a value under headers of `level`.
pub open spec fn value_text(value: Json, level: nat) -> Seq<char>
    decreases value, 1nat, 0nat,
{
    match value {
        Json::Object(fields) => if fields@.len() == 0 {
            "\n"@
        } else {
            fields_text(value, header_level(level), fields@.len())
        },
        Json::Array(items) => if items@.len() == 0 {
            "\n"@
        } else {
            items_text(value, header_level(level), items@.len())
        },
        Json::Text(text) => text@ + "\n\n"@,
        Json::Scalar(text) => text@ + "\n\n"@,
    }
}

/// The text of the first `n` fields of an object.
pub open spec fn fields_text(value: Json, level: nat, n: nat) -> Seq<char>
    decreases value, 0nat, n,
{
    match value {
        Json::Object(fields) => if n == 0 || n > fields@.len() {
            Seq::empty()
        } else {
            fields_text(value, level, (n - 1) as nat) + (hashes(level) + " "@
                + fields@[n - 1].0@ + "\n"@) + value_text(fields@[n - 1].1, level + 1)
        },
        _ => Seq::empty(),
    }
}

/// The text of the first `n` items of an array.
pub open spec fn items_text(value: Json, level: nat, n: nat) -> Seq<char>
    decreases value, 0nat, n,
{
    match value {
        Json::Array(items) => if n == 0 || n > items@.len() {
            Seq::empty()
        } else {
            items_text(value, level, (n - 1) as nat) + (hashes(level) + " Item "@ + decimal_text(
                n,
            ) + "\n"@) + value_text(items@[n - 1], level + 1)
        },
        _ => Seq::empty(),
    }
}

fn append_hashes(s: &mut String, n: usize)
    ensures
        final(s)@ == old(s)@ + hashes(n as nat),
{
    let ghost before = s@;
    let mut i: usize = 0;
    assert(s@ =~= before + hashes(0));
    while i < n
        invariant
            i <= n,
            s@ == before + hashes(i as nat),
        decreases n - i,
    {
        s.push('#');
        i += 1;
        assert(s@ =~= before + hashes(i as nat));
    }
}

fn render_value(value: &Json, level: usize) -> (s: String)
    requires
        level < 100,
    ensures
        s@ == value_text(*value, level as nat),
    decreases *value,
{
    let level: usize = if level <= 6 {
        level
    } else {
        6
    };
    let mut s = String::new();
    match value {
        Json::Object(fields) => {
            let mut i: usize = 0;
            while i < fields.len()
                invariant
                    level <= 6,
                    *value == Json::Object(*fields),
                    i <= fields@.len(),
                    s@ == fields_text(*value, level as nat, i as nat),
                decreases fields@.len() - i,
            {
                append_hashes(&mut s, level);
                s.append(" ");
                s.append(fields[i].0.as_str());
                s.append("\n");
                let child = &fields[i].1;
                let inner = render_value(child, level + 1);
                s.append(inner.as_str());
                i += 1;
                assert(s@ =~= fields_text(*value, level as nat, i as nat));
            }
            if fields.len() == 0 {
                s.append("\n");
                assert(s@ =~= "\n"@);
            }
        },
        Json::Array(items) => {
            let mut i: usize = 0;
            while i < items.len()
                invariant
                    level <= 6,
                    *value == Json::Array(*items),
                    i <= items@.len(),
                    s@ == items_text(*value, level as nat, i as nat),
                decreases items@.len() - i,
            {
                append_hashes(&mut s, level);
                s.append(" Item ");
                s.append(decimal(i as u64 + 1).as_str());
                s.append("\n");
                let child = &items[i];
                let inner = render_value(child, level + 1);
                s.append(inner.as_str());
                i += 1;
                assert(s@ =~= items_text(*value, level as nat, i as nat));
            }
            if items.len() == 0 {
                s.append("\n");
                assert(s@ =~= "\n"@);
            }
        },
        Json::Text(text) => {
            s.append(text.as_str());
            s.append("\n\n");
            assert(s@ =~= text@ + "\n\n"@);
        },
        Json::Scalar(text) => {
            s.append(text.as_str());
            s.append("\n\n");
            assert(s@ =~= text@ + "\n\n"@);
        },
    }
    s
}

/// The section of one example.
pub open spec fn sample_text(sample: Json, num: nat) -> Seq<char> {
    "# Example "@ + decimal_text(num) + "\n"@ + match sample {
        Json::Object(fields) => fields_under(fields@, fields@.len() as int),
        _ => value_text(sample, 2),
    }
}

/// The first `n` fields of an example, each under its header.
pub open spec fn fields_under(fields: Seq<(String, Json)>, n: int) -> Seq<char>
    decreases n,
{
    if n <= 0 {
        Seq::empty()
    } else {
        fields_under(fields, n - 1) + ("## "@ + fields[n - 1].0@ + "\n"@) + value_text(
            fields[n - 1].1,
            3,
        )
    }
}

fn convert_sample_to_markdown(sample: &Json, num: u64) -> (s: String)
    ensures
        s@ == sample_text(*sample, num as nat),
{
    let mut s = "# Example ".to_owned();
    s.append(decimal(num).as_str());
    s.append("\n");
    let ghost head = s@;
    match sample {
        Json::Object(fields) => {
            let mut i: usize = 0;
            assert(s@ =~= head + fields_under(fields@, 0));
            while i < fields.len()
                invariant
                    i <= fields@.len(),
                    s@ == head + fields_under(fields@, i as int),
                decreases fields@.len() - i,
            {
                s.append("## ");
                s.append(fields[i].0.as_str());
                s.append("\n");
                s.append(render_value(&fields[i].1, 3).as_str());
                i += 1;
                assert(s@ =~= head + fields_under(fields@, i as int));
            }
        },
        _ => {
            s.append(render_value(sample, 2).as_str());
        },
    }
    s
}

/// The sections of the first `n` examples, numbered from 1, with a blank line
/// between them.
pub open spec fn samples_text(samples: Seq<Json>, n: int) -> Seq<char>
    decreases n,
{
    if n <= 0 {
        Seq::empty()
    } else if n == 1 {
        sample_text(samples[0], 1)
    } else {
        samples_text(samples, n - 1) + "\n\n"@ + sample_text(samples[n - 1], n as nat)
    }
}

/// The examples as markdown: one section for each, numbered from 1.
pub fn format_samples_as_markdown(samples: &[Json]) -> (s: String)
    ensures
        s@ == samples_text(samples@, samples@.len() as int),
{
    let mut s = String::new();
    let mut i: usize = 0;
    while i < samples.len()
        invariant
            i <= samples@.len(),
            s@ == samples_text(samples@, i as int),
        decreases samples@.len() - i,
    {
        if i > 0 {
            s.append("\n\n");
        }
        s.append(convert_sample_to_markdown(&samples[i], i as u64 + 1).as_str());
        i += 1;
        assert(s@ =~= samples_text(samples@, i as int));
    }
    s
}

} // verus!
