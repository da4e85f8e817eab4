//! The parts of the process adapter that do not run the process.
use vstd::prelude::*;

use crate::error::{GEPAError, Result};
use crate::keyed::KeyMap;
use crate::optimizer::adapter::ObjectiveScores;
use crate::score::Score;
use crate::strategies::markdown::Json;
use crate::text::{
    contains_text, decimal, decimal_text, lines_from, occurs, occurs_at, slice_text, sort_texts,
    sorted_texts, split_lines, stands_at, text_views, to_chars,
};

verus! {

broadcast use vstd::string::group_string_axioms;

/// Whether higher or lower values of a metric are better.
#[derive(Debug, Clone, Copy, PartialEq, Eq, Structural)]
pub enum ScoreDirection {
    /// Higher values are better.
    Higher,
    /// Lower values are better; the score is the negated value.
    Lower,
}

impl Default for ScoreDirection {
    fn default() -> (d: ScoreDirection)
        ensures
            d == ScoreDirection::Higher,
    {
        ScoreDirection::Higher
    }
}

impl ScoreDirection {
    /// The score of a value.
    pub open spec fn adjusted(self, value: Score) -> Score {
        match self {
            ScoreDirection::Higher => value,
            ScoreDirection::Lower => value.opposite(),
        }
    }

    /// The score of a value, higher being better.
    pub fn adjust(&self, value: &Score) -> (s: Score)
        ensures
            s == self.adjusted(*value),
    {
        match self {
            ScoreDirection::Higher => *value,
            ScoreDirection::Lower => value.negated(),
        }
    }
}

/// How the components are passed to the process.
#[derive(Debug, Clone)]
pub enum PassMode {
    /// Each component as an environment variable.
    EnvVars,
    /// All components in a JSON file, whose path is an environment variable.
    JsonFile {
        /// The path that the file's own path is made from.
        path: String,
    },
}

impl Default for PassMode {
    fn default() -> (m: PassMode)
        ensures
            m is EnvVars,
    {
        PassMode::EnvVars
    }
}

/// A text in upper case.
pub uninterp spec fn uppercase_text(s: Seq<char>) -> Seq<char>;

/// `str::to_uppercase`.
#[verifier::external_body]
fn uppercase(s: &str) -> (r: String)
    ensures
        r@ == uppercase_text(s@),
{
    s.to_uppercase()
}

/// `s` with underscores for hyphens.
pub open spec fn underscored(s: Seq<char>) -> Seq<char> {
    Seq::new(
        s.len(),
        |i: int|
            if s[i] == '-' {
                '_'
            } else {
                s[i]
            },
    )
}

/// `text` with underscores for hyphens.
pub fn replace_hyphens(text: &str) -> (r: String)
    ensures
        r@ == underscored(text@),
{
    let v = to_chars(text);
    let mut r = String::new();
    let mut i: usize = 0;
    while i < v.len()
        invariant
            v@ == text@,
            i <= v@.len(),
            r@ == underscored(text@).take(i as int),
        decreases v@.len() - i,
    {
        if v[i] == '-' {
            r.push('_');
        } else {
            r.push(v[i]);
        }
        i += 1;
        assert(r@ =~= underscored(text@).take(i as int));
    }
    assert(r@ =~= underscored(text@));
    r
}

/// The environment variable that the component `name` is passed in.
pub fn component_variable(name: &str) -> (r: String)
    ensures
        r@ == "GEPA_"@ + underscored(uppercase_text(name@)),
{
    let mut r = "GEPA_".to_owned();
    let upper = uppercase(name);
    r.append(replace_hyphens(upper.as_str()).as_str());
    r
}

/// The name of a configuration file that no other evaluation uses: `id` and
/// `pid` tell it apart. With `extension` it is made from `stem`.
pub fn config_file_name(stem: Option<&str>, extension: Option<&str>, pid: u32, id: u64) -> (r: String)
    ensures
        r@ == match extension {
            Some(ext) => (match stem {
                Some(s) => s@,
                None => "gepa-config"@,
            }) + ".gepa-"@ + decimal_text(pid as nat) + "-"@ + decimal_text(id as nat) + "."@
                + ext@,
            None => "gepa-config-"@ + decimal_text(pid as nat) + "-"@ + decimal_text(id as nat)
                + ".json"@,
        },
{
    match extension {
        Some(ext) => {
            let mut r = match stem {
                Some(s) => s.to_owned(),
                None => "gepa-config".to_owned(),
            };
            r.append(".gepa-");
            r.append(decimal(pid as u64).as_str());
            r.append("-");
            r.append(decimal(id).as_str());
            r.append(".");
            r.append(ext);
            r
        },
        None => {
            let mut r = "gepa-config-".to_owned();
            r.append(decimal(pid as u64).as_str());
            r.append("-");
            r.append(decimal(id).as_str());
            r.append(".json");
            r
        },
    }
}

/// Check that a batch has the one item that stands for the whole evaluation.
///
/// # Errors
/// An adapter error where it has not.
pub fn check_unit_batch(n: usize) -> (r: Result<()>)
    ensures
        match r {
            Ok(()) => n == 1,
            Err(e) => {
                &&& n != 1
                &&& e matches GEPAError::AdapterError(text)
                &&& text@
                    == "ProcessAdapter expects exactly one unit item per evaluation batch, got "@
                    + decimal_text(n as nat)
                    + ". Use VecLoader::new(vec![()]) and minibatch_size=1 for candidate-level processes."@
            },
        },
{
    if n != 1 {
        let mut text =
            "ProcessAdapter expects exactly one unit item per evaluation batch, got ".to_owned();
        text.append(decimal(n as u64).as_str());
        text.append(
            ". Use VecLoader::new(vec![()]) and minibatch_size=1 for candidate-level processes.",
        );
        return Err(GEPAError::AdapterError(text));
    }
    Ok(())
}

/// How a list of strings is written for debugging.
pub uninterp spec fn debug_list_text(list: Seq<Seq<char>>) -> Seq<char>;

/// A list of strings, written by its `Debug`.
#[verifier::external_body]
fn write_debug_list(list: &Vec<String>) -> (text: String)
    ensures
        text@ == debug_list_text(text_views(list@)),
{
    format!("{:?}", list)
}

/// The error for a metric that the output lacks.
pub open spec fn missing_key_text(
    what: Seq<char>,
    key: Seq<char>,
    metrics: KeyMap<String, Score>,
) -> Seq<char> {
    what + " key '"@ + key + "' was not found in process metrics; available keys: "@
        + debug_list_text(sorted_texts(metrics.key_seq()))
}

fn missing_key(what: &str, key: &str, metrics: &KeyMap<String, Score>) -> (e: GEPAError)
    requires
        metrics.wf(),
    ensures
        e matches GEPAError::AdapterError(text) && text@ == missing_key_text(
            what@,
            key@,
            *metrics,
        ),
{
    let n: usize = metrics.len();
    let mut keys: Vec<String> = Vec::new();
    let mut i: usize = 0;
    while i < n
        invariant
            metrics.wf(),
            n == metrics.key_seq().len(),
            i <= n,
            keys@.len() == i,
            forall|j: int| 0 <= j < i ==> (#[trigger] keys@[j])@ == metrics.key_seq()[j],
        decreases n - i,
    {
        keys.push(metrics.key_at(i).clone());
        i += 1;
    }
    assert(text_views(keys@) =~= metrics.key_seq());
    let sorted = sort_texts(&keys);
    let mut text = what.to_owned();
    text.append(" key '");
    text.append(key);
    text.append("' was not found in process metrics; available keys: ");
    text.append(write_debug_list(&sorted).as_str());
    GEPAError::AdapterError(text)
}

/// How the scores of an evaluation are taken from the metrics of its process.
pub struct ProcessScoring {
    /// The metric that is the score.
    pub score_key: String,
    /// Whether higher or lower values of it are better.
    pub score_direction: ScoreDirection,
    /// The metrics that are objectives.
    pub objective_keys: Vec<String>,
}

/// The lowest finite score: that of a process that failed.
pub open spec fn failure_score() -> Score {
    Score { bits: 0xffef_ffff_ffff_ffff }
}

/// The first of the keys from position `i` on that is not among the metrics.
pub open spec fn first_missing(
    keys: Seq<Seq<char>>,
    metrics: Map<Seq<char>, Score>,
    i: int,
) -> Option<int>
    decreases keys.len() - i,
{
    if i < 0 || i >= keys.len() {
        None
    } else if !metrics.dom().contains(keys[i]) {
        Some(i)
    } else {
        first_missing(keys, metrics, i + 1)
    }
}

/// The objective scores by the first `n` keys.
pub open spec fn objectives_by(
    keys: Seq<Seq<char>>,
    metrics: Map<Seq<char>, Score>,
    failed: bool,
    n: int,
) -> Map<Seq<char>, Score>
    decreases n,
{
    if n <= 0 {
        Map::empty()
    } else {
        objectives_by(keys, metrics, failed, n - 1).insert(
            keys[n - 1],
            if failed {
                failure_score()
            } else {
                metrics[keys[n - 1]]
            },
        )
    }
}

impl ProcessScoring {
    /// The score and the objective scores of a process that ended with
    /// `exit_code`. One that failed gets the lowest finite scores.
    ///
    /// # Errors
    /// An adapter error where the process did not fail and a metric is missing.
    pub fn score(&self, metrics: &KeyMap<String, Score>, exit_code: i32) -> (r: Result<
        (Score, Option<ObjectiveScores>),
    >)
        requires
            metrics.wf(),
        ensures
            ({
                let keys = text_views(self.objective_keys@);
                let missing = first_missing(keys, metrics@, 0);
                match r {
                    Ok((score, objectives)) => {
                        &&& exit_code == 0 ==> metrics@.dom().contains(self.score_key@)
                            && missing is None
                        &&& score == if exit_code == 0 {
                            self.score_direction.adjusted(metrics@[self.score_key@])
                        } else {
                            failure_score()
                        }
                        &&& match objectives {
                            Some(m) => keys.len() > 0 && m.wf() && m@ == objectives_by(
                                keys,
                                metrics@,
                                exit_code != 0,
                                keys.len() as int,
                            ),
                            None => keys.len() == 0,
                        }
                    },
                    Err(e) => {
                        &&& exit_code == 0
                        &&& e matches GEPAError::AdapterError(text)
                        &&& if !metrics@.dom().contains(self.score_key@) {
                            text@ == missing_key_text("score"@, self.score_key@, *metrics)
                        } else {
                            missing matches Some(i) && text@ == missing_key_text(
                                "objective"@,
                                keys[i],
                                *metrics,
                            )
                        }
                    },
                }
            }),
    {
        let ghost keys = text_views(self.objective_keys@);
        let failed = exit_code != 0;
        let score = if failed {
            Score::from_bits(0xffef_ffff_ffff_ffff)
        } else {
            match metrics.get(&self.score_key) {
                Some(value) => self.score_direction.adjust(value),
                None => return Err(missing_key("score", self.score_key.as_str(), metrics)),
            }
        };
        if self.objective_keys.len() == 0 {
            return Ok((score, None));
        }
        let mut objectives: ObjectiveScores = KeyMap::new();
        let mut i: usize = 0;
        while i < self.objective_keys.len()
            invariant
                metrics.wf(),
                keys == text_views(self.objective_keys@),
                failed == (exit_code != 0),
                !failed ==> metrics@.dom().contains(self.score_key@),
                i <= self.objective_keys@.len(),
                objectives.wf(),
                !failed ==> first_missing(keys, metrics@, 0) == first_missing(
                    keys,
                    metrics@,
                    i as int,
                ),
                objectives@ == objectives_by(keys, metrics@, failed, i as int),
            decreases self.objective_keys@.len() - i,
        {
            let key = &self.objective_keys[i];
            assert(keys[i as int] == key@);
            let value = if failed {
                Score::from_bits(0xffef_ffff_ffff_ffff)
            } else {
                match metrics.get(key) {
                    Some(value) => *value,
                    None => return Err(missing_key("objective", key.as_str(), metrics)),
                }
            };
            objectives.insert(key.clone(), value);
            i += 1;
        }
        Ok((score, Some(objectives)))
    }
}

/// Whether a line of output is shown to the language model.
pub open spec fn is_feedback(line: Seq<char>) -> bool {
    ||| occurs(line, "loss"@)
    ||| occurs(line, "bpb"@)
    ||| occurs(line, "mfu"@)
    ||| occurs(line, "FAIL"@)
    ||| occurs_at(line, "---"@, 0)
}

/// The lines among the first `n` that are shown, with newlines between them.
pub open spec fn feedback_text(lines: Seq<Seq<char>>, n: int) -> (Seq<char>, bool)
    decreases n,
{
    if n <= 0 {
        (Seq::empty(), false)
    } else {
        let (text, any) = feedback_text(lines, n - 1);
        if is_feedback(lines[n - 1]) {
            (
                if any {
                    text + "\n"@ + lines[n - 1]
                } else {
                    lines[n - 1]
                },
                true,
            )
        } else {
            (text, any)
        }
    }
}

/// The lines of output that are shown to the language model.
pub fn feedback_lines(stdout: &str) -> (text: String)
    ensures
        text@ == feedback_text(lines_from(stdout@, 0), lines_from(stdout@, 0).len() as int).0,
{
    let lines = split_lines(stdout);
    let ghost all = lines_from(stdout@, 0);
    let dashes = to_chars("---");
    let mut text = String::new();
    let mut any = false;
    let mut i: usize = 0;
    while i < lines.len()
        invariant
            all == text_views(lines@),
            dashes@ == "---"@,
            i <= lines@.len(),
            (text@, any) == feedback_text(all, i as int),
        decreases lines@.len() - i,
    {
        let line = lines[i].as_str();
        assert(all[i as int] == line@);
        let shown = contains_text(line, "loss") || contains_text(line, "bpb") || contains_text(
            line,
            "mfu",
        ) || contains_text(line, "FAIL") || stands_at(&to_chars(line), &dashes, 0);
        if shown {
            if any {
                text.append("\n");
                text.append(line);
            } else {
                text = line.to_owned();
                any = true;
            }
        }
        i += 1;
    }
    text
}

/// How much of the error output is shown.
pub const MAX_STDERR_CHARS: usize = 500;

/// The decimal digits of `n`, with a sign before those of a negative number.
pub open spec fn signed_text(n: int) -> Seq<char> {
    if n < 0 {
        "-"@ + decimal_text((-n) as nat)
    } else {
        decimal_text(n as nat)
    }
}

/// What is said of a process that failed.
pub fn exit_text(exit_code: i32, stderr: &str) -> (text: String)
    ensures
        text@ == "Process exited with code "@ + signed_text(exit_code as int) + ". stderr: "@
            + stderr@.take(
            if stderr@.len() <= MAX_STDERR_CHARS {
                stderr@.len() as int
            } else {
                MAX_STDERR_CHARS as int
            },
        ),
{
    let mut text = "Process exited with code ".to_owned();
    if exit_code < 0 {
        text.append("-");
        text.append(decimal((-(exit_code as i64)) as u64).as_str());
    } else {
        text.append(decimal(exit_code as u64).as_str());
    }
    text.append(". stderr: ");
    let v = to_chars(stderr);
    let n: usize = if v.len() <= MAX_STDERR_CHARS {
        v.len()
    } else {
        MAX_STDERR_CHARS
    };
    let ghost head = text@;
    let part = slice_text(&v, 0, n);
    assert(part@ =~= stderr@.take(n as int));
    text.append(part.as_str());
    assert(text@ =~= "Process exited with code "@ + signed_text(exit_code as int) + ". stderr: "@
        + stderr@.take(n as int));
    text
}

/// The output of a process that was evaluated.
#[derive(Debug, Clone)]
pub struct ProcessTrace {
    /// The standard output.
    pub stdout: String,
    /// The standard error output.
    pub stderr: String,
    /// The exit code.
    pub exit_code: i32,
    /// The metrics.
    pub metrics: KeyMap<String, Score>,
}

/// Whether `record` tells the language model of one evaluation: the current
/// value, the metrics and the score, and of a trace the lines that are shown
/// and how the process failed, if it did.
pub open spec fn is_record(
    record: Seq<(String, Json)>,
    current_value: Seq<char>,
    metrics: Json,
    score: Json,
    trace: Option<&ProcessTrace>,
) -> bool {
    &&& record.len() == 3 + match trace {
        Some(t) => if t.exit_code != 0 {
            2int
        } else {
            1
        },
        None => 0,
    }
    &&& record[0].0@ == "Current Value"@
    &&& record[0].1 matches Json::Text(v) && v@ == current_value
    &&& record[1].0@ == "Metrics"@
    &&& record[1].1 == metrics
    &&& record[2].0@ == "Score"@
    &&& record[2].1 == score
    &&& trace matches Some(t) ==> {
        let lines = lines_from(t.stdout@, 0);
        &&& record[3].0@ == "Feedback"@
        &&& record[3].1 matches Json::Text(v)
        &&& v@ == feedback_text(lines, lines.len() as int).0
        &&& t.exit_code != 0 ==> {
            &&& record[4].0@ == "Error"@
            &&& record[4].1 matches Json::Text(w)
            &&& w@ == "Process exited with code "@ + signed_text(t.exit_code as int)
                + ". stderr: "@ + t.stderr@.take(
                if t.stderr@.len() <= MAX_STDERR_CHARS {
                    t.stderr@.len() as int
                } else {
                    MAX_STDERR_CHARS as int
                },
            )
        }
    }
}

/// What the language model is told of one evaluation.
pub fn reflective_record(
    current_value: &str,
    metrics: Json,
    score: Json,
    trace: Option<&ProcessTrace>,
) -> (record: Vec<(String, Json)>)
    ensures
        is_record(record@, current_value@, metrics, score, trace),
{
    let mut record: Vec<(String, Json)> = Vec::new();
    record.push(("Current Value".to_owned(), Json::Text(current_value.to_owned())));
    record.push(("Metrics".to_owned(), metrics));
    record.push(("Score".to_owned(), score));
    if let Some(t) = trace {
        record.push(("Feedback".to_owned(), Json::Text(feedback_lines(t.stdout.as_str()))));
        if t.exit_code != 0 {
            record.push(
                ("Error".to_owned(), Json::Text(exit_text(t.exit_code, t.stderr.as_str()))),
            );
        }
    }
    record
}

} // verus!
