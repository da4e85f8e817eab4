#![allow(dead_code)]
use std::sync::{Arc, Mutex};

use gepa::adapters::metrics::{metric_tokens, parse_key_value_metrics};
use gepa::adapters::process::{
    check_unit_batch, component_variable, config_file_name, exit_text, feedback_lines,
    reflective_record, replace_hyphens, PassMode, ProcessScoring, ProcessTrace, ScoreDirection,
};
use gepa::error::HttpFailure;
use gepa::optimizer::callbacks::BudgetUpdatedEvent;
use gepa::strategies::markdown::Json;
use gepa::tracking::{ExperimentTracker, NoopTracker};
use gepa::{
    component_kind, ensure_loader, Candidate, ComponentKind, ComponentMeta, ComponentMetaMap,
    DataId, DataLoader, EvaluationBatch, GEPAError, KeyMap, MutableDataLoader, ObjectiveScores,
    Score, ScoreArithmetic, VecLoader,
};
use rand::rngs::mock::StepRng;
use rand::Rng;
use serde_json::Value;

#[derive(Clone, Copy)]
struct Floats;

fn s(x: f64) -> Score {
    Score::from_bits(x.to_bits())
}

fn f(x: Score) -> f64 {
    f64::from_bits(x.bits)
}

impl ScoreArithmetic for Floats {
    fn sum(&self, scores: &Vec<Score>) -> Score {
        s(scores.iter().map(|x| f(*x)).sum())
    }

    fn mean(&self, scores: &Vec<Score>) -> Score {
        s(scores.iter().map(|x| f(*x)).sum::<f64>() / scores.len() as f64)
    }

    fn plus(&self, a: Score, b: Score) -> Score {
        s(f(a) + f(b))
    }

    fn point(&self, word: u64, limit: Score) -> Score {
        s(StepRng::new(word, 0).gen::<f64>() * f(limit))
    }

    fn text(&self, x: Score) -> String {
        format!("{}", f(x))
    }

    fn parse(&self, token: &String) -> Option<Score> {
        token.parse::<f64>().ok().map(s)
    }
}

fn text_map(entries: &[(&str, &str)]) -> KeyMap<String, String> {
    let mut m = KeyMap::new();
    for (k, v) in entries {
        m.insert(k.to_string(), v.to_string());
    }
    m
}

fn objectives(entries: &[(&str, f64)]) -> ObjectiveScores {
    let mut m = KeyMap::new();
    for (k, v) in entries {
        m.insert(k.to_string(), s(*v));
    }
    m
}

fn metric(metrics: &KeyMap<String, Score>, key: &str) -> Option<f64> {
    metrics.get(&key.to_string()).map(|x| f(*x))
}

#[test]
fn default_kind_is_text() {
    assert_eq!(ComponentKind::default(), ComponentKind::Text);
}

#[test]
fn component_kind_lookup_defaults_to_text() {
    let meta = ComponentMetaMap::new();
    assert_eq!(component_kind(&meta, "unknown"), ComponentKind::Text);
}

#[test]
fn component_kind_lookup_returns_configured() {
    let mut meta = ComponentMetaMap::new();
    meta.insert("model".into(), ComponentMeta::code("Model architecture", "python"));
    meta.insert("config".into(), ComponentMeta::config("Training hyperparameters"));
    assert_eq!(component_kind(&meta, "model"), ComponentKind::Code);
    assert_eq!(component_kind(&meta, "config"), ComponentKind::Config);
    assert_eq!(component_kind(&meta, "instructions"), ComponentKind::Text);
}

#[test]
fn config_constraints() {
    let meta = ComponentMeta::config("Hyperparams").with_constraints(text_map(&[
        ("DEPTH", "integer, 1-32"),
        ("LR", "float, 1e-5 to 1.0"),
    ]));
    assert_eq!(meta.kind, ComponentKind::Config);
    assert!(meta.constraints.is_some());
    assert_eq!(meta.constraints.as_ref().unwrap().len(), 2);
}

#[test]
fn vec_loader_all_ids_and_fetch() {
    let loader = VecLoader::new(vec!["alpha", "beta", "gamma"]);
    assert_eq!(loader.all_ids(), vec![0, 1, 2]);
    assert_eq!(loader.fetch(&[0, 2]).unwrap(), vec!["alpha", "gamma"]);
    assert_eq!(loader.len(), 3);
    assert!(!loader.is_empty());
}

#[test]
fn vec_loader_out_of_range_returns_error() {
    let loader = VecLoader::new(vec![10_i32, 20, 30]);
    let result = loader.fetch(&[5]);
    assert!(result.is_err(), "expected an error for index 5");
}

#[test]
fn mutable_loader_add_items() {
    let mut loader = VecLoader::new(vec!["a", "b"]);
    loader.add_items(vec!["c", "d"]);
    assert_eq!(loader.len(), 4);
    assert_eq!(loader.all_ids(), vec![0, 1, 2, 3]);
    assert_eq!(loader.fetch(&[2, 3]).unwrap(), vec!["c", "d"]);
}

#[test]
fn ensure_loader_wraps_vec() {
    let loader = ensure_loader(vec![1_u32, 2, 3]);
    assert_eq!(loader.len(), 3);
    assert_eq!(loader.fetch(&[1]).unwrap(), vec![2_u32]);
}

#[test]
fn vec_loader_preserves_order() {
    let loader = VecLoader::new(vec![10_i32, 20, 30, 40, 50]);
    let result = loader.fetch(&[4, 2, 0]).unwrap();
    assert_eq!(result, vec![50, 30, 10]);
}

#[test]
fn ids_are_written_as_json() {
    assert_eq!(7usize.json_text(), "7");
    assert_eq!("a\"b\n".to_string().json_text(), "\"a\\\"b\\n\"");
    assert_eq!(
        "\u{1}\u{1f}\u{8}\u{c}\r\t\\/é\u{7f}".to_string().json_text(),
        "\"\\u0001\\u001f\\b\\f\\r\\t\\\\/é\u{7f}\""
    );
}

#[test]
fn ids_are_written_for_debugging() {
    assert_eq!(7usize.debug_text(), "7");
    assert_eq!("a\"b\n\u{7f}".to_string().debug_text(), "\"a\\\"b\\n\\u{7f}\"");
}

#[test]
fn evaluation_batch_builder_methods() {
    let batch: EvaluationBatch<String, i32> = EvaluationBatch::new(vec![1, 2], vec![s(0.5), s(0.8)])
        .with_trajectories(vec!["t1".into(), "t2".into()])
        .with_objective_scores(vec![
            objectives(&[("accuracy", 0.9)]),
            objectives(&[("accuracy", 0.7)]),
        ]);
    assert_eq!(batch.scores.len(), 2);
    assert!(batch.trajectories.is_some());
    assert!(batch.objective_scores.is_some());
    assert!(batch.validate_lengths(2, true).is_ok());
}

#[test]
fn evaluation_batch_with_json_values() {
    let scores: Vec<Score> = vec![s(0.8), s(0.9)];
    let object = |answer: &str| {
        let mut fields = serde_json::Map::new();
        fields.insert("answer".to_string(), Value::from(answer));
        Value::Object(fields)
    };
    let outputs: Vec<Value> = vec![object("yes"), object("no")];
    let batch: EvaluationBatch<(), Value> = EvaluationBatch::new(outputs, scores);
    assert_eq!(f(batch.scores[0]), 0.8);
}

#[test]
fn misaligned_batches_are_refused() {
    let batch: EvaluationBatch<(), i32> = EvaluationBatch::new(vec![1, 2], vec![s(0.5)]);
    assert!(batch.validate_lengths(2, false).is_err());
    assert!(batch.validate_lengths(1, false).is_err());
    let batch: EvaluationBatch<(), i32> = EvaluationBatch::new(vec![1], vec![s(0.5)]);
    assert!(batch.validate_lengths(1, false).is_ok());
    assert!(batch.validate_lengths(1, true).is_err());
    let batch = batch.with_trajectories(vec![(), ()]);
    assert!(batch.validate_lengths(1, false).is_err());
    let batch: EvaluationBatch<(), i32> = EvaluationBatch::new(vec![1], vec![s(f64::NAN)]);
    assert!(matches!(batch.validate_lengths(1, false), Err(GEPAError::Evaluation(_))));
    let batch: EvaluationBatch<(), i32> = EvaluationBatch::new(vec![1], vec![s(0.5)])
        .with_objective_scores(vec![objectives(&[("cost", f64::INFINITY)])]);
    assert!(batch.validate_lengths(1, false).is_err());
}

#[test]
fn display_messages_are_readable() {
    let err = GEPAError::AdapterEvaluation("timeout".into());
    assert_eq!(err.to_string(), "Adapter evaluation failed: timeout");
    let err = GEPAError::NoCandidates;
    assert_eq!(err.to_string(), "No candidates available");
    let err = GEPAError::Config("missing api_key".into());
    assert_eq!(err.to_string(), "Configuration error: missing api_key");
}

#[test]
fn every_error_has_its_message() {
    let t = || "x".to_string();
    let http =
        HttpFailure { message: t(), connect: false, timeout: false, status: None };
    let cases = [
        (GEPAError::AdapterReflectiveDataset(t()), "Adapter reflective dataset build failed: x"),
        (GEPAError::AdapterError(t()), "Adapter error: x"),
        (GEPAError::Evaluation(t()), "Evaluation error: x"),
        (GEPAError::ProposalFailed(t()), "Proposal failed: x"),
        (GEPAError::Proposal(t()), "Proposal error: x"),
        (GEPAError::LMError(t()), "LM call failed: x"),
        (GEPAError::LmApi(t()), "LM API error: x"),
        (GEPAError::RetriesExhausted(t()), "LM retries exhausted: x"),
        (GEPAError::EmptyFrontier, "Empty Pareto frontier"),
        (GEPAError::EmptyDataset(t()), "Empty dataset: x"),
        (GEPAError::Http(http), "HTTP error: x"),
    ];
    for (error, message) in &cases {
        assert_eq!(&error.to_string(), message);
    }
}

#[test]
fn from_io_error_conversion() {
    let io_err = std::io::Error::new(std::io::ErrorKind::NotFound, "file not found");
    let gepa_err = GEPAError::from(io_err);
    assert!(gepa_err.to_string().contains("IO error"));
    assert_eq!(gepa_err.to_string(), "IO error: file not found");
}

#[test]
fn from_serde_error_conversion() {
    let serde_err: serde_json::Error =
        serde_json::from_str::<serde_json::Value>("{invalid}").unwrap_err();
    let gepa_err = GEPAError::from(serde_err);
    assert!(gepa_err.to_string().contains("Serialization error"));
    assert!(gepa_err.to_string().contains("line 1"));
}

struct RecordingTracker {
    calls: Mutex<Vec<(String, f64, usize)>>,
}

impl RecordingTracker {
    fn new() -> Self {
        Self { calls: Mutex::new(Vec::new()) }
    }

    fn recorded(&self) -> Vec<(String, f64, usize)> {
        self.calls.lock().unwrap().clone()
    }
}

impl ExperimentTracker for RecordingTracker {
    fn log_metric(&self, key: &str, value: Score, step: usize) {
        self.calls.lock().unwrap().push((key.to_owned(), f(value), step));
    }
}

#[test]
fn noop_tracker_compiles_and_is_silent() {
    let t = NoopTracker;
    t.log_metric("loss", s(0.5), 0);
    t.log_text("prompt", "hello");
    t.finish();
}

#[test]
fn recording_tracker_captures_metrics() {
    let t = RecordingTracker::new();
    t.log_metric("accuracy", s(0.8), 1);
    t.log_metric("loss", s(0.2), 2);
    let calls = t.recorded();
    assert_eq!(calls.len(), 2);
    assert_eq!(calls[0], ("accuracy".to_owned(), 0.8, 1));
    assert_eq!(calls[1], ("loss".to_owned(), 0.2, 2));
}

#[test]
fn experiment_tracker_is_object_safe() {
    let t: Box<dyn ExperimentTracker> = Box::new(NoopTracker);
    t.log_metric("x", s(1.0), 0);
    t.finish();
}

#[test]
fn default_log_text_and_finish_are_no_ops() {
    let t = RecordingTracker::new();
    t.log_text("key", "val");
    t.finish();
    assert!(t.recorded().is_empty());
}

#[test]
fn budget_event_fields_are_preserved() {
    let seen: Arc<Mutex<Vec<BudgetUpdatedEvent>>> = Arc::new(Mutex::new(Vec::new()));
    let event = BudgetUpdatedEvent {
        iteration: 3,
        metric_calls_used: 50,
        metric_calls_delta: 5,
        metric_calls_remaining: Some(150),
    };
    let copy = event;
    seen.lock().unwrap().push(copy);
    let events = seen.lock().unwrap();
    assert_eq!(events.len(), 1);
    assert_eq!(events[0].metric_calls_used, 50);
    assert_eq!(events[0].metric_calls_remaining, Some(150));
}

#[test]
fn parse_key_value_colon() {
    let stdout = "\
val_bpb:          0.997900
training_seconds: 300.1
total_seconds:    325.9
peak_vram_mb:     45060.2
mfu_percent:      39.80
total_tokens_M:   499.6
num_steps:        953
num_params_M:     50.3
depth:            8";
    let metrics = parse_key_value_metrics(stdout, &Floats);
    assert!((metric(&metrics, "val_bpb").unwrap() - 0.9979).abs() < 1e-4);
    assert!((metric(&metrics, "training_seconds").unwrap() - 300.1).abs() < 0.1);
    assert!((metric(&metrics, "mfu_percent").unwrap() - 39.80).abs() < 0.1);
    assert_eq!(metric(&metrics, "num_steps").unwrap(), 953.0);
    assert_eq!(metric(&metrics, "depth").unwrap(), 8.0);
}

#[test]
fn parse_key_value_equals() {
    let stdout = "accuracy=0.95\nloss=0.123";
    let metrics = parse_key_value_metrics(stdout, &Floats);
    assert!((metric(&metrics, "accuracy").unwrap() - 0.95).abs() < 1e-6);
    assert!((metric(&metrics, "loss").unwrap() - 0.123).abs() < 1e-6);
}

#[test]
fn parse_ignores_non_metric_lines() {
    let stdout = "\
step 00042 (15.3%) | loss: 3.14159 | remaining: 250s
---
val_bpb:          0.997900
some random text without numbers";
    let metrics = parse_key_value_metrics(stdout, &Floats);
    assert!(metrics.contains_key(&"val_bpb".to_string()));
    assert_eq!(metric(&metrics, "loss"), Some(3.14159));
    assert!(!metrics.contains_key(&"remaining".to_string()));
}

#[test]
fn parse_key_value_with_units_and_scientific_notation() {
    let stdout = "mfu=39.8%\nlr: 1e-4,\nloss: -2.5e-1;";
    let metrics = parse_key_value_metrics(stdout, &Floats);
    assert_eq!(metric(&metrics, "mfu"), Some(39.8));
    assert_eq!(metric(&metrics, "lr"), Some(1e-4));
    assert_eq!(metric(&metrics, "loss"), Some(-0.25));
}

#[test]
fn later_metrics_replace_earlier_ones() {
    let tokens = metric_tokens("loss: 1\nloss: 2 | : 3 | b=x");
    let pairs: Vec<(&str, &str)> =
        tokens.iter().map(|(k, v)| (k.as_str(), v.as_str())).collect();
    assert!(pairs.starts_with(&[("loss", "1"), ("loss", "2")]));
    let metrics = parse_key_value_metrics("loss: 1\nloss: 2 | b=x", &Floats);
    assert_eq!(metric(&metrics, "loss"), Some(2.0));
    assert_eq!(metrics.len(), 1);
}

#[test]
fn score_direction_negation() {
    let raw = 0.9979;
    let adjusted = f(ScoreDirection::Lower.adjust(&s(raw)));
    assert!(adjusted < 0.0);
    assert_eq!(adjusted, -0.9979);
    assert_eq!(f(ScoreDirection::Higher.adjust(&s(raw))), 0.9979);
}

fn scoring(direction: ScoreDirection, keys: &[&str]) -> ProcessScoring {
    ProcessScoring {
        score_key: "score".to_string(),
        score_direction: direction,
        objective_keys: keys.iter().map(|k| k.to_string()).collect(),
    }
}

#[test]
fn process_scores_come_from_the_metrics() {
    let metrics = parse_key_value_metrics("score: 0.75\naccuracy=0.80\n", &Floats);
    let (score, rows) = scoring(ScoreDirection::Higher, &["accuracy"]).score(&metrics, 0).unwrap();
    assert_eq!(f(score), 0.75);
    assert_eq!(metric(&rows.unwrap(), "accuracy"), Some(0.80));
    let (score, rows) = scoring(ScoreDirection::Lower, &[]).score(&metrics, 0).unwrap();
    assert_eq!(f(score), -0.75);
    assert!(rows.is_none());
    let (score, _) = scoring(ScoreDirection::Higher, &[]).score(&metrics, 1).unwrap();
    assert_eq!(f(score), f64::MIN);
}

#[test]
fn missing_metrics_are_named() {
    let metrics = parse_key_value_metrics("loss: 1\n", &Floats);
    let err = scoring(ScoreDirection::Higher, &[]).score(&metrics, 0).err().unwrap();
    assert!(matches!(err, GEPAError::AdapterError(_)));
    assert_eq!(
        err.to_string(),
        "Adapter error: score key 'score' was not found in process metrics; \
         available keys: [\"loss\"]"
    );
}

#[test]
fn a_process_takes_one_unit() {
    assert!(check_unit_batch(1).is_ok());
    let err = check_unit_batch(2).err().unwrap();
    assert!(err.to_string().contains("expects exactly one"));
}

#[test]
fn names_that_a_process_sees() {
    assert_eq!(component_variable("learning-rate"), "GEPA_LEARNING_RATE");
    assert_eq!(replace_hyphens("a-b"), "a_b");
    assert_eq!(config_file_name(None, None, 12, 3), "gepa-config-12-3.json");
    assert_eq!(config_file_name(Some("run"), Some("json"), 12, 3), "run.gepa-12-3.json");
    assert!(matches!(PassMode::default(), PassMode::EnvVars));
}

#[test]
fn a_failed_process_is_told_of() {
    let trace = ProcessTrace {
        stdout: "step 1\nval_bpb: 0.9\n".to_string(),
        stderr: "y".repeat(600),
        exit_code: -3,
        metrics: KeyMap::new(),
    };
    let record = reflective_record(
        "v",
        Json::Object(vec![]),
        Json::Scalar("0.9".to_string()),
        Some(&trace),
    );
    let names: Vec<&str> = record.iter().map(|(k, _)| k.as_str()).collect();
    assert_eq!(names, vec!["Current Value", "Metrics", "Score", "Feedback", "Error"]);
    let error = match &record[4].1 {
        Json::Text(t) => t.clone(),
        _ => unreachable!(),
    };
    assert_eq!(error, exit_text(-3, &trace.stderr));
    assert_eq!(error.len(), "Process exited with code -3. stderr: ".len() + 500);
    assert!(feedback_lines(&trace.stdout).contains("val_bpb: 0.9"));
}

#[test]
fn maps_keep_the_order_of_insertion() {
    let mut m = text_map(&[("b", "1"), ("a", "2")]);
    m.insert("b".to_string(), "3".to_string());
    assert_eq!(m.key_at(0), "b");
    assert_eq!(m.value_at(0), "3");
    assert_eq!(m.len(), 2);
    assert!(m.get(&"z".to_string()).is_none());
    let empty = Candidate::new();
    assert!(empty.is_empty());
}
