#![allow(dead_code)]
use gepa::error::HttpFailure;
use gepa::lm::{
    accumulate_lines, accumulate_stream, after_failure, completions_url, first_content,
    is_retryable, read_chunk, status_error, truncate_error_body, RetryDecision,
};
use gepa::strategies::instruction_proposal::{
    extract_output, render_prompt, render_prompt_with_template, validate_prompt_template,
    META_PROMPT_TEMPLATE,
};
use gepa::strategies::markdown::{format_samples_as_markdown, Json};
use gepa::{Candidate, GEPAError, LMConfig, PromptTemplateConfig};

fn text(t: &str) -> Json {
    Json::Text(t.to_string())
}

fn object(fields: Vec<(&str, Json)>) -> Json {
    Json::Object(fields.into_iter().map(|(k, v)| (k.to_string(), v)).collect())
}

#[test]
fn render_prompt_substitutes_placeholders() {
    let prompt = render_prompt("Do the task.", "Example 1:\nInput: hi");
    assert!(prompt.contains("Do the task."));
    assert!(prompt.contains("Example 1:\nInput: hi"));
    assert!(!prompt.contains("<curr_param>"));
    assert!(!prompt.contains("<side_info>"));
}

#[test]
fn every_placeholder_is_replaced() {
    let prompt = render_prompt_with_template(
        "<curr_param>|<side_info>|<curr_param>",
        "now <side_info>",
        "seen",
    )
    .unwrap();
    assert_eq!(prompt, "now seen|seen|now seen");
}

#[test]
fn a_template_without_placeholders_is_refused() {
    assert!(render_prompt_with_template("nothing", "a", "b").is_err());
}

#[test]
fn templates_are_looked_up_by_component() {
    let one = PromptTemplateConfig::Single("t".to_string());
    assert_eq!(one.get_for_component("any"), Some("t".to_string()));
    let mut by_name = Candidate::new();
    by_name.insert("a".to_string(), "u".to_string());
    let several = PromptTemplateConfig::PerComponent(by_name);
    assert_eq!(several.get_for_component("a"), Some("u".to_string()));
    assert_eq!(several.get_for_component("b"), None);
}

#[test]
fn validate_prompt_template_accepts_valid() {
    assert!(validate_prompt_template("Instruction: <curr_param>\nData: <side_info>").is_ok());
}

#[test]
fn validate_prompt_template_rejects_missing_placeholders() {
    let err = validate_prompt_template("Missing both").unwrap_err();
    assert!(err.contains("<curr_param>"));
    assert!(err.contains("<side_info>"));
}

#[test]
fn validate_prompt_template_rejects_one_missing() {
    let err = validate_prompt_template("Has <curr_param> but not the other").unwrap_err();
    assert!(err.contains("<side_info>"));
    assert!(!err.contains("<curr_param>"));
}

#[test]
fn extract_output_normal_fenced_block() {
    let response = "Here is the instruction:\n```\nDo the task carefully.\n```\nDone.";
    let extracted = extract_output(response).expect("should extract");
    assert_eq!(extracted, "Do the task carefully.");
}

#[test]
fn extract_output_fenced_block_with_lang_spec() {
    let response = "```python\nprint('hello')\n```";
    let extracted = extract_output(response).expect("should extract");
    assert_eq!(extracted, "print('hello')");
}

#[test]
fn extract_output_no_fences_returns_stripped() {
    let response = "  Just plain text.  ";
    let extracted = extract_output(response).expect("should extract");
    assert_eq!(extracted, "Just plain text.");
}

#[test]
fn extract_output_empty_returns_none() {
    assert!(extract_output("").is_none());
    assert!(extract_output("   ").is_none());
}

#[test]
fn extract_output_only_opening_fence() {
    let response = "```\nInstruction text here.";
    let extracted = extract_output(response).expect("should extract");
    assert_eq!(extracted, "Instruction text here.");
}

#[test]
fn extract_output_only_closing_fence() {
    let response = "Instruction text here.\n```";
    let extracted = extract_output(response).expect("should extract");
    assert_eq!(extracted, "Instruction text here.");
}

#[test]
fn extract_output_keeps_inner_blocks_and_single_lines() {
    assert_eq!(extract_output("```hello```").unwrap(), "hello");
    assert_eq!(extract_output("```\na\n```b```\nc\n```").unwrap(), "a\n```b```\nc");
    assert_eq!(extract_output("``````").unwrap(), "");
    assert_eq!(extract_output("````").unwrap(), "`");
}

#[test]
fn format_samples_as_markdown_produces_numbered_sections() {
    let samples = vec![
        object(vec![
            ("Inputs", text("What is 2+2?")),
            ("Generated Outputs", text("5")),
            ("Feedback", text("Incorrect. The answer is 4.")),
        ]),
        object(vec![
            ("Inputs", text("What is the capital of France?")),
            ("Generated Outputs", text("London")),
            ("Feedback", text("Wrong. Paris is the capital of France.")),
        ]),
    ];
    let md = format_samples_as_markdown(&samples);
    assert!(md.contains("# Example 1"));
    assert!(md.contains("# Example 2"));
    assert!(md.contains("## Inputs"));
    assert!(md.contains("## Feedback"));
}

#[test]
fn nested_samples_have_deeper_headings() {
    let sample = object(vec![
        ("a", Json::Array(vec![text(" x "), Json::Scalar("7".to_string())])),
        ("b", object(vec![("c", text("y"))])),
    ]);
    let md = format_samples_as_markdown(&[sample]);
    assert_eq!(
        md,
        "# Example 1\n## a\n### Item 1\n x \n\n### Item 2\n7\n\n## b\n### c\ny\n\n"
    );
}

#[test]
fn meta_prompt_template_contains_placeholders() {
    assert!(META_PROMPT_TEMPLATE.contains("<curr_param>"));
    assert!(META_PROMPT_TEMPLATE.contains("<side_info>"));
    assert!(validate_prompt_template(META_PROMPT_TEMPLATE).is_ok());
}

#[test]
fn openai_lm_builds_correct_url() {
    assert_eq!(
        completions_url("https://api.openai.com"),
        "https://api.openai.com/v1/chat/completions"
    );
}

#[test]
fn openai_lm_trailing_slash_stripped() {
    assert_eq!(
        completions_url("http://localhost:1234/"),
        "http://localhost:1234/v1/chat/completions"
    );
}

#[test]
fn test_completions_url_construction() {
    let cases = [
        ("https://api.openai.com", "https://api.openai.com/v1/chat/completions"),
        ("https://api.openai.com/", "https://api.openai.com/v1/chat/completions"),
        ("http://localhost:1234", "http://localhost:1234/v1/chat/completions"),
        ("http://localhost:1234/", "http://localhost:1234/v1/chat/completions"),
        ("http://host:8080//", "http://host:8080/v1/chat/completions"),
    ];
    for (base_url, expected) in &cases {
        assert_eq!(
            completions_url(base_url),
            *expected,
            "base_url='{base_url}' should produce correct URL"
        );
    }
}

#[test]
fn test_error_body_truncation() {
    let long_body = "x".repeat(600);
    let truncated = truncate_error_body(&long_body);
    assert_eq!(
        truncated.chars().take(256).collect::<String>(),
        long_body.chars().take(256).collect::<String>()
    );
    assert!(
        truncated.ends_with("...[truncated]"),
        "truncated body must end with '...[truncated]'"
    );
    assert_eq!(truncated.len(), 256 + "...[truncated]".len());
    let short_body = "y".repeat(100);
    let not_truncated = truncate_error_body(&short_body);
    assert_eq!(not_truncated, short_body, "short body should be passed through unchanged");
    assert!(!not_truncated.ends_with("...[truncated]"));
}

#[test]
fn test_error_body_truncation_handles_multibyte_text() {
    let body = "é".repeat(300);
    let truncated = truncate_error_body(&body);
    assert!(truncated.ends_with("...[truncated]"));
    assert_eq!(truncated.chars().take(256).count(), 256);
}

#[test]
fn streamed_chunks_are_joined() {
    let body = "data: {\"choices\":[{\"delta\":{\"content\":\"hel\"}}]}\n\n\
                data: {\"choices\":[{\"delta\":{\"content\":\"lo\"}}]}\n\n\
                data: [DONE]\n\n";
    assert_eq!(accumulate_stream(body).unwrap(), "hello");
    let lines: Vec<String> = body.lines().map(String::from).collect();
    assert_eq!(accumulate_lines(&lines).unwrap(), "hello");
}

#[test]
fn what_follows_the_end_mark_is_not_read() {
    let body = "data: [DONE]\ndata: {\"choices\":[{\"delta\":{\"content\":\"x\"}}]}\n";
    assert!(accumulate_stream(body).is_err());
    let noise = ": ping\ndata: not json\n\
                 data: {\"choices\":[{\"delta\":{\"content\":\"x\"}}]}\n";
    assert_eq!(accumulate_stream(noise).unwrap(), "x");
}

#[test]
fn the_first_choice_is_the_answer() {
    assert_eq!(first_content(vec![Some("world".to_string()), None]).unwrap(), "world");
    assert!(first_content(vec![]).is_err());
    assert!(first_content(vec![None]).is_err());
}

#[test]
fn transient_failures_are_tried_again() {
    let e500 = status_error(false, "500 Internal Server Error", "try again");
    let e599 = status_error(true, "599", "try again");
    let e400 = status_error(false, "400 Bad Request", "no");
    assert!(is_retryable(&e500) && is_retryable(&e599) && !is_retryable(&e400));
    let http = |connect, timeout, status| {
        GEPAError::Http(HttpFailure { message: "m".to_string(), connect, timeout, status })
    };
    assert!(is_retryable(&http(true, false, None)));
    assert!(is_retryable(&http(false, true, None)));
    assert!(is_retryable(&http(false, false, Some(503))));
    assert!(!is_retryable(&http(false, false, Some(404))));
    assert!(matches!(after_failure(&e500, 0, 1), RetryDecision::Wait(1)));
    assert!(!matches!(after_failure(&e500, 1, 1), RetryDecision::Wait(_)));
    assert!(!matches!(after_failure(&e400, 0, 1), RetryDecision::Wait(_)));
}

#[test]
fn a_chunk_adds_the_content_of_its_first_choice() {
    let chunk = r#"{"choices":[{"delta":{"content":"a","role":"x"}},{"delta":{"content":"b"}}]}"#;
    assert_eq!(read_chunk(chunk), Some("a".to_string()));
    assert_eq!(read_chunk(r#"{"choices":[{"message":{"content":"a"}}]}"#), None);
    assert_eq!(read_chunk(r#"{"choices":[{"delta":{"content":null}}]}"#), None);
    assert_eq!(read_chunk(r#"{"choices":[]}"#), None);
    assert_eq!(read_chunk("no json"), None);
}

#[test]
fn the_built_in_prompt_is_that_of_the_built_in_template() {
    assert!(validate_prompt_template(META_PROMPT_TEMPLATE).is_ok());
    let prompt = render_prompt("Do it.", "Seen.");
    assert_eq!(render_prompt_with_template(META_PROMPT_TEMPLATE, "Do it.", "Seen."), Ok(prompt));
    assert!(render_prompt("<curr_param>", "d").contains("<curr_param>"));
    assert!(!render_prompt("see <side_info>", "d").contains("see <side_info>"));
}

#[test]
fn settings_can_be_cloned() {
    let config = LMConfig { api_key: "k".to_string(), ..LMConfig::default() };
    let copy = config.clone();
    assert_eq!((copy.model, copy.api_key), (config.model, config.api_key));
    let mut by_name = Candidate::new();
    by_name.insert("a".to_string(), "u".to_string());
    let several = PromptTemplateConfig::PerComponent(by_name).clone();
    assert_eq!(several.get_for_component("a"), Some("u".to_string()));
    let one = PromptTemplateConfig::Single("t".to_string()).clone();
    assert_eq!(one.get_for_component("any"), Some("t".to_string()));
}
