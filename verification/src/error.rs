//! The error type of the optimizer.
use vstd::prelude::*;
use vstd::std_specs::convert::FromSpecImpl;

verus! {

/// `std::io::Error`, of which nothing is known but what it says of itself.
#[verifier::external_type_specification]
#[verifier::external_body]
pub struct ExIoError(std::io::Error);

/// `serde_json::Error`, of which nothing is known but what it says of itself.
#[verifier::external_type_specification]
#[verifier::external_body]
pub struct ExJsonError(serde_json::Error);

/// What is known of a request that got no usable response.
#[derive(Debug)]
pub struct HttpFailure {
    /// What the HTTP client says of the failure.
    pub message: String,
    /// The connection could not be made.
    pub connect: bool,
    /// The request took too long.
    pub timeout: bool,
    /// The status of the response, where there was one.
    pub status: Option<u16>,
}

/// Top-level error type of the optimizer.
///
/// Every part converts its local errors into one of these variants, so callers
/// match on one type and still find the root cause in it.
#[derive(Debug)]
pub enum GEPAError {
    /// The adapter returned an error during program evaluation.
    AdapterEvaluation(String),
    /// The adapter failed while building the reflective dataset.
    AdapterReflectiveDataset(String),
    /// The adapter could not do its work at all.
    AdapterError(String),
    /// A candidate evaluation step failed.
    Evaluation(String),
    /// The proposer could not generate a new candidate.
    ProposalFailed(String),
    /// The proposer could not produce improved candidate text.
    Proposal(String),
    /// A language-model call failed.
    LMError(String),
    /// A language-model API call returned an error response.
    LmApi(String),
    /// All attempts of a language-model API call have been used up.
    RetriesExhausted(String),
    /// The optimizer has no candidates to work with.
    NoCandidates,
    /// The Pareto frontier mapping is empty and cannot be sampled from.
    EmptyFrontier,
    /// The training or validation dataset is empty.
    EmptyDataset(String),
    /// A configuration value is invalid or missing.
    Config(String),
    /// An I/O error.
    Io(std::io::Error),
    /// A JSON error.
    Serde(serde_json::Error),
    /// An HTTP client error.
    Http(HttpFailure),
}

/// What the library's fallible functions return.
pub type Result<T, E = GEPAError> = std::result::Result<T, E>;

impl GEPAError {
    /// Whether `text` is the message of this error. Of an I/O or a JSON error
    /// only the start of the message is fixed here; the rest is what the
    /// wrapped error says of itself.
    pub open spec fn reads(&self, text: Seq<char>) -> bool {
        match *self {
            GEPAError::AdapterEvaluation(s) => text == "Adapter evaluation failed: "@ + s@,
            GEPAError::AdapterReflectiveDataset(s) => text
                == "Adapter reflective dataset build failed: "@ + s@,
            GEPAError::AdapterError(s) => text == "Adapter error: "@ + s@,
            GEPAError::Evaluation(s) => text == "Evaluation error: "@ + s@,
            GEPAError::ProposalFailed(s) => text == "Proposal failed: "@ + s@,
            GEPAError::Proposal(s) => text == "Proposal error: "@ + s@,
            GEPAError::LMError(s) => text == "LM call failed: "@ + s@,
            GEPAError::LmApi(s) => text == "LM API error: "@ + s@,
            GEPAError::RetriesExhausted(s) => text == "LM retries exhausted: "@ + s@,
            GEPAError::NoCandidates => text == "No candidates available"@,
            GEPAError::EmptyFrontier => text == "Empty Pareto frontier"@,
            GEPAError::EmptyDataset(s) => text == "Empty dataset: "@ + s@,
            GEPAError::Config(s) => text == "Configuration error: "@ + s@,
            GEPAError::Io(_) => "IO error: "@.is_prefix_of(text),
            GEPAError::Serde(_) => "Serialization error: "@.is_prefix_of(text),
            GEPAError::Http(failure) => text == "HTTP error: "@ + failure.message@,
        }
    }

    /// The message of this error.
    pub fn to_string(&self) -> (text: String)
        ensures
            self.reads(text@),
    {
        match self {
            GEPAError::AdapterEvaluation(s) => labelled("Adapter evaluation failed: ", s.as_str()),
            GEPAError::AdapterReflectiveDataset(s) => labelled(
                "Adapter reflective dataset build failed: ",
                s.as_str(),
            ),
            GEPAError::AdapterError(s) => labelled("Adapter error: ", s.as_str()),
            GEPAError::Evaluation(s) => labelled("Evaluation error: ", s.as_str()),
            GEPAError::ProposalFailed(s) => labelled("Proposal failed: ", s.as_str()),
            GEPAError::Proposal(s) => labelled("Proposal error: ", s.as_str()),
            GEPAError::LMError(s) => labelled("LM call failed: ", s.as_str()),
            GEPAError::LmApi(s) => labelled("LM API error: ", s.as_str()),
            GEPAError::RetriesExhausted(s) => labelled("LM retries exhausted: ", s.as_str()),
            GEPAError::NoCandidates => "No candidates available".to_owned(),
            GEPAError::EmptyFrontier => "Empty Pareto frontier".to_owned(),
            GEPAError::EmptyDataset(s) => labelled("Empty dataset: ", s.as_str()),
            GEPAError::Config(s) => labelled("Configuration error: ", s.as_str()),
            GEPAError::Io(e) => {
                let detail = io_error_text(e);
                labelled("IO error: ", detail.as_str())
            },
            GEPAError::Serde(e) => {
                let detail = json_error_text(e);
                labelled("Serialization error: ", detail.as_str())
            },
            GEPAError::Http(failure) => labelled("HTTP error: ", failure.message.as_str()),
        }
    }
}

fn labelled(label: &str, detail: &str) -> (text: String)
    ensures
        text@ == label@ + detail@,
        label@.is_prefix_of(text@),
{
    let mut text = label.to_owned();
    text.append(detail);
    assert((label@ + detail@).take(label@.len() as int) =~= label@);
    text
}

/// `to_string` of a `std::io::Error`. Nothing is claimed of the text.
#[verifier::external_body]
fn io_error_text(e: &std::io::Error) -> String {
    e.to_string()
}

/// `to_string` of a `serde_json::Error`. Nothing is claimed of the text.
#[verifier::external_body]
fn json_error_text(e: &serde_json::Error) -> String {
    e.to_string()
}

impl From<std::io::Error> for GEPAError {
    fn from(e: std::io::Error) -> (r: GEPAError) {
        GEPAError::Io(e)
    }
}

impl FromSpecImpl<std::io::Error> for GEPAError {
    open spec fn obeys_from_spec() -> bool {
        true
    }

    open spec fn from_spec(e: std::io::Error) -> GEPAError {
        GEPAError::Io(e)
    }
}

impl From<serde_json::Error> for GEPAError {
    fn from(e: serde_json::Error) -> (r: GEPAError) {
        GEPAError::Serde(e)
    }
}

impl FromSpecImpl<serde_json::Error> for GEPAError {
    open spec fn obeys_from_spec() -> bool {
        true
    }

    open spec fn from_spec(e: serde_json::Error) -> GEPAError {
        GEPAError::Serde(e)
    }
}

} // verus!
