//! The four model servers, what they report, and what may be done to them.
use vstd::prelude::*;

use crate::text::{cat2, cat3, decimal, number, same};

verus! {

#[derive(Debug, Clone, Copy, PartialEq, Eq, Hash, Structural)]
pub enum ProviderKind {
    LmStudio,
    LlamaCpp,
    Vllm,
    Ollama,
}

/// The name a provider goes by, in configuration and in every message.
pub open spec fn kind_text(k: ProviderKind) -> Seq<char> {
    match k {
        ProviderKind::LmStudio => "lmstudio"@,
        ProviderKind::LlamaCpp => "llamacpp"@,
        ProviderKind::Vllm => "vllm"@,
        ProviderKind::Ollama => "ollama"@,
    }
}

/// The provider a name stands for.
pub open spec fn kind_named(s: Seq<char>) -> Option<ProviderKind> {
    if s == "lmstudio"@ {
        Some(ProviderKind::LmStudio)
    } else if s == "ollama"@ {
        Some(ProviderKind::Ollama)
    } else if s == "llamacpp"@ {
        Some(ProviderKind::LlamaCpp)
    } else if s == "vllm"@ {
        Some(ProviderKind::Vllm)
    } else {
        None
    }
}

/// A provider's name reads back as that provider, and no two share a name.
pub proof fn kind_round_trips(k: ProviderKind)
    ensures
        kind_named(kind_text(k)) == Some(k),
        forall|j: ProviderKind| #[trigger] kind_text(j) == kind_text(k) ==> j == k,
{
    reveal_strlit("lmstudio");
    reveal_strlit("llamacpp");
    reveal_strlit("vllm");
    reveal_strlit("ollama");
    assert("lmstudio"@[0] == 'l' && "lmstudio"@[1] == 'm');
    assert("llamacpp"@[1] == 'l');
    assert("vllm"@[0] == 'v');
    assert("ollama"@[0] == 'o');
}

impl ProviderKind {
    /// Fixed reporting order. Also the order rows appear in `status`.
    pub const ALL: [ProviderKind; 4] = [
        ProviderKind::LmStudio,
        ProviderKind::Ollama,
        ProviderKind::LlamaCpp,
        ProviderKind::Vllm,
    ];

    pub fn as_str(&self) -> (s: &'static str)
        ensures
            s@ == kind_text(*self),
    {
        match self {
            ProviderKind::LmStudio => "lmstudio",
            ProviderKind::LlamaCpp => "llamacpp",
            ProviderKind::Vllm => "vllm",
            ProviderKind::Ollama => "ollama",
        }
    }

    pub open spec fn port(self) -> u16 {
        match self {
            ProviderKind::LmStudio => 1234,
            ProviderKind::LlamaCpp => 8080,
            ProviderKind::Vllm => 8000,
            ProviderKind::Ollama => 11434,
        }
    }

    /// The conventional port of each server.
    pub fn default_port(&self) -> (p: u16)
        ensures
            p == self.port(),
    {
        match self {
            ProviderKind::LmStudio => 1234,
            ProviderKind::LlamaCpp => 8080,
            ProviderKind::Vllm => 8000,
            ProviderKind::Ollama => 11434,
        }
    }

    /// The provider called `s`, or a message that names what was asked for.
    pub fn named(s: &str) -> (r: Result<ProviderKind, String>)
        ensures
            match r {
                Ok(k) => kind_named(s@) == Some(k),
                Err(e) => kind_named(s@) is None && e@ == "unknown provider kind `"@ + s@ + "`"@,
            },
    {
        if same(s, "lmstudio") {
            Ok(ProviderKind::LmStudio)
        } else if same(s, "ollama") {
            Ok(ProviderKind::Ollama)
        } else if same(s, "llamacpp") {
            Ok(ProviderKind::LlamaCpp)
        } else if same(s, "vllm") {
            Ok(ProviderKind::Vllm)
        } else {
            Err(cat3("unknown provider kind `", s, "`"))
        }
    }
}

impl std::str::FromStr for ProviderKind {
    type Err = String;

    fn from_str(s: &str) -> Result<Self, String> {
        ProviderKind::named(s)
    }
}

#[derive(Debug, Clone, Copy, PartialEq, Eq, Structural)]
pub enum State {
    Loaded,
    Loading,
    NotLoaded,
}

/// One model as a provider reports it.
///
/// `context_tokens` is `Option` on purpose: a serving window is only knowable
/// once a model is resident. Capability figures must never land here.
#[derive(Debug, PartialEq, Eq)]
pub struct LoadedModel {
    pub id: String,
    pub state: State,
    pub context_tokens: Option<u32>,
    pub weights_bytes: Option<u64>,
    /// When the provider intends to drop this model, as a unix timestamp.
    ///
    /// Ollama moves it forward on every use, which makes it the only ordering
    /// signal any of the four gives for "least recently used". It is an expiry
    /// and not a last-use time, so it ranks eviction order and nothing more.
    pub expires_at_unix: Option<u64>,
    /// What kind of model this is, as the provider classifies it. Only LM
    /// Studio publishes one (`llm`, `vlm`, `embeddings`).
    pub model_type: Option<String>,
    /// Where the weights live, when the provider says so.
    pub artifact_path: Option<String>,
}

impl Clone for LoadedModel {
    fn clone(&self) -> (r: Self)
        ensures
            r == *self,
    {
        LoadedModel {
            id: self.id.clone(),
            state: self.state,
            context_tokens: self.context_tokens,
            weights_bytes: self.weights_bytes,
            expires_at_unix: self.expires_at_unix,
            model_type: self.model_type.clone(),
            artifact_path: self.artifact_path.clone(),
        }
    }
}

impl LoadedModel {
    /// A model the provider knows but does not hold: nothing about serving is known.
    pub fn unloaded(id: &str) -> (m: Self)
        ensures
            m.id@ == id@,
            m.state == State::NotLoaded,
            m.context_tokens is None,
            m.weights_bytes is None,
            m.expires_at_unix is None,
            m.model_type is None,
            m.artifact_path is None,
    {
        LoadedModel {
            id: id.to_owned(),
            state: State::NotLoaded,
            context_tokens: None,
            weights_bytes: None,
            expires_at_unix: None,
            model_type: None,
            artifact_path: None,
        }
    }
}

#[derive(Debug, PartialEq, Eq)]
pub enum ProbeError {
    /// Nothing is listening. Not an error condition: the provider is simply off.
    NotListening,
    /// Listening, but did not answer in time.
    Timeout,
    /// Answered with an unexpected status.
    Status { code: u16 },
    /// Answered, but not with what this provider is supposed to answer with.
    Malformed { reason: String },
    /// Answered like a different provider than the config declared.
    KindMismatch { expected: ProviderKind },
}

impl Clone for ProbeError {
    fn clone(&self) -> (r: Self)
        ensures
            r == *self,
    {
        match self {
            ProbeError::NotListening => ProbeError::NotListening,
            ProbeError::Timeout => ProbeError::Timeout,
            ProbeError::Status { code } => ProbeError::Status { code: *code },
            ProbeError::Malformed { reason } => ProbeError::Malformed { reason: reason.clone() },
            ProbeError::KindMismatch { expected } => ProbeError::KindMismatch {
                expected: *expected,
            },
        }
    }
}

/// What a failed probe is reported as.
pub open spec fn probe_text(e: ProbeError) -> Seq<char> {
    match e {
        ProbeError::NotListening => "not running"@,
        ProbeError::Timeout => "unreadable: timed out"@,
        ProbeError::Status { code } => "unreadable: HTTP "@ + decimal(code as nat),
        ProbeError::Malformed { reason } => "unreadable: "@ + reason@,
        ProbeError::KindMismatch { expected } => "kind mismatch: expected "@ + kind_text(expected),
    }
}

impl ProbeError {
    pub fn message(&self) -> (s: String)
        ensures
            s@ == probe_text(*self),
    {
        match self {
            ProbeError::NotListening => "not running".to_owned(),
            ProbeError::Timeout => "unreadable: timed out".to_owned(),
            ProbeError::Status { code } => cat2("unreadable: HTTP ", number(*code as u64).as_str()),
            ProbeError::Malformed { reason } => cat2("unreadable: ", reason.as_str()),
            ProbeError::KindMismatch { expected } => cat2(
                "kind mismatch: expected ",
                expected.as_str(),
            ),
        }
    }
}

/// What may actually be done to a provider's resident models.
///
/// A property of a verified control surface, never of config: a provider whose
/// unload path does not exist is `SelfManaged` no matter what any file claims.
#[derive(Debug, Clone, Copy, PartialEq, Eq)]
pub enum Actuation {
    /// Load and unload one model at a time. LM Studio and Ollama.
    ModelLevel,
    /// Loads on first request and evicts at its own ceiling. llama.cpp
    /// (`max_instances`) and vLLM-MLX (`memory_budget_gb`).
    SelfManaged { ceiling: &'static str },
}

impl Actuation {
    /// The question the eviction planner asks.
    pub fn can_unload(&self) -> (r: bool)
        ensures
            r == (*self is ModelLevel),
    {
        match self {
            Actuation::ModelLevel => true,
            Actuation::SelfManaged { .. } => false,
        }
    }
}

/// What to load, and how much window to give it.
#[derive(Debug, PartialEq, Eq)]
pub struct LoadRequest {
    pub model: String,
    /// `None` leaves the provider's own default alone.
    pub context_tokens: Option<u32>,
    /// How long the provider should keep the model once idle, where it takes a term.
    pub ttl_seconds: Option<u64>,
}

impl Clone for LoadRequest {
    fn clone(&self) -> (r: Self)
        ensures
            r == *self,
    {
        LoadRequest {
            model: self.model.clone(),
            context_tokens: self.context_tokens,
            ttl_seconds: self.ttl_seconds,
        }
    }
}

#[derive(Debug)]
pub enum ActuateError {
    /// This provider has no model-level verb. Carries the ceiling that bounds it instead.
    NotSupported { ceiling: &'static str },
    Failed { reason: String },
    Timeout { after_s: u64 },
}

/// What a failed actuation is reported as.
pub open spec fn actuate_error_text(e: ActuateError) -> Seq<char> {
    match e {
        ActuateError::NotSupported { ceiling } =>
            "this provider has no model-level unload; it self-manages under "@ + ceiling@,
        ActuateError::Failed { reason } => reason@,
        ActuateError::Timeout { after_s } => "timed out after "@ + decimal(after_s as nat) + "s"@,
    }
}

impl ActuateError {
    pub fn message(&self) -> (s: String)
        ensures
            s@ == actuate_error_text(*self),
    {
        match self {
            ActuateError::NotSupported { ceiling } => cat2(
                "this provider has no model-level unload; it self-manages under ",
                ceiling,
            ),
            ActuateError::Failed { reason } => reason.clone(),
            ActuateError::Timeout { after_s } => cat3(
                "timed out after ",
                number(*after_s).as_str(),
                "s",
            ),
        }
    }
}

} // verus!
