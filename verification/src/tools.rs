//! Request payloads, tool selectors and the shared error type.
use vstd::prelude::*;

verus! {

/// Arguments of the validation tool: the raw chart XML.
pub struct ValidateStateChart {
    pub state_chart: String,
}

/// Arguments of the verification tool: the raw chart XML and the backend.
pub struct VerifyStateChart {
    pub state_chart: String,
    pub tool: VerificationTool,
}

/// Arguments of the visualisation tool: the raw chart XML.
pub struct VisualiseStateChart {
    pub state_chart: String,
}

/// Arguments of the code-generation tool: the raw chart XML and the target
/// language.
pub struct CodegenStateChart {
    pub state_chart: String,
    pub backend: Backend,
}

/// Verification backend: bounded model checking or k-induction.
#[derive(Debug, Clone, Copy, PartialEq, Eq)]
pub enum VerificationTool {
    Smt,
    KInduction,
}

/// Target language for code generation.
#[derive(Debug, Clone, Copy, PartialEq, Eq)]
pub enum Backend {
    Rust,
    Go,
    Cpp,
    Kotlin,
    C11,
}

/// The command-line flag that selects `backend`.
pub open spec fn backend_flag(backend: Backend) -> Seq<char> {
    match backend {
        Backend::Rust => "rust"@,
        Backend::Go => "go"@,
        Backend::Cpp => "cpp"@,
        Backend::Kotlin => "kotlin"@,
        Backend::C11 => "c11"@,
    }
}

impl Backend {
    /// CLI flag value passed to the code generator's `--language` option.
    pub fn as_flag(self) -> (flag: &'static str)
        ensures
            flag@ == backend_flag(self),
    {
        match self {
            Backend::Rust => "rust",
            Backend::Go => "go",
            Backend::Cpp => "cpp",
            Backend::Kotlin => "kotlin",
            Backend::C11 => "c11",
        }
    }
}

#[verifier::external_type_specification]
#[verifier::external_body]
pub struct ExIoError(std::io::Error);

/// Unified error type for all tools.
#[derive(Debug)]
pub enum ToolError {
    /// The state-chart XML failed to parse.
    Parse(scxml::ScxmlError),
    /// The chart parsed but failed structural validation.
    Validate(scxml::ScxmlError),
    /// File-system or process I/O failure during code generation.
    Io(std::io::Error),
    /// The code generator binary was not found.
    BinaryNotFound,
    /// The code generator exited non-zero; its captured stderr.
    CodegenFailed(String),
    /// Verification ran but failed.
    VerifyFailed,
    /// The chart uses a construct the verifier does not model.
    Unsupported(String),
    /// An invariant expression failed to parse.
    PropertyParse(String),
}

/// Errors caused by the caller's input, as opposed to server-side failures.
pub open spec fn spec_is_invalid_params(e: ToolError) -> bool {
    match e {
        ToolError::Parse(_) => true,
        ToolError::Validate(_) => true,
        _ => false,
    }
}

impl ToolError {
    /// Whether the error is the caller's fault (bad chart input), which the
    /// protocol reports as invalid parameters; every other error is an
    /// internal error.
    pub fn is_invalid_params(&self) -> (r: bool)
        ensures
            r == spec_is_invalid_params(*self),
    {
        match self {
            ToolError::Parse(_) | ToolError::Validate(_) => true,
            _ => false,
        }
    }
}

} // verus!
