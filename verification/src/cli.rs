//! Translation of command-line selectors into library configuration, shared by
//! the command-line front ends.

use vstd::prelude::*;
use vstd::string::StringExecFns;
use crate::clusterer::{
    domain_profile, AsNormConfig, CohortSource, DomainProfile, DEFAULT_AS_NORM_TOP_N,
    DEFAULT_ASNORM_COHORT_MODEL_ID,
};
use crate::text::{decimal, push_decimal, str_eq};

verus! {

/// A rejected command-line value.
#[derive(Clone, Debug, PartialEq, Eq)]
pub enum CliError {
    /// `--domain-profile` names no shipped profile.
    UnknownDomainProfile { name: String },
    /// The `--cohort` file does not exist.
    CohortNotFound { path: String },
    /// `--execution-provider` names no known provider.
    UnknownExecutionProvider { name: String },
    /// A speaker ceiling outside `1..=255`.
    MaxSpeakersOutOfRange { n: usize },
}

impl CliError {
    pub open spec fn message_spec(&self) -> Seq<char> {
        match self {
            CliError::UnknownDomainProfile { name } => "unknown --domain-profile '"@ + name@
                + "' (expected voxconverse|ami|callhome)"@,
            CliError::CohortNotFound { path } => "--cohort file not found: "@ + path@,
            CliError::UnknownExecutionProvider { name } => "unknown --execution-provider '"@
                + name@ + "' (expected auto|cpu|coreml|nnapi|cuda|xnnpack)"@,
            CliError::MaxSpeakersOutOfRange { n } => "max_speakers must be in 1..=255, got "@
                + decimal(*n as nat),
        }
    }

    /// The human-readable message of the error.
    pub fn message(&self) -> (m: String)
        ensures
            m@ == self.message_spec(),
    {
        let mut m = String::new();
        match self {
            CliError::UnknownDomainProfile { name } => {
                m.append("unknown --domain-profile '");
                m.append(name.as_str());
                m.append("' (expected voxconverse|ami|callhome)");
            },
            CliError::CohortNotFound { path } => {
                m.append("--cohort file not found: ");
                m.append(path.as_str());
            },
            CliError::UnknownExecutionProvider { name } => {
                m.append("unknown --execution-provider '");
                m.append(name.as_str());
                m.append("' (expected auto|cpu|coreml|nnapi|cuda|xnnpack)");
            },
            CliError::MaxSpeakersOutOfRange { n } => {
                m.append("max_speakers must be in 1..=255, got ");
                push_decimal(&mut m, *n as u64);
            },
        }
        m
    }
}

/// The calibrated domain profile named `name`.
pub fn parse_domain_profile(name: &str) -> (r: Result<DomainProfile, CliError>)
    ensures
        r is Ok <==> (name@ == "voxconverse"@ || name@ == "ami"@ || name@ == "callhome"@),
        r matches Ok(p) ==> p.name@ == name@ && p.as_norm_top_n == 100 && (name@ == "voxconverse"@
            ==> p.ahc_threshold_milli == 500) && (name@ == "ami"@ ==> p.ahc_threshold_milli == 550)
            && (name@ == "callhome"@ ==> p.ahc_threshold_milli == 450),
        r matches Err(e) ==> e matches CliError::UnknownDomainProfile { name: n } && n@ == name@,
{
    match domain_profile(name) {
        Some(p) => Ok(p),
        None => Err(CliError::UnknownDomainProfile { name: name.to_owned() }),
    }
}

/// A `--cohort` argument: the path and whether it names an existing file.
#[derive(Clone, Debug, PartialEq, Eq)]
pub struct CohortFile {
    pub path: String,
    pub is_file: bool,
}

/// The AS-norm configuration for the command-line flags: none when AS-norm
/// is off; otherwise the given cohort file (which must exist) or the
/// registry cohort, with `top_n` or the default cohort size.
pub fn resolve_as_norm_config(enabled: bool, cohort: Option<CohortFile>, top_n: Option<usize>) -> (r:
    Result<Option<AsNormConfig>, CliError>)
    ensures
        !enabled ==> r == Ok::<Option<AsNormConfig>, CliError>(None),
        enabled ==> match cohort {
            Some(c) => if c.is_file {
                r matches Ok(Some(cfg)) && cfg.cohort == CohortSource::Path(c.path) && cfg.top_n
                    == match top_n {
                    Some(n) => n,
                    None => DEFAULT_AS_NORM_TOP_N,
                }
            } else {
                r == Err::<Option<AsNormConfig>, CliError>(CliError::CohortNotFound { path: c.path })
            },
            None => r matches Ok(Some(cfg)) && cfg.cohort matches CohortSource::ModelId(id) && id@
                == DEFAULT_ASNORM_COHORT_MODEL_ID@ && cfg.top_n == match top_n {
                Some(n) => n,
                None => DEFAULT_AS_NORM_TOP_N,
            },
        },
{
    if !enabled {
        return Ok(None);
    }
    let source = match cohort {
        Some(c) => {
            if !c.is_file {
                return Err(CliError::CohortNotFound { path: c.path });
            }
            CohortSource::Path(c.path)
        },
        None => CohortSource::ModelId(DEFAULT_ASNORM_COHORT_MODEL_ID.to_owned()),
    };
    let n = match top_n {
        Some(n) => n,
        None => DEFAULT_AS_NORM_TOP_N,
    };
    Ok(Some(AsNormConfig { top_n: n, cohort: source }))
}

/// Where the embedder runs.
#[derive(Clone, Copy, Debug, PartialEq, Eq)]
pub enum ExecutionProvider {
    /// The best provider for the running target, chosen when sessions are
    /// built.
    Auto,
    Cpu,
    CoreMl,
    Nnapi,
    Cuda,
    XnnPack,
}

/// The execution provider named `s`.
pub fn parse_execution_provider(s: &str) -> (r: Result<ExecutionProvider, CliError>)
    ensures
        s@ == "auto"@ ==> r == Ok::<ExecutionProvider, CliError>(ExecutionProvider::Auto),
        s@ == "cpu"@ ==> r == Ok::<ExecutionProvider, CliError>(ExecutionProvider::Cpu),
        s@ == "coreml"@ ==> r == Ok::<ExecutionProvider, CliError>(ExecutionProvider::CoreMl),
        s@ == "nnapi"@ ==> r == Ok::<ExecutionProvider, CliError>(ExecutionProvider::Nnapi),
        s@ == "cuda"@ ==> r == Ok::<ExecutionProvider, CliError>(ExecutionProvider::Cuda),
        s@ == "xnnpack"@ ==> r == Ok::<ExecutionProvider, CliError>(ExecutionProvider::XnnPack),
        r is Err <==> !(s@ == "auto"@ || s@ == "cpu"@ || s@ == "coreml"@ || s@ == "nnapi"@ || s@
            == "cuda"@ || s@ == "xnnpack"@),
        r matches Err(e) ==> e matches CliError::UnknownExecutionProvider { name } && name@ == s@,
{
    proof {
        reveal_strlit("auto");
        reveal_strlit("cpu");
        reveal_strlit("coreml");
        reveal_strlit("nnapi");
        reveal_strlit("cuda");
        reveal_strlit("xnnpack");
        assert("auto"@.len() == 4 && "cpu"@.len() == 3 && "coreml"@.len() == 6);
        assert("nnapi"@.len() == 5 && "cuda"@.len() == 4 && "xnnpack"@.len() == 7);
        assert("auto"@[0] != "cuda"@[0]);
    }
    if str_eq(s, "auto") {
        Ok(ExecutionProvider::Auto)
    } else if str_eq(s, "cpu") {
        Ok(ExecutionProvider::Cpu)
    } else if str_eq(s, "coreml") {
        Ok(ExecutionProvider::CoreMl)
    } else if str_eq(s, "nnapi") {
        Ok(ExecutionProvider::Nnapi)
    } else if str_eq(s, "cuda") {
        Ok(ExecutionProvider::Cuda)
    } else if str_eq(s, "xnnpack") {
        Ok(ExecutionProvider::XnnPack)
    } else {
        Err(CliError::UnknownExecutionProvider { name: s.to_owned() })
    }
}

/// The speaker ceiling `n` as a `u8`; values outside `1..=255` are rejected,
/// never clamped.
pub fn max_speakers_u8(n: usize) -> (r: Result<u8, CliError>)
    ensures
        1 <= n <= 255 ==> r == Ok::<u8, CliError>(n as u8),
        !(1 <= n <= 255) ==> r == Err::<u8, CliError>(CliError::MaxSpeakersOutOfRange { n }),
{
    if n >= 1 && n <= 255 {
        Ok(n as u8)
    } else {
        Err(CliError::MaxSpeakersOutOfRange { n })
    }
}

} // verus!
