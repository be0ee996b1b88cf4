//! Error mapping of the model-context-protocol front end.
//!
//! Failures carry the numeric codes of the C interface; only bad input maps
//! to the JSON-RPC "invalid params" error, everything else is an internal
//! error.

use vstd::prelude::*;
use crate::cli::{max_speakers_u8, CliError};
use vstd::string::StringExecFns;

verus! {

/// Bad input from the caller.
pub const ERR_INVALID_ARG: i32 = 1;
/// A model could not be loaded.
pub const ERR_MODEL_LOAD: i32 = 10;
/// Inference failed.
pub const ERR_INFERENCE: i32 = 11;
/// The model registry failed.
pub const ERR_REGISTRY: i32 = 30;
/// Anything else.
pub const ERR_INTERNAL: i32 = 99;

/// JSON-RPC "invalid params".
pub const JSONRPC_INVALID_PARAMS: i32 = -32602;
/// JSON-RPC "internal error".
pub const JSONRPC_INTERNAL_ERROR: i32 = -32603;

/// A structured protocol error: the JSON-RPC code, and the interface code
/// with its message as payload.
#[derive(Clone, Debug, PartialEq, Eq)]
pub struct McpError {
    pub jsonrpc_code: i32,
    pub code: i32,
    pub message: String,
}

/// The protocol error for interface code `code`: invalid params for
/// [`ERR_INVALID_ARG`], internal error for every other code.
pub fn err(code: i32, message: String) -> (e: McpError)
    ensures
        e.code == code,
        e.message == message,
        e.jsonrpc_code == if code == ERR_INVALID_ARG {
            JSONRPC_INVALID_PARAMS
        } else {
            JSONRPC_INTERNAL_ERROR
        },
{
    let jsonrpc_code = if code == ERR_INVALID_ARG {
        JSONRPC_INVALID_PARAMS
    } else {
        JSONRPC_INTERNAL_ERROR
    };
    McpError { jsonrpc_code, code, message }
}

/// The speaker ceiling for a request: `default_max` (the pipeline default)
/// when none is given, else the requested value, which must lie in
/// `1..=255`.
pub fn resolve_max_speakers(max_speakers: Option<usize>, default_max: u8) -> (r: Result<u8, McpError>)
    ensures
        max_speakers is None ==> r == Ok::<u8, McpError>(default_max),
        forall|n: usize|
            max_speakers == Some(n) && 1 <= n <= 255 ==> r == Ok::<u8, McpError>(n as u8),
        forall|n: usize|
            max_speakers == Some(n) && !(1 <= n <= 255) ==> (r matches Err(e) && e.code
                == ERR_INVALID_ARG && e.jsonrpc_code == JSONRPC_INVALID_PARAMS && e.message@ == (
            CliError::MaxSpeakersOutOfRange { n }).message_spec()),
{
    match max_speakers {
        None => Ok(default_max),
        Some(n) => match max_speakers_u8(n) {
            Ok(v) => Ok(v),
            Err(e) => Err(err(ERR_INVALID_ARG, e.message())),
        },
    }
}

/// The message of a transcription request while speech-to-text is not
/// installed.
pub open spec fn asr_unavailable_message() -> Seq<char> {
    "ASR is unavailable: install the optional `polyvoice-asr` companion crate to enable transcription"@
}

/// The error every transcription tool answers with while speech-to-text is
/// not installed: an internal error naming the companion crate.
pub fn asr_unavailable() -> (e: McpError)
    ensures
        e.code == ERR_INTERNAL,
        e.jsonrpc_code == JSONRPC_INTERNAL_ERROR,
        e.message@ == asr_unavailable_message(),
{
    err(
        ERR_INTERNAL,
        String::from_str(
            "ASR is unavailable: install the optional `polyvoice-asr` companion crate to enable transcription",
        ),
    )
}

/// What the server offers: its name and version, its tools, whether
/// speech-to-text is available, the output formats and the model profiles.
#[derive(Clone, Debug, PartialEq, Eq)]
pub struct Capabilities {
    pub name: String,
    pub version: String,
    pub tools: Vec<String>,
    pub asr_available: bool,
    pub output_formats: Vec<String>,
    pub profiles: Vec<String>,
}

/// The tool names, in the order they are listed.
pub open spec fn tool_names() -> Seq<Seq<char>> {
    seq![
        "polyvoice.diarize"@,
        "polyvoice.transcribe"@,
        "polyvoice.diarize_and_transcribe"@,
        "polyvoice.capabilities"@,
    ]
}

/// The output formats, in the order they are listed.
pub open spec fn output_format_names() -> Seq<Seq<char>> {
    seq!["rttm"@, "json"@, "srt"@, "vtt"@, "txt"@]
}

/// The model profiles, in the order they are listed.
pub open spec fn profile_names() -> Seq<Seq<char>> {
    seq!["balanced"@, "mobile"@]
}

/// The views of a list of strings.
pub open spec fn views(v: Seq<String>) -> Seq<Seq<char>> {
    v.map_values(|s: String| s@)
}

/// The capabilities of the server at `version`: four tools, no
/// speech-to-text, five output formats and two profiles.
pub fn capabilities(version: String) -> (c: Capabilities)
    ensures
        c.name@ == "polyvoice-mcp"@,
        c.version == version,
        views(c.tools@) == tool_names(),
        !c.asr_available,
        views(c.output_formats@) == output_format_names(),
        views(c.profiles@) == profile_names(),
{
    let tools = vec![
        String::from_str("polyvoice.diarize"),
        String::from_str("polyvoice.transcribe"),
        String::from_str("polyvoice.diarize_and_transcribe"),
        String::from_str("polyvoice.capabilities"),
    ];
    let output_formats = vec![
        String::from_str("rttm"),
        String::from_str("json"),
        String::from_str("srt"),
        String::from_str("vtt"),
        String::from_str("txt"),
    ];
    let profiles = vec![String::from_str("balanced"), String::from_str("mobile")];
    proof {
        assert(views(tools@) =~= tool_names());
        assert(views(output_formats@) =~= output_format_names());
        assert(views(profiles@) =~= profile_names());
    }
    Capabilities {
        name: String::from_str("polyvoice-mcp"),
        version,
        tools,
        asr_available: false,
        output_formats,
        profiles,
    }
}

} // verus!
