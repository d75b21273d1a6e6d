//! One line of the build tool's progress stream, reduced to what the
//! index needs.
use vstd::prelude::*;
use vstd::string::*;

verus! {

/// What one line of the stream says: an artifact with its optional
/// executable path, or any other message kind, which the index ignores.
#[derive(Debug)]
pub enum LineMsg {
    Artifact { executable: Option<String> },
    Other,
}

/// Ghost image of `LineMsg`, with the path as a character sequence.
pub enum MsgView {
    Artifact { executable: Option<Seq<char>> },
    Other,
}

impl View for LineMsg {
    type V = MsgView;

    open spec fn view(&self) -> MsgView {
        match self {
            LineMsg::Artifact { executable: Some(p) } => MsgView::Artifact {
                executable: Some(p@),
            },
            LineMsg::Artifact { executable: None } => MsgView::Artifact { executable: None },
            LineMsg::Other => MsgView::Other,
        }
    }
}

/// The meaning the build tool's wire format gives one line: nothing where
/// the line is not a well-formed message, otherwise the message's image.
pub uninterp spec fn parse_of(line: Seq<char>) -> Option<MsgView>;

/// Relies on serde_json::from_str for cargo_metadata::Message: decodes one
/// line of the build tool's JSON progress stream, an outcome that depends
/// on the line's characters alone. Only the artifact kind and its
/// executable path are kept; every other kind becomes `Other`.
#[verifier::external_body]
pub(crate) fn parse_message_line(line: &str) -> (r: Result<LineMsg, String>)
    ensures
        match r {
            Ok(m) => parse_of(line@) == Some(m@),
            Err(_) => parse_of(line@) is None,
        },
{
    match serde_json::from_str::<cargo_metadata::Message>(line) {
        Ok(cargo_metadata::Message::CompilerArtifact(artifact)) => Ok(LineMsg::Artifact {
            executable: artifact.executable.map(|p| p.into_string()),
        }),
        Ok(_) => Ok(LineMsg::Other),
        Err(e) => Err(e.to_string()),
    }
}

/// Why a run over the stream gave up: the fail-fast conditions of the
/// protocol. Any other oddity in the stream is ignored, never fatal.
#[derive(Debug)]
pub enum BuildFault {
    /// A line of the stream was not a well-formed message.
    MalformedLine { detail: String },
    /// An artifact's executable path held no file name to derive an
    /// identifier from.
    NoFileName,
}

impl BuildFault {
    /// The text with which a run aborts on this fault.
    pub fn message(&self) -> (r: String)
        ensures
            match self {
                BuildFault::MalformedLine { detail } => r@ == "cannot decode build message: "@
                    + detail@,
                BuildFault::NoFileName => r@ == "executable path has no file name"@,
            },
    {
        match self {
            BuildFault::MalformedLine { detail } => {
                let m = String::from_str("cannot decode build message: ");
                m.concat(detail.as_str())
            },
            BuildFault::NoFileName => String::from_str("executable path has no file name"),
        }
    }
}

} // verus!
