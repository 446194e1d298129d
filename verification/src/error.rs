//! The gateway's errors, their messages, and the HTTP status that an error
//! is answered with.
use vstd::prelude::*;

use crate::text::{contains_seq, text_contains};

verus! {

/// What can go wrong while serving a request.
#[derive(Debug, Clone)]
pub enum GatewayError {
    /// The named backend has no live connection.
    BackendNotConnected { backend: String },
    /// No connected backend offers the named tool.
    ToolNotFound { tool: String },
    /// The named backend is not in the configuration.
    NoConfig { backend: String },
    /// The MCP handshake with a spawned stdio backend failed; `cause` is the
    /// underlying error's message.
    StdioConnect { backend: String, cause: String },
    /// Connecting to an HTTP backend failed; `cause` is the underlying
    /// error's message.
    HttpConnect { backend: String, url: String, cause: String },
    /// Listing a backend's tools failed; `cause` is the underlying error's message.
    ListTools { backend: String, cause: String },
    /// A tool call on a backend failed; `cause` is the underlying error's message.
    CallTool { tool: String, backend: String, cause: String },
    /// A transport failed before any handshake, with the transport's own message.
    Transport { message: String },
}

/// The message of an error, as the gateway reports it.
pub open spec fn message_of(e: GatewayError) -> Seq<char> {
    match e {
        GatewayError::BackendNotConnected { backend } => "backend '"@ + backend@
            + "' not connected"@,
        GatewayError::ToolNotFound { tool } => "tool '"@ + tool@ + "' not found on any backend"@,
        GatewayError::NoConfig { backend } => "no config for backend '"@ + backend@ + "'"@,
        GatewayError::StdioConnect { backend, .. } => "stdio connect to '"@ + backend@ + "'"@,
        GatewayError::HttpConnect { backend, url, .. } => "http connect to '"@ + backend@ + "' at "@
            + url@,
        GatewayError::ListTools { backend, .. } => "list tools from '"@ + backend@ + "'"@,
        GatewayError::CallTool { tool, backend, .. } => "call_tool '"@ + tool@ + "' on '"@ + backend@
            + "'"@,
        GatewayError::Transport { message } => message@,
    }
}

/// The message of the error that caused `e`, where there is one.
pub open spec fn cause_of(e: GatewayError) -> Option<Seq<char>> {
    match e {
        GatewayError::StdioConnect { cause, .. } => Some(cause@),
        GatewayError::HttpConnect { cause, .. } => Some(cause@),
        GatewayError::ListTools { cause, .. } => Some(cause@),
        GatewayError::CallTool { cause, .. } => Some(cause@),
        _ => None,
    }
}

/// The HTTP status for an error message: 404 when it says that something
/// is not connected or not found, 500 otherwise.
pub open spec fn status_for(message: Seq<char>) -> u16 {
    if contains_seq(message, "not connected"@) || contains_seq(message, "not found"@) {
        404
    } else {
        500
    }
}

fn quoted(prefix: &str, name: &String, suffix: &str) -> (r: String)
    ensures
        r@ == prefix@ + name@ + suffix@,
{
    let mut r = String::from_str(prefix);
    r.append(name.as_str());
    r.append(suffix);
    r
}

impl GatewayError {
    /// The error's message.
    pub fn message(&self) -> (r: String)
        ensures
            r@ == message_of(*self),
    {
        match self {
            GatewayError::BackendNotConnected { backend } => quoted(
                "backend '",
                backend,
                "' not connected",
            ),
            GatewayError::ToolNotFound { tool } => quoted(
                "tool '",
                tool,
                "' not found on any backend",
            ),
            GatewayError::NoConfig { backend } => quoted("no config for backend '", backend, "'"),
            GatewayError::StdioConnect { backend, .. } => quoted("stdio connect to '", backend, "'"),
            GatewayError::HttpConnect { backend, url, .. } => {
                let mut r = quoted("http connect to '", backend, "' at ");
                r.append(url.as_str());
                r
            },
            GatewayError::ListTools { backend, .. } => quoted("list tools from '", backend, "'"),
            GatewayError::CallTool { tool, backend, .. } => {
                let mut r = quoted("call_tool '", tool, "' on '");
                r.append(backend.as_str());
                r.append("'");
                r
            },
            GatewayError::Transport { message } => message.clone(),
        }
    }

    /// The message of the error that caused this one, where there is one.
    pub fn cause(&self) -> (r: Option<&String>)
        ensures
            match *self {
                GatewayError::StdioConnect { cause, .. } => r == Some(&cause),
                GatewayError::HttpConnect { cause, .. } => r == Some(&cause),
                GatewayError::ListTools { cause, .. } => r == Some(&cause),
                GatewayError::CallTool { cause, .. } => r == Some(&cause),
                _ => r is None,
            },
    {
        match self {
            GatewayError::StdioConnect { cause, .. } => Some(cause),
            GatewayError::HttpConnect { cause, .. } => Some(cause),
            GatewayError::ListTools { cause, .. } => Some(cause),
            GatewayError::CallTool { cause, .. } => Some(cause),
            _ => None,
        }
    }

    /// The text with which the MCP proxy answers a failed tool call.
    pub fn reply_text(&self) -> (r: String)
        ensures
            r@ == "Error: "@ + message_of(*self),
    {
        let m = self.message();
        let mut r = String::from_str("Error: ");
        r.append(m.as_str());
        r
    }
}

/// An error as the REST API reports it: its message, and the status derived from it.
#[derive(Debug)]
pub struct AppError {
    message: String,
    cause: Option<String>,
}

impl AppError {
    /// The message that the error carries.
    pub closed spec fn message_view(&self) -> Seq<char> {
        self.message@
    }

    /// The message of the error that caused this one, where there is one.
    pub closed spec fn cause_view(&self) -> Option<Seq<char>> {
        match self.cause {
            Some(c) => Some(c@),
            None => None,
        }
    }

    /// An error that carries `message`.
    pub fn new(message: String) -> (r: Self)
        ensures
            r.message_view() == message@,
            r.cause_view() is None,
    {
        AppError { message, cause: None }
    }

    /// The error with which a failed gateway operation is reported.
    pub fn from_gateway(e: &GatewayError) -> (r: Self)
        ensures
            r.message_view() == message_of(*e),
            r.cause_view() == cause_of(*e),
    {
        let cause = match e.cause() {
            Some(c) => Some(c.clone()),
            None => None,
        };
        AppError { message: e.message(), cause }
    }

    /// The message of the error that caused this one, where there is one.
    pub fn cause(&self) -> (r: Option<&String>)
        ensures
            match r {
                Some(c) => self.cause_view() == Some(c@),
                None => self.cause_view() is None,
            },
    {
        match &self.cause {
            Some(c) => Some(c),
            None => None,
        }
    }

    /// The message that the error carries.
    pub fn message(&self) -> (r: &String)
        ensures
            r@ == self.message_view(),
    {
        &self.message
    }

    /// The HTTP status with which the error is answered.
    pub fn status_code(&self) -> (r: u16)
        ensures
            r == status_for(self.message_view()),
    {
        if text_contains(self.message.as_str(), "not connected") || text_contains(
            self.message.as_str(),
            "not found",
        ) {
            404
        } else {
            500
        }
    }
}

/// The status of an error is 404 exactly when its message holds the run of
/// characters "not connected" or "not found" somewhere, and 500 otherwise;
/// no other message, such as one where "not" only begins a longer word, is
/// answered 404.
pub proof fn lemma_status_by_message(message: Seq<char>)
    ensures
        status_for(message) == 404 || status_for(message) == 500,
        status_for(message) == 404 <==> (exists|i: int|
            0 <= i && i + 13 <= message.len() && #[trigger] message.subrange(i, i + 13)
                == "not connected"@) || (exists|i: int|
            0 <= i && i + 9 <= message.len() && #[trigger] message.subrange(i, i + 9)
                == "not found"@),
{
    reveal_strlit("not connected");
    reveal_strlit("not found");
    if contains_seq(message, "not connected"@) {
        let i = choose|i: int|
            0 <= i && i + "not connected"@.len() <= message.len() && #[trigger] message.subrange(
                i,
                i + "not connected"@.len(),
            ) == "not connected"@;
        assert(message.subrange(i, i + 13) == "not connected"@);
    }
    if contains_seq(message, "not found"@) {
        let i = choose|i: int|
            0 <= i && i + "not found"@.len() <= message.len() && #[trigger] message.subrange(
                i,
                i + "not found"@.len(),
            ) == "not found"@;
        assert(message.subrange(i, i + 9) == "not found"@);
    }
    if exists|i: int|
        0 <= i && i + 13 <= message.len() && #[trigger] message.subrange(i, i + 13) == "not connected"@ {
        let i = choose|i: int|
            0 <= i && i + 13 <= message.len() && #[trigger] message.subrange(i, i + 13) == "not connected"@;
        assert(message.subrange(i, i + "not connected"@.len()) == "not connected"@);
    }
    if exists|i: int| 0 <= i && i + 9 <= message.len() && #[trigger] message.subrange(i, i + 9) == "not found"@ {
        let i = choose|i: int|
            0 <= i && i + 9 <= message.len() && #[trigger] message.subrange(i, i + 9) == "not found"@;
        assert(message.subrange(i, i + "not found"@.len()) == "not found"@);
    }
}

/// A request that names a backend without a live connection is answered
/// with 404, whatever the backend's name.
pub proof fn lemma_unconnected_backend_is_not_found(backend: String)
    ensures
        status_for(message_of(GatewayError::BackendNotConnected { backend })) == 404,
{
    reveal_strlit("backend '");
    reveal_strlit("' not connected");
    reveal_strlit("not connected");
    let m = message_of(GatewayError::BackendNotConnected { backend });
    let i: int = 11 + backend@.len() as int;
    assert(m.subrange(i, i + "not connected"@.len() as int) =~= "not connected"@);
}

/// A call of a tool that no connected backend offers is answered with 404,
/// whatever the tool's name.
pub proof fn lemma_unknown_tool_is_not_found(tool: String)
    ensures
        status_for(message_of(GatewayError::ToolNotFound { tool })) == 404,
{
    reveal_strlit("tool '");
    reveal_strlit("' not found on any backend");
    reveal_strlit("not found");
    let m = message_of(GatewayError::ToolNotFound { tool });
    let i: int = 8 + tool@.len() as int;
    assert(m.subrange(i, i + "not found"@.len() as int) =~= "not found"@);
}

} // verus!
