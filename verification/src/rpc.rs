//! Which request of a client is answered how.

use vstd::prelude::*;
use vstd::string::StringExecFns;
use crate::report::{known_type_text, name_of_type};
use crate::text::str_eq;
use crate::types::{field_type_of, FieldType};

verus! {

/// A tool that a client can call.
#[derive(Debug, Clone, Copy, PartialEq, Eq, Structural)]
pub enum Tool {
    FileInfo,
    StateAtCycle,
    EntityTimeline,
    CounterValues,
    BufferOccupancy,
    AnalyzePerformance,
}

/// How a request is answered.
#[derive(Debug, Clone, Copy, PartialEq, Eq, Structural)]
pub enum Answer {
    /// The capabilities of the server.
    Capabilities,
    /// The list of tools.
    Tools,
    /// What a tool returns.
    Call(Tool),
    /// A failed call: there is no such tool.
    UnknownTool,
    /// An error: the version of the protocol is not supported.
    WrongVersion,
    /// An error: there is no such method.
    UnknownMethod,
    /// Not at all.
    Nothing,
}

/// The tool with a name.
pub open spec fn tool_named(name: Seq<char>) -> Option<Tool> {
    if name == "file_info"@ {
        Some(Tool::FileInfo)
    } else if name == "state_at_cycle"@ {
        Some(Tool::StateAtCycle)
    } else if name == "entity_timeline"@ {
        Some(Tool::EntityTimeline)
    } else if name == "counter_values"@ {
        Some(Tool::CounterValues)
    } else if name == "buffer_occupancy"@ {
        Some(Tool::BufferOccupancy)
    } else if name == "analyze_performance"@ {
        Some(Tool::AnalyzePerformance)
    } else {
        None
    }
}

/// The tool with a name.
pub fn find_tool(name: &str) -> (t: Option<Tool>)
    ensures
        t == tool_named(name@),
{
    if str_eq(name, "file_info") {
        Some(Tool::FileInfo)
    } else if str_eq(name, "state_at_cycle") {
        Some(Tool::StateAtCycle)
    } else if str_eq(name, "entity_timeline") {
        Some(Tool::EntityTimeline)
    } else if str_eq(name, "counter_values") {
        Some(Tool::CounterValues)
    } else if str_eq(name, "buffer_occupancy") {
        Some(Tool::BufferOccupancy)
    } else if str_eq(name, "analyze_performance") {
        Some(Tool::AnalyzePerformance)
    } else {
        None
    }
}

/// How a request is answered. A request without an ID is a notification: one
/// that is not known is passed over.
pub open spec fn answer_to(
    version: Seq<char>,
    method: Seq<char>,
    has_id: bool,
    tool: Seq<char>,
) -> Answer {
    if version != "2.0"@ {
        Answer::WrongVersion
    } else if method == "initialize"@ {
        Answer::Capabilities
    } else if method == "notifications/initialized"@ {
        Answer::Nothing
    } else if method == "tools/list"@ {
        Answer::Tools
    } else if method == "tools/call"@ {
        match tool_named(tool) {
            Some(t) => Answer::Call(t),
            None => Answer::UnknownTool,
        }
    } else if has_id {
        Answer::UnknownMethod
    } else {
        Answer::Nothing
    }
}

/// How a request is answered: `version` is the version of JSON-RPC that it
/// states, `tool` the name of the tool that it calls, if it does.
pub fn handle_request(version: &str, method: &str, has_id: bool, tool: &str) -> (a: Answer)
    ensures
        a == answer_to(version@, method@, has_id, tool@),
{
    if !str_eq(version, "2.0") {
        Answer::WrongVersion
    } else if str_eq(method, "initialize") {
        Answer::Capabilities
    } else if str_eq(method, "notifications/initialized") {
        Answer::Nothing
    } else if str_eq(method, "tools/list") {
        Answer::Tools
    } else if str_eq(method, "tools/call") {
        match find_tool(tool) {
            Some(t) => Answer::Call(t),
            None => Answer::UnknownTool,
        }
    } else if has_id {
        Answer::UnknownMethod
    } else {
        Answer::Nothing
    }
}

/// The code of the error that answers a request, if one does.
pub fn error_code(a: Answer) -> (code: Option<i64>)
    ensures
        code == match a {
            Answer::WrongVersion => Some(-32600i64),
            Answer::UnknownMethod => Some(-32601i64),
            _ => None,
        },
{
    match a {
        Answer::WrongVersion => Some(-32600),
        Answer::UnknownMethod => Some(-32601),
        _ => None,
    }
}

/// A number that a tool takes, cut to 32 bits. Without it, what to tell the
/// client.
pub fn number_parameter(name: &str, value: Option<u64>) -> (r: Result<u32, String>)
    ensures
        match value {
            Some(v) => r is Ok && r->Ok_0 == v as u32,
            None => r is Err && r->Err_0@ == missing_text(name@),
        },
{
    match value {
        Some(v) => Ok(#[verifier::truncate] (v as u32)),
        None => Err(missing_parameter(name)),
    }
}

/// What a client is told that left out a parameter.
pub open spec fn missing_text(name: Seq<char>) -> Seq<char> {
    "missing or invalid '"@ + name + "' parameter"@
}

/// What a client is told that left out a parameter.
pub fn missing_parameter(name: &str) -> (s: String)
    ensures
        s@ == missing_text(name@),
{
    let mut s: String = "missing or invalid '".to_owned();
    s.append(name);
    s.append("' parameter");
    s
}

/// The name of a type.
pub fn field_type_name(ft: u8) -> (s: &'static str)
    ensures
        s@ == match field_type_of(ft) {
            Some(t) => known_type_text(t),
            None => "unknown"@,
        },
{
    match FieldType::from_u8(ft) {
        Some(t) => name_of_type(t),
        None => "unknown",
    }
}

/// A request of the supported version that has an ID is answered, but for the
/// notification that the client is ready; without an ID only known methods
/// are. A call is answered by the tool that it names, or refused.
pub proof fn law_answered(version: Seq<char>, method: Seq<char>, has_id: bool, tool: Seq<char>)
    ensures
        ({
            let a = answer_to(version, method, has_id, tool);
            &&& a == Answer::WrongVersion <==> version != "2.0"@
            &&& version == "2.0"@ && has_id && method != "notifications/initialized"@ ==> a
                != Answer::Nothing
            &&& a == Answer::UnknownMethod ==> has_id
            &&& a is Call ==> method == "tools/call"@ && tool_named(tool) == Some(a->Call_0)
            &&& version == "2.0"@ && method == "tools/call"@ && tool_named(tool) is None ==> a
                == Answer::UnknownTool
        }),
{
    reveal_strlit("2.0");
    reveal_strlit("initialize");
    reveal_strlit("notifications/initialized");
    reveal_strlit("tools/list");
    reveal_strlit("tools/call");
    assert("initialize"@.len() == 10);
    assert("notifications/initialized"@.len() == 25);
    assert("tools/list"@.len() == 10 && "tools/call"@.len() == 10);
    assert("initialize"@[0] == 'i' && "tools/list"@[0] == 't' && "tools/call"@[0] == 't');
    assert("tools/list"@[6] == 'l' && "tools/call"@[6] == 'c');
}

/// No tool has two names.
pub proof fn law_tools_distinct(a: Seq<char>, b: Seq<char>)
    requires
        tool_named(a) is Some,
        tool_named(a) == tool_named(b),
    ensures
        a == b,
{
}

} // verus!
