//! The decisions of the MCP server that answers tool requests about the
//! loader's configuration and local assets: which method and tool a request
//! names, when it is answered, the error codes, and the summary counts of a
//! configuration. Reading and writing JSON-RPC messages is left to the
//! caller.
use vstd::prelude::*;
use crate::config::{
    expand_full, expands_to_itself, expansion_of, format_names, opt_view, Config, ECAD, Format,
};
use crate::error::ExpandFailure;
use crate::order::{insert_text, lemma_text_lt_irreflexive, strictly_sorted, text_lt};
use crate::text::{append_chars, chars_of, contains_chars, contains_seq, owned, string_of};

verus! {

/// JSON-RPC code of a request that is not valid JSON.
pub const PARSE_ERROR: i64 = -32700;

/// JSON-RPC code of a method the server does not know.
pub const METHOD_NOT_FOUND: i64 = -32601;

/// JSON-RPC code of a request whose parameters are wrong.
pub const INVALID_PARAMS: i64 = -32602;

/// The protocol version answered when the client names none.
pub const DEFAULT_PROTOCOL_VERSION: &'static str = "2024-11-05";

/// A JSON-RPC method the server knows.
#[derive(Clone, Copy, Debug, PartialEq, Eq, Structural)]
pub enum RpcMethod {
    Initialize,
    Initialized,
    Ping,
    ToolsList,
    ToolsCall,
    Unknown,
}

/// The method a name stands for.
pub open spec fn method_named(name: Seq<char>) -> RpcMethod {
    if name == "initialize"@ {
        RpcMethod::Initialize
    } else if name == "notifications/initialized"@ {
        RpcMethod::Initialized
    } else if name == "ping"@ {
        RpcMethod::Ping
    } else if name == "tools/list"@ {
        RpcMethod::ToolsList
    } else if name == "tools/call"@ {
        RpcMethod::ToolsCall
    } else {
        RpcMethod::Unknown
    }
}

impl RpcMethod {
    /// The method a request names.
    pub fn from_name(name: &str) -> (r: RpcMethod)
        ensures
            r == method_named(name@),
    {
        let n = chars_of(name);
        if crate::text::eq_str(&n, "initialize") {
            RpcMethod::Initialize
        } else if crate::text::eq_str(&n, "notifications/initialized") {
            RpcMethod::Initialized
        } else if crate::text::eq_str(&n, "ping") {
            RpcMethod::Ping
        } else if crate::text::eq_str(&n, "tools/list") {
            RpcMethod::ToolsList
        } else if crate::text::eq_str(&n, "tools/call") {
            RpcMethod::ToolsCall
        } else {
            RpcMethod::Unknown
        }
    }
}

/// Whether a request gets an answer: never the `initialized`
/// notification, and otherwise exactly the requests that carry an id.
pub fn replies(method: RpcMethod, has_id: bool) -> (r: bool)
    ensures
        r == (method != RpcMethod::Initialized && has_id),
{
    method != RpcMethod::Initialized && has_id
}

/// The protocol version the server answers with: the client's, else the
/// default.
pub fn protocol_version(requested: Option<String>) -> (r: String)
    ensures
        requested matches Some(v) ==> r@ == v@,
        requested is None ==> r@ == DEFAULT_PROTOCOL_VERSION@,
{
    match requested {
        Some(v) => v,
        None => owned(DEFAULT_PROTOCOL_VERSION),
    }
}

/// A tool of the server.
#[derive(Clone, Copy, Debug, PartialEq, Eq, Structural)]
pub enum Tool {
    ValidateConfig,
    ListFormats,
    ExistsLocally,
    ExistsOnServer,
    FormatExistsServer,
    HasRequiredFormats,
    VetPart,
    DownloadEpw,
    DownloadPartId,
}

/// The tool a name stands for; `exists` is another name of
/// `exists_locally`.
pub open spec fn tool_named(name: Seq<char>) -> Option<Tool> {
    if name == "validate_config"@ {
        Some(Tool::ValidateConfig)
    } else if name == "list_formats"@ {
        Some(Tool::ListFormats)
    } else if name == "exists"@ || name == "exists_locally"@ {
        Some(Tool::ExistsLocally)
    } else if name == "exists_on_server"@ {
        Some(Tool::ExistsOnServer)
    } else if name == "format_exists_server"@ {
        Some(Tool::FormatExistsServer)
    } else if name == "has_required_formats"@ {
        Some(Tool::HasRequiredFormats)
    } else if name == "vet_part"@ {
        Some(Tool::VetPart)
    } else if name == "download_epw"@ {
        Some(Tool::DownloadEpw)
    } else if name == "download_part_id"@ {
        Some(Tool::DownloadPartId)
    } else {
        None
    }
}

impl Tool {
    /// The tool a call names, or the error text for a name no tool has:
    /// `Unknown tool: <name>`.
    pub fn from_name(name: &str) -> (r: Result<Tool, String>)
        ensures
            tool_named(name@) matches Some(t) ==> r == Ok::<Tool, String>(t),
            tool_named(name@) is None ==> (r matches Err(m) && m@ == "Unknown tool: "@ + name@),
    {
        let n = chars_of(name);
        if crate::text::eq_str(&n, "validate_config") {
            Ok(Tool::ValidateConfig)
        } else if crate::text::eq_str(&n, "list_formats") {
            Ok(Tool::ListFormats)
        } else if crate::text::eq_str(&n, "exists") || crate::text::eq_str(&n, "exists_locally") {
            Ok(Tool::ExistsLocally)
        } else if crate::text::eq_str(&n, "exists_on_server") {
            Ok(Tool::ExistsOnServer)
        } else if crate::text::eq_str(&n, "format_exists_server") {
            Ok(Tool::FormatExistsServer)
        } else if crate::text::eq_str(&n, "has_required_formats") {
            Ok(Tool::HasRequiredFormats)
        } else if crate::text::eq_str(&n, "vet_part") {
            Ok(Tool::VetPart)
        } else if crate::text::eq_str(&n, "download_epw") {
            Ok(Tool::DownloadEpw)
        } else if crate::text::eq_str(&n, "download_part_id") {
            Ok(Tool::DownloadPartId)
        } else {
            Err(prefixed("Unknown tool: ", name))
        }
    }
}

/// `prefix` followed by `rest`.
fn prefixed(prefix: &str, rest: &str) -> (r: String)
    ensures
        r@ == prefix@ + rest@,
{
    let mut m = chars_of(prefix);
    append_chars(&mut m, &chars_of(rest));
    string_of(m.as_slice())
}

/// The error text of a method the server does not know:
/// `Unknown method: <name>`.
pub fn unknown_method_message(method: &str) -> (r: String)
    ensures
        r@ == "Unknown method: "@ + method@,
{
    prefixed("Unknown method: ", method)
}

/// How a tool call is answered.
#[derive(Clone, Copy, Debug, PartialEq, Eq, Structural)]
pub enum ToolAnswer {
    /// A result holding what the tool gave.
    Success,
    /// A result marked as an error, holding the tool's message.
    ToolError,
    /// A JSON-RPC error: the call could not be made.
    RpcError,
}

/// How a tool call is answered: one that could not be made (no tool name,
/// arguments that do not fit the tool) is a JSON-RPC error; a tool that ran
/// (or was not found) is answered with a result, marked as an error result
/// when it failed.
pub fn tool_answer(made: bool, failed: bool) -> (r: ToolAnswer)
    ensures
        !made ==> r == ToolAnswer::RpcError,
        made && failed ==> r == ToolAnswer::ToolError,
        made && !failed ==> r == ToolAnswer::Success,
{
    if !made {
        ToolAnswer::RpcError
    } else if failed {
        ToolAnswer::ToolError
    } else {
        ToolAnswer::Success
    }
}

/// An error answered to a request instead of a result.
#[derive(Debug)]
pub struct RpcToolError {
    pub code: i64,
    pub message: String,
}

impl RpcToolError {
    /// The parameters of the request are wrong.
    pub fn invalid_params(message: String) -> (r: RpcToolError)
        ensures
            r.code == INVALID_PARAMS,
            r.message == message,
    {
        RpcToolError { code: INVALID_PARAMS, message }
    }

    /// The request names a method the server does not know.
    pub fn method_not_found(message: String) -> (r: RpcToolError)
        ensures
            r.code == METHOD_NOT_FOUND,
            r.message == message,
    {
        RpcToolError { code: METHOD_NOT_FOUND, message }
    }

    /// A tool call that names no tool.
    pub fn missing_tool_name() -> (r: RpcToolError)
        ensures
            r.code == INVALID_PARAMS,
            r.message@ == "Missing tool name"@,
    {
        Self::invalid_params(owned("Missing tool name"))
    }

    /// A tool call whose arguments do not fit the tool; `detail` is the
    /// reader's message.
    pub fn invalid_arguments(detail: &str) -> (r: RpcToolError)
        ensures
            r.code == INVALID_PARAMS,
            r.message@ == "Invalid tool arguments: "@ + detail@,
    {
        Self::invalid_params(prefixed("Invalid tool arguments: ", detail))
    }
}

// ---------------------------------------------------------------------------
// The tools the server lists
// ---------------------------------------------------------------------------

/// The kind of value a tool argument takes.
#[derive(Clone, Copy, Debug, PartialEq, Eq, Structural)]
pub enum ArgKind {
    /// A string.
    Text,
    /// An integer of at least one.
    PartId,
    /// A list of requirement names (`symbol`, `footprint`, `3d`, `legacy`,
    /// `zip`).
    Requirements,
    /// A list of requirement names with at least one entry.
    SomeRequirements,
}

/// One argument of a tool.
#[derive(Debug)]
pub struct ToolArg {
    pub name: &'static str,
    pub kind: ArgKind,
    pub required: bool,
    pub description: Option<&'static str>,
}

/// A tool as the server lists it: the name it is called by, what it does,
/// and its arguments.
#[derive(Debug)]
pub struct ToolSpec {
    pub tool: Tool,
    pub name: &'static str,
    pub description: &'static str,
    pub args: Vec<ToolArg>,
}

/// The names of the listed tools, in order.
pub open spec fn listed_tool_names() -> Seq<Seq<char>> {
    seq![
        "validate_config"@,
        "list_formats"@,
        "exists"@,
        "exists_locally"@,
        "exists_on_server"@,
        "format_exists_server"@,
        "has_required_formats"@,
        "vet_part"@,
        "download_epw"@,
        "download_part_id"@,
    ]
}

/// The arguments a tool takes: name, kind and whether it is required.
pub open spec fn tool_args(t: Tool) -> Seq<(Seq<char>, ArgKind, bool)> {
    match t {
        Tool::ValidateConfig | Tool::ListFormats => seq![("config_path"@, ArgKind::Text, false)],
        Tool::ExistsLocally => seq![
            ("mpn"@, ArgKind::Text, true),
            ("requirements"@, ArgKind::Requirements, false),
            ("config_path"@, ArgKind::Text, false),
        ],
        Tool::ExistsOnServer => seq![
            ("part_id"@, ArgKind::PartId, true),
            ("config_path"@, ArgKind::Text, false),
        ],
        Tool::FormatExistsServer => seq![
            ("part_id"@, ArgKind::PartId, true),
            ("requirements"@, ArgKind::Requirements, false),
            ("config_path"@, ArgKind::Text, false),
        ],
        Tool::HasRequiredFormats => seq![
            ("mpn"@, ArgKind::Text, true),
            ("requirements"@, ArgKind::SomeRequirements, true),
            ("config_path"@, ArgKind::Text, false),
        ],
        Tool::VetPart => seq![
            ("mpn"@, ArgKind::Text, true),
            ("manufacturer"@, ArgKind::Text, false),
            ("requirements"@, ArgKind::Requirements, false),
            ("config_path"@, ArgKind::Text, false),
        ],
        Tool::DownloadEpw => seq![("path"@, ArgKind::Text, true), ("config_path"@, ArgKind::Text, false)],
        Tool::DownloadPartId => seq![
            ("part_id"@, ArgKind::PartId, true),
            ("mpn"@, ArgKind::Text, false),
            ("config_path"@, ArgKind::Text, false),
        ],
    }
}

/// The name, kind and requiredness of each argument.
pub open spec fn args_view(args: Seq<ToolArg>) -> Seq<(Seq<char>, ArgKind, bool)> {
    args.map_values(|a: ToolArg| (a.name@, a.kind, a.required))
}

/// The descriptions of the listed tools, in order.
pub open spec fn listed_tool_descriptions() -> Seq<Seq<char>> {
    seq![
        "Validate LibraryLoader.toml and summarize configured outputs without revealing credentials."@,
        "List configured ECAD export formats, output paths, and 3D model settings. Does not contact ComponentSearchEngine."@,
        "Alias for exists_locally. Offline shorthand for checking whether a local part already has required CAD assets. Defaults to symbol, footprint, and 3D."@,
        "Offline check for whether a local MPN already has required CAD assets. Defaults to symbol, footprint, and 3D."@,
        "Check whether ComponentSearchEngine has a part archive for a part ID using HEAD only. Does not download the ZIP body."@,
        "Probe server archive availability for a part ID and explicitly report that symbol/footprint/3D server-specific existence is not exposed without downloading and inspecting the ZIP."@,
        "Offline check for selected local asset classes for an MPN. Use before downloading."@,
        "Offline part-shopping helper that reports whether local CAD assets satisfy requirements and what is missing."@,
        "Download and install a ComponentSearchEngine EPW or EPW-containing ZIP. This contacts ComponentSearchEngine."@,
        "Download and install CAD assets by ComponentSearchEngine part ID. This contacts ComponentSearchEngine."@,
    ]
}

/// The descriptions of a tool's arguments, in order (`None` for one
/// without).
pub open spec fn tool_arg_descriptions(t: Tool) -> Seq<Option<Seq<char>>> {
    match t {
        Tool::ValidateConfig => seq![
            Some("Optional LibraryLoader.toml path. Defaults to the server --config path."@),
        ],
        Tool::ListFormats => seq![None],
        Tool::ExistsLocally => seq![Some("Manufacturer part number to check locally."@), None, None],
        Tool::ExistsOnServer => seq![None, None],
        Tool::FormatExistsServer | Tool::HasRequiredFormats => seq![None, None, None],
        Tool::VetPart => seq![None, None, None, None],
        Tool::DownloadEpw => seq![Some("Path to an .epw file or zip containing an EPW."@), None],
        Tool::DownloadPartId => seq![
            None,
            Some("Optional MPN for a post-download local asset check."@),
            None,
        ],
    }
}

/// The view of an optional description.
pub open spec fn description_view(d: Option<&'static str>) -> Option<Seq<char>> {
    match d {
        Some(t) => Some(t@),
        None => None,
    }
}

/// The descriptions of arguments, in order.
pub open spec fn arg_descriptions(args: Seq<ToolArg>) -> Seq<Option<Seq<char>>> {
    args.map_values(|a: ToolArg| description_view(a.description))
}

fn arg(name: &'static str, kind: ArgKind, required: bool, description: Option<&'static str>) -> (r: ToolArg)
    ensures
        r.name == name,
        r.kind == kind,
        r.required == required,
        r.description == description,
{
    ToolArg { name, kind, required, description }
}

fn config_arg(description: Option<&'static str>) -> (r: ToolArg)
    ensures
        r.name@ == "config_path"@,
        r.kind == ArgKind::Text,
        !r.required,
        r.description == description,
{
    arg("config_path", ArgKind::Text, false, description)
}

fn mpn_arg(description: Option<&'static str>) -> (r: ToolArg)
    ensures
        r.name@ == "mpn"@,
        r.kind == ArgKind::Text,
        r.required,
        r.description == description,
{
    arg("mpn", ArgKind::Text, true, description)
}

fn requirements_arg(kind: ArgKind, required: bool) -> (r: ToolArg)
    ensures
        r.name@ == "requirements"@,
        r.kind == kind,
        r.required == required,
        r.description is None,
{
    arg("requirements", kind, required, None)
}

fn part_id_arg() -> (r: ToolArg)
    ensures
        r.name@ == "part_id"@,
        r.kind == ArgKind::PartId,
        r.required,
        r.description is None,
{
    arg("part_id", ArgKind::PartId, true, None)
}

fn spec_of(tool: Tool, name: &'static str, description: &'static str, args: Vec<ToolArg>) -> (r: ToolSpec)
    ensures
        r.tool == tool,
        r.name == name,
        r.args@ == args@,
        r.description == description,
{
    ToolSpec { tool, name, description, args }
}

/// The tools the server offers, in the order it lists them. Each listed
/// name calls the tool it describes.
pub fn tool_list() -> (r: Vec<ToolSpec>)
    ensures
        r@.len() == listed_tool_names().len(),
        forall|i: int| 0 <= i < r@.len() ==> (#[trigger] r@[i]).name@ == listed_tool_names()[i],
        forall|i: int| 0 <= i < r@.len() ==> tool_named((#[trigger] r@[i]).name@) == Some(r@[i].tool),
        forall|i: int| 0 <= i < r@.len() ==> args_view((#[trigger] r@[i]).args@) == tool_args(r@[i].tool),
        forall|i: int| 0 <= i < r@.len() ==> (#[trigger] r@[i]).description@ == listed_tool_descriptions()[i],
        forall|i: int|
            0 <= i < r@.len() ==> arg_descriptions((#[trigger] r@[i]).args@) == tool_arg_descriptions(
                r@[i].tool,
            ),
{
    let config_desc = "Optional LibraryLoader.toml path. Defaults to the server --config path.";
    let mpn_desc = "Manufacturer part number to check locally.";
    let mut v: Vec<ToolSpec> = Vec::new();

    let mut a: Vec<ToolArg> = Vec::new();
    a.push(config_arg(Some(config_desc)));
    v.push(spec_of(
        Tool::ValidateConfig,
        "validate_config",
        "Validate LibraryLoader.toml and summarize configured outputs without revealing credentials.",
        a,
    ));

    let mut a: Vec<ToolArg> = Vec::new();
    a.push(config_arg(None));
    v.push(spec_of(
        Tool::ListFormats,
        "list_formats",
        "List configured ECAD export formats, output paths, and 3D model settings. Does not contact ComponentSearchEngine.",
        a,
    ));

    let mut a: Vec<ToolArg> = Vec::new();
    a.push(mpn_arg(Some(mpn_desc)));
    a.push(requirements_arg(ArgKind::Requirements, false));
    a.push(config_arg(None));
    v.push(spec_of(
        Tool::ExistsLocally,
        "exists",
        "Alias for exists_locally. Offline shorthand for checking whether a local part already has required CAD assets. Defaults to symbol, footprint, and 3D.",
        a,
    ));

    let mut a: Vec<ToolArg> = Vec::new();
    a.push(mpn_arg(Some(mpn_desc)));
    a.push(requirements_arg(ArgKind::Requirements, false));
    a.push(config_arg(None));
    v.push(spec_of(
        Tool::ExistsLocally,
        "exists_locally",
        "Offline check for whether a local MPN already has required CAD assets. Defaults to symbol, footprint, and 3D.",
        a,
    ));

    let mut a: Vec<ToolArg> = Vec::new();
    a.push(part_id_arg());
    a.push(config_arg(None));
    v.push(spec_of(
        Tool::ExistsOnServer,
        "exists_on_server",
        "Check whether ComponentSearchEngine has a part archive for a part ID using HEAD only. Does not download the ZIP body.",
        a,
    ));

    let mut a: Vec<ToolArg> = Vec::new();
    a.push(part_id_arg());
    a.push(requirements_arg(ArgKind::Requirements, false));
    a.push(config_arg(None));
    v.push(spec_of(
        Tool::FormatExistsServer,
        "format_exists_server",
        "Probe server archive availability for a part ID and explicitly report that symbol/footprint/3D server-specific existence is not exposed without downloading and inspecting the ZIP.",
        a,
    ));

    let mut a: Vec<ToolArg> = Vec::new();
    a.push(mpn_arg(None));
    a.push(requirements_arg(ArgKind::SomeRequirements, true));
    a.push(config_arg(None));
    v.push(spec_of(
        Tool::HasRequiredFormats,
        "has_required_formats",
        "Offline check for selected local asset classes for an MPN. Use before downloading.",
        a,
    ));

    let mut a: Vec<ToolArg> = Vec::new();
    a.push(mpn_arg(None));
    a.push(arg("manufacturer", ArgKind::Text, false, None));
    a.push(requirements_arg(ArgKind::Requirements, false));
    a.push(config_arg(None));
    v.push(spec_of(
        Tool::VetPart,
        "vet_part",
        "Offline part-shopping helper that reports whether local CAD assets satisfy requirements and what is missing.",
        a,
    ));

    let mut a: Vec<ToolArg> = Vec::new();
    a.push(arg("path", ArgKind::Text, true, Some("Path to an .epw file or zip containing an EPW.")));
    a.push(config_arg(None));
    v.push(spec_of(
        Tool::DownloadEpw,
        "download_epw",
        "Download and install a ComponentSearchEngine EPW or EPW-containing ZIP. This contacts ComponentSearchEngine.",
        a,
    ));

    let mut a: Vec<ToolArg> = Vec::new();
    a.push(part_id_arg());
    a.push(arg("mpn", ArgKind::Text, false, Some("Optional MPN for a post-download local asset check.")));
    a.push(config_arg(None));
    v.push(spec_of(
        Tool::DownloadPartId,
        "download_part_id",
        "Download and install CAD assets by ComponentSearchEngine part ID. This contacts ComponentSearchEngine.",
        a,
    ));

    proof {
        reveal_strlit("validate_config");
        reveal_strlit("list_formats");
        reveal_strlit("exists");
        reveal_strlit("exists_locally");
        reveal_strlit("exists_on_server");
        reveal_strlit("format_exists_server");
        reveal_strlit("has_required_formats");
        reveal_strlit("vet_part");
        reveal_strlit("download_epw");
        reveal_strlit("download_part_id");
        reveal_strlit("config_path");
        reveal_strlit("mpn");
        reveal_strlit("manufacturer");
        reveal_strlit("requirements");
        reveal_strlit("part_id");
        reveal_strlit("path");
    }
    assert forall|i: int| 0 <= i < v@.len() implies tool_named((#[trigger] v@[i]).name@) == Some(v@[i].tool) by {
        assert(v@[i].name@ == listed_tool_names()[i]);
        assert("download_epw"@[0] != "list_formats"@[0]);
        assert("download_part_id"@[0] != "exists_on_server"@[0]);
        assert("has_required_formats"@[0] != "format_exists_server"@[0]);
        assert("exists_locally"@[0] != "validate_config"@[0]);
        assert("exists_on_server"@[0] != "validate_config"@[0]);
    }
    assert forall|i: int| 0 <= i < v@.len() implies arg_descriptions((#[trigger] v@[i]).args@)
        == tool_arg_descriptions(v@[i].tool) by {
        assert(arg_descriptions(v@[i].args@) =~= tool_arg_descriptions(v@[i].tool));
    }
    assert forall|i: int| 0 <= i < v@.len() implies args_view((#[trigger] v@[i]).args@) == tool_args(v@[i].tool) by {
        assert(args_view(v@[i].args@) =~= tool_args(v@[i].tool));
    }
    v
}

/// A server lookup needs a part number above zero.
pub fn check_part_id(part_id: u32) -> (r: Result<u32, String>)
    ensures
        part_id > 0 ==> r == Ok::<u32, String>(part_id),
        part_id == 0 ==> (r matches Err(m) && m@ == "part_id must be greater than zero"@),
{
    if part_id == 0 {
        return Err(owned("part_id must be greater than zero"));
    }
    Ok(part_id)
}

// ---------------------------------------------------------------------------
// Which configuration file a request reads
// ---------------------------------------------------------------------------

/// The configuration file a request names, given how the name it gave
/// expanded (`None` when it gave none): that expansion, or the message of
/// its failure; else the server's own file; else `None`, and the usual
/// places are searched.
pub open spec fn config_path_by(
    requested: Option<Result<String, ExpandFailure>>,
    default: Option<String>,
    r: Result<Option<String>, String>,
) -> bool {
    match requested {
        Some(Ok(p)) => r matches Ok(Some(q)) && q@ == p@,
        Some(Err(f)) => r matches Err(m) && m@ == f.message@,
        None => r matches Ok(o) && opt_view(o) == opt_view(default),
    }
}

/// The configuration file a request names, given how the name it gave
/// expanded (see `config_path_by`).
pub fn config_path_from(requested: Option<Result<String, ExpandFailure>>, default: &Option<String>) -> (r: Result<
    Option<String>,
    String,
>)
    ensures
        config_path_by(requested, *default, r),
{
    let ghost req = requested;
    let r = match requested {
        Some(Ok(p)) => Ok(Some(p)),
        Some(Err(f)) => Err(f.message),
        None => match default {
            Some(d) => Ok(Some(owned(d.as_str()))),
            None => Ok(None),
        },
    };
    assert(config_path_by(req, *default, r));
    r
}

/// The configuration file a request names, as far as it is decided without
/// searching: the file the request names, expanded through the
/// environment; else the server's own; else `None`, and the usual places
/// are searched. A name that cannot be expanded gives the message of the
/// expansion.
pub fn resolve_config_path(requested: Option<&str>, default: &Option<String>) -> (r: Result<
    Option<String>,
    String,
>)
    ensures
        exists|x: Option<Result<String, ExpandFailure>>|
            #![trigger config_path_by(x, *default, r)]
            (match requested {
                Some(q) => x matches Some(o) && expansion_of(q@, o),
                None => x is None,
            }) && config_path_by(x, *default, r),
        requested matches Some(q) ==> (r is Err ==> q@.contains('$')) && (r matches Ok(o) ==> o is Some),
        requested is Some && expands_to_itself(requested.unwrap()@) ==> (r matches Ok(Some(p)) && p@
            == requested.unwrap()@),
        requested is None ==> (r matches Ok(o) && opt_view(o) == opt_view(*default)),
{
    let expanded = match requested {
        Some(q) => Some(expand_full(q)),
        None => None,
    };
    let ghost x = expanded;
    let r = config_path_from(expanded, default);
    assert(config_path_by(x, *default, r));
    r
}

/// The configuration file the search found, or the message that there is
/// none.
pub fn found_config_path(found: Option<String>) -> (r: Result<String, String>)
    ensures
        found matches Some(p) ==> r == Ok::<String, String>(p),
        found is None ==> (r matches Err(m) && m@ == "No LibraryLoader.toml found"@),
{
    match found {
        Some(p) => Ok(p),
        None => Err(owned("No LibraryLoader.toml found")),
    }
}

// ---------------------------------------------------------------------------
// Summary of a configuration
// ---------------------------------------------------------------------------

/// A path that points into the QuartzPulse library tree.
pub open spec fn names_quartzpulse(path: Seq<char>) -> bool {
    contains_seq(path, "Documents/QuartzPulse"@) || contains_seq(path, "QuartzPulse"@)
}

/// Whether a configured path points into the QuartzPulse library tree.
pub fn value_contains_quartzpulse(value: Option<&str>) -> (r: bool)
    ensures
        r == match value {
            Some(p) => names_quartzpulse(p@),
            None => false,
        },
{
    match value {
        Some(p) => {
            let v = chars_of(p);
            contains_chars(&v, &chars_of("Documents/QuartzPulse")) || contains_chars(&v, &chars_of("QuartzPulse"))
        },
        None => false,
    }
}

/// A format whose output or model directory points into the QuartzPulse
/// library tree.
pub open spec fn format_in_quartzpulse(f: Format) -> bool {
    names_quartzpulse(f.output_path@) || match f.model_output_path {
        Some(p) => names_quartzpulse(p@),
        None => false,
    }
}

/// The number of formats that make KiCad libraries.
pub open spec fn kicad_count(formats: Seq<(String, Format)>) -> nat
    decreases formats.len(),
{
    if formats.len() == 0 {
        0
    } else {
        kicad_count(formats.drop_last()) + if formats.last().1.format == ECAD::KiCad {
            1nat
        } else {
            0nat
        }
    }
}

/// The number of formats whose directories point into the QuartzPulse tree.
pub open spec fn quartzpulse_count(formats: Seq<(String, Format)>) -> nat
    decreases formats.len(),
{
    if formats.len() == 0 {
        0
    } else {
        quartzpulse_count(formats.drop_last()) + if format_in_quartzpulse(formats.last().1) {
            1nat
        } else {
            0nat
        }
    }
}

proof fn lemma_counts_bounded(formats: Seq<(String, Format)>)
    ensures
        kicad_count(formats) <= formats.len(),
        quartzpulse_count(formats) <= formats.len(),
    decreases formats.len(),
{
    if formats.len() > 0 {
        lemma_counts_bounded(formats.drop_last());
    }
}

/// The number of configured formats that make KiCad libraries.
pub fn kicad_format_count(config: &Config) -> (r: usize)
    ensures
        r == kicad_count(config.formats@),
{
    let mut n: usize = 0;
    let mut i: usize = 0;
    while i < config.formats.len()
        invariant
            i <= config.formats@.len(),
            n == kicad_count(config.formats@.take(i as int)),
        decreases config.formats@.len() - i,
    {
        assert(config.formats@.take(i + 1).drop_last() =~= config.formats@.take(i as int));
        proof {
            lemma_counts_bounded(config.formats@.take(i as int));
        }
        if config.formats[i].1.format == ECAD::KiCad {
            n = n + 1;
        }
        i += 1;
    }
    assert(config.formats@.take(config.formats@.len() as int) =~= config.formats@);
    n
}

/// The number of configured formats whose output or model directory points
/// into the QuartzPulse library tree.
pub fn quartzpulse_path_count(config: &Config) -> (r: usize)
    ensures
        r == quartzpulse_count(config.formats@),
{
    let mut n: usize = 0;
    let mut i: usize = 0;
    while i < config.formats.len()
        invariant
            i <= config.formats@.len(),
            n == quartzpulse_count(config.formats@.take(i as int)),
        decreases config.formats@.len() - i,
    {
        assert(config.formats@.take(i + 1).drop_last() =~= config.formats@.take(i as int));
        proof {
            lemma_counts_bounded(config.formats@.take(i as int));
        }
        let f = &config.formats[i].1;
        let model = match &f.model_output_path {
            Some(p) => value_contains_quartzpulse(Some(p.as_str())),
            None => false,
        };
        if value_contains_quartzpulse(Some(f.output_path.as_str())) || model {
            n = n + 1;
        }
        i += 1;
    }
    assert(config.formats@.take(config.formats@.len() as int) =~= config.formats@);
    n
}

/// The names of the configured formats, sorted, each once: the order in
/// which formats are summarised.
pub fn sorted_format_names(config: &Config) -> (r: Vec<String>)
    ensures
        strictly_sorted(r.deep_view()),
        forall|n: Seq<char>|
            r.deep_view().contains(n) <==> exists|i: int|
                0 <= i < config.formats@.len() && #[trigger] config.formats@[i].0@ == n,
        config.names_unique() ==> r@.len() == config.formats@.len(),
{
    let mut names: Vec<String> = Vec::new();
    let mut i: usize = 0;
    while i < config.formats.len()
        invariant
            i <= config.formats@.len(),
            strictly_sorted(names.deep_view()),
            forall|n: Seq<char>|
                names.deep_view().to_set().contains(n) <==> exists|j: int|
                    0 <= j < i && #[trigger] config.formats@[j].0@ == n,
        decreases config.formats@.len() - i,
    {
        let ghost before = names.deep_view().to_set();
        insert_text(&mut names, owned(config.formats[i].0.as_str()));
        assert forall|n: Seq<char>|
            names.deep_view().to_set().contains(n) <==> exists|j: int|
                0 <= j < i + 1 && #[trigger] config.formats@[j].0@ == n by {
            if n == config.formats@[i as int].0@ {
                assert(config.formats@[i as int].0@ == n);
            }
            if exists|j: int| 0 <= j < i + 1 && #[trigger] config.formats@[j].0@ == n {
                let j = choose|j: int| 0 <= j < i + 1 && #[trigger] config.formats@[j].0@ == n;
                if j < i {
                    assert(before.contains(n));
                }
            }
        }
        i += 1;
    }
    assert forall|n: Seq<char>| names.deep_view().contains(n) <==> names.deep_view().to_set().contains(n) by {}
    proof {
        if config.names_unique() {
            let d = names.deep_view();
            let fnames = format_names(config.formats@);
            assert(d.no_duplicates()) by {
                assert forall|i: int, j: int| 0 <= i < d.len() && 0 <= j < d.len() && i != j implies d[i] != d[j] by {
                    if d[i] == d[j] {
                        if i < j {
                            assert(text_lt(d[i], d[j]));
                        } else {
                            assert(text_lt(d[j], d[i]));
                        }
                        lemma_text_lt_irreflexive(d[i]);
                    }
                }
            }
            assert forall|n: Seq<char>| d.to_set().contains(n) <==> fnames.to_set().contains(n) by {
                if d.to_set().contains(n) {
                    let i = choose|i: int| 0 <= i < config.formats@.len() && #[trigger] config.formats@[i].0@ == n;
                    assert(fnames[i] == n);
                }
                if fnames.to_set().contains(n) {
                    let i = choose|i: int| 0 <= i < fnames.len() && fnames[i] == n;
                    assert(config.formats@[i].0@ == n);
                }
            }
            assert(d.to_set() =~= fnames.to_set());
            d.unique_seq_to_set();
            fnames.unique_seq_to_set();
        }
    }
    names
}

} // verus!
