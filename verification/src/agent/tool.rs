//! Tool results, argument validation and the permission gate's verdict.

use vstd::prelude::*;

use crate::ai::types::{result_blocks_of, MediaView, ToolResultContent};
use crate::json::{field, holds, items_model, lacks, lemma_items, Json, JsonView};
use crate::text;

verus! {

/// How tool calls within a single assistant message are executed.
#[derive(Debug, Clone, Copy, PartialEq, Eq, Structural)]
pub enum ExecutionMode {
    /// Tool calls run one at a time.
    Sequential,
    /// Tool calls run concurrently (default).
    Parallel,
}

impl Default for ExecutionMode {
    fn default() -> (r: ExecutionMode)
        ensures
            r == ExecutionMode::Parallel,
    {
        ExecutionMode::Parallel
    }
}

/// The structured result of executing a tool. `content` is what the model sees.
#[derive(Debug)]
pub struct ToolResult {
    pub content: Vec<ToolResultContent>,
    /// Auxiliary payload attached by some tools. Not sent to the model.
    pub details: Json,
    pub terminate: bool,
}

pub ghost struct ResultView {
    pub content: Seq<MediaView>,
    pub details: JsonView,
    pub terminate: bool,
}

impl View for ToolResult {
    type V = ResultView;

    open spec fn view(&self) -> ResultView {
        ResultView {
            content: result_blocks_of(self.content@),
            details: self.details@,
            terminate: self.terminate,
        }
    }
}

/// A result that is one text.
pub open spec fn text_result(s: Seq<char>) -> ResultView {
    ResultView { content: seq![MediaView::Text(s)], details: JsonView::Null, terminate: false }
}

impl ToolResult {
    pub fn text(s: &str) -> (r: ToolResult)
        ensures
            r@ == text_result(s@),
    {
        let mut content: Vec<ToolResultContent> = Vec::new();
        content.push(ToolResultContent::text(s));
        assert(result_blocks_of(content@) =~= seq![MediaView::Text(s@)]);
        ToolResult { content, details: Json::Null, terminate: false }
    }

    pub fn error(message: &str) -> (r: ToolResult)
        ensures
            r@ == text_result(message@),
    {
        ToolResult::text(message)
    }

    pub fn with_details(self, details: Json) -> (r: ToolResult)
        ensures
            r@ == (ResultView { details: details@, ..self@ }),
    {
        ToolResult { content: self.content, details, terminate: self.terminate }
    }

    /// An image and the note that goes with it.
    pub fn image(note: &str, data: String, mime_type: &str) -> (r: ToolResult)
        ensures
            r@ == (ResultView {
                content: seq![MediaView::Text(note@), MediaView::Image(data@, mime_type@)],
                details: JsonView::Null,
                terminate: false,
            }),
    {
        let ghost held = data@;
        let mut content: Vec<ToolResultContent> = Vec::new();
        content.push(ToolResultContent::text(note));
        content.push(ToolResultContent::Image { data, mime_type: mime_type.to_string() });
        assert(result_blocks_of(content@) =~= seq![
            MediaView::Text(note@),
            MediaView::Image(held, mime_type@),
        ]);
        ToolResult { content, details: Json::Null, terminate: false }
    }
}

/// Is the field there, and not null?
pub open spec fn present(args: JsonView, key: Seq<char>) -> bool {
    field(args, key) matches Some(v) && !(v is Null)
}

/// The first required name from `i` on that the arguments lack. Entries of the
/// list that are no strings ask for nothing.
pub open spec fn first_missing(required: Seq<JsonView>, args: JsonView, i: int) -> Option<Seq<char>>
    decreases required.len() - i,
{
    if i < 0 || i >= required.len() {
        None
    } else {
        match required[i] {
            JsonView::Str(key) => if present(args, key) {
                first_missing(required, args, i + 1)
            } else {
                Some(key)
            },
            _ => first_missing(required, args, i + 1),
        }
    }
}

/// Why arguments are refused, if they are.
pub open spec fn refusal(schema: JsonView, args: JsonView) -> Option<Seq<char>> {
    match field(schema, "required"@) {
        Some(JsonView::Arr(required)) => if !(args is Obj) {
            Some("tool arguments must be an object"@)
        } else {
            match first_missing(required, args, 0) {
                Some(key) => Some("missing required parameter: "@ + key),
                None => None,
            }
        },
        _ => None,
    }
}

/// Lightweight required-field validation against a JSON schema: the keys listed
/// in `required` must be present (non-null) before a tool runs.
pub fn validate_required(schema: &Json, args: &Json) -> (r: Result<(), String>)
    ensures
        match r {
            Ok(_) => refusal(schema@, args@) is None,
            Err(e) => refusal(schema@, args@) == Some(e@),
        },
{
    let required: &Vec<Json> = match schema.get("required") {
        Some(v) => match v.as_array() {
            Some(a) => a,
            None => {
                return Ok(());
            },
        },
        None => {
            return Ok(());
        },
    };
    if !args.is_object() {
        return Err("tool arguments must be an object".to_string());
    }
    let ghost all = items_model(required@);
    proof {
        lemma_items(required@);
    }
    let mut i: usize = 0;
    while i < required.len()
        invariant
            i <= required@.len(),
            all == items_model(required@),
            all.len() == required@.len(),
            forall|k: int| 0 <= k < required@.len() ==> #[trigger] all[k] == required@[k]@,
            field(schema@, "required"@) == Some(JsonView::Arr(all)),
            args@ is Obj,
            first_missing(all, args@, 0) == first_missing(all, args@, i as int),
        decreases required@.len() - i,
    {
        assert(all[i as int] == required@[i as int]@);
        if let Some(key) = required[i].as_str() {
            let there: bool = match args.get(key) {
                Some(v) => !v.is_null(),
                None => false,
            };
            if !there {
                let mut message: String = "missing required parameter: ".to_string();
                message.append(key);
                return Err(message);
            }
        }
        i += 1;
    }
    Ok(())
}

/// Context handed to a gate before a tool runs.
pub struct ToolCallContext<'a> {
    pub tool_call_id: &'a str,
    pub tool_name: &'a str,
    pub args: &'a Json,
}

/// Result of a check before a tool call.
#[derive(Debug)]
pub struct BeforeToolCallResult {
    pub block: bool,
    pub reason: Option<String>,
}

impl BeforeToolCallResult {
    pub fn allow() -> (r: BeforeToolCallResult)
        ensures
            !r.block,
            r.reason is None,
    {
        BeforeToolCallResult { block: false, reason: None }
    }

    pub fn block(reason: &str) -> (r: BeforeToolCallResult)
        ensures
            r.block,
            text::opt_view(r.reason) == Some(reason@),
    {
        BeforeToolCallResult { block: true, reason: Some(reason.to_string()) }
    }
}

// ---------------------------------------------------------------------------
// Laws
// ---------------------------------------------------------------------------

/// The argument `key` is given: it is there, and not null.
pub open spec fn is_given(args: JsonView, key: Seq<char>) -> bool {
    match args {
        JsonView::Obj(m) => m.dom().contains(key) && m[key] != JsonView::Null,
        _ => false,
    }
}

proof fn lemma_first_missing(required: Seq<JsonView>, args: JsonView, from: int)
    requires
        0 <= from <= required.len(),
    ensures
        match first_missing(required, args, from) {
            Some(key) => exists|i: int|
                {
                    &&& from <= i < required.len()
                    &&& #[trigger] required[i] == JsonView::Str(key)
                    &&& !is_given(args, key)
                    &&& forall|k: int|
                        from <= k < i ==> (#[trigger] required[k] matches JsonView::Str(s)
                            ==> is_given(args, s))
                },
            None => forall|k: int|
                from <= k < required.len() ==> (#[trigger] required[k] matches JsonView::Str(s)
                    ==> is_given(args, s)),
        },
    decreases required.len() - from,
{
    if from < required.len() {
        match required[from] {
            JsonView::Str(key) => {
                assert(present(args, key) == is_given(args, key));
                if is_given(args, key) {
                    lemma_first_missing(required, args, from + 1);
                }
            },
            _ => {
                lemma_first_missing(required, args, from + 1);
            },
        }
    }
}

/// Arguments are accepted just where they are an object with every required key
/// given, and refused for the first key that is not; a schema that requires
/// nothing accepts all.
pub proof fn law_arguments_must_give_what_is_required(
    schema: JsonView,
    args: JsonView,
    required: Seq<JsonView>,
)
    requires
        holds(schema, "required"@, JsonView::Arr(required)),
    ensures
        refusal(schema, args) is None <==> args is Obj && forall|k: int|
            0 <= k < required.len() ==> (#[trigger] required[k] matches JsonView::Str(s)
                ==> is_given(args, s)),
        !(args is Obj) ==> refusal(schema, args) == Some("tool arguments must be an object"@),
        args is Obj && refusal(schema, args) is Some ==> exists|i: int|
            {
                &&& 0 <= i < required.len()
                &&& #[trigger] required[i] is Str
                &&& !is_given(args, required[i]->Str_0)
                &&& refusal(schema, args) == Some(
                    "missing required parameter: "@ + required[i]->Str_0,
                )
                &&& forall|k: int|
                    0 <= k < i ==> (#[trigger] required[k] matches JsonView::Str(s) ==> is_given(
                        args,
                        s,
                    ))
            },
{
    lemma_first_missing(required, args, 0);
}

/// A schema without a list of required keys accepts everything.
pub proof fn law_nothing_required_is_nothing_refused(schema: JsonView, args: JsonView)
    requires
        lacks(schema, "required"@),
    ensures
        refusal(schema, args) is None,
{
}

/// A plain result is one text, with no details, and does not end the run.
pub proof fn law_a_plain_result_is_its_text(s: Seq<char>)
    ensures
        text_result(s).content == seq![MediaView::Text(s)],
        text_result(s).details == JsonView::Null,
        !text_result(s).terminate,
{
}

} // verus!
