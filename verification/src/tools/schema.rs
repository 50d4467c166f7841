//! The schemas that describe the tools to the model.

use vstd::prelude::*;

use crate::ai::types::{ToolSchema, ToolSchemaView};
use crate::json::{holds, items_model, lacks, lemma_items_push, Json, JsonView};

verus! {

/// A parameter: its type and what it is for.
pub open spec fn parameter(kind: Seq<char>, about: Seq<char>) -> JsonView {
    JsonView::Obj(
        Map::empty().insert("type"@, JsonView::Str(kind)).insert(
            "description"@,
            JsonView::Str(about),
        ),
    )
}

fn make_parameter(kind: &str, about: &str) -> (r: Json)
    ensures
        r@ == parameter(kind@, about@),
{
    Json::object().with("type", Json::str(kind)).with("description", Json::str(about))
}

/// A list of names.
pub open spec fn names(v: Seq<Seq<char>>) -> JsonView {
    JsonView::Arr(v.map_values(|n: Seq<char>| JsonView::Str(n)))
}

fn one_name(a: &str) -> (r: Json)
    ensures
        r@ == names(seq![a@]),
{
    let mut v: Vec<Json> = Vec::new();
    let x: Json = Json::str(a);
    proof {
        lemma_items_push(v@, x);
        assert(items_model(v@).push(x@) =~= seq![a@].map_values(
            |n: Seq<char>| JsonView::Str(n),
        ));
    }
    v.push(x);
    Json::Arr(v)
}

fn two_names(a: &str, b: &str) -> (r: Json)
    ensures
        r@ == names(seq![a@, b@]),
{
    let mut v: Vec<Json> = Vec::new();
    let x: Json = Json::str(a);
    let y: Json = Json::str(b);
    proof {
        lemma_items_push(v@, x);
        lemma_items_push(v@.push(x), y);
        assert(items_model(v@).push(x@).push(y@) =~= seq![a@, b@].map_values(
            |n: Seq<char>| JsonView::Str(n),
        ));
    }
    v.push(x);
    v.push(y);
    Json::Arr(v)
}

/// An object with the given properties.
pub open spec fn object_of(properties: Map<Seq<char>, JsonView>) -> JsonView {
    JsonView::Obj(
        Map::empty().insert("type"@, JsonView::Str("object"@)).insert(
            "properties"@,
            JsonView::Obj(properties),
        ),
    )
}

/// An object some of whose properties must be there.
pub open spec fn object_requiring(
    properties: Map<Seq<char>, JsonView>,
    required: JsonView,
) -> JsonView {
    JsonView::Obj(
        Map::empty().insert("type"@, JsonView::Str("object"@)).insert(
            "properties"@,
            JsonView::Obj(properties),
        ).insert("required"@, required),
    )
}

fn make_object(properties: Json, required: Option<Json>) -> (r: Json)
    requires
        properties@ is Obj,
    ensures
        r@ == (match required {
            Some(q) => object_requiring(properties@->Obj_0, q@),
            None => object_of(properties@->Obj_0),
        }),
{
    let base: Json = Json::object().with("type", Json::str("object")).with(
        "properties",
        properties,
    );
    match required {
        Some(q) => base.with("required", q),
        None => base,
    }
}

pub open spec fn read_properties() -> Map<Seq<char>, JsonView> {
    Map::empty().insert(
        "path"@,
        parameter("string"@, "Path to the file to read (relative or absolute)"@),
    ).insert(
        "offset"@,
        parameter("number"@, "Line number to start reading from (1-indexed)"@),
    ).insert("limit"@, parameter("number"@, "Maximum number of lines to read"@))
}

/// The `read` tool.
pub open spec fn read_tool() -> ToolSchemaView {
    ToolSchemaView {
        name: "read"@,
        description:
            "Read the contents of a file. Supports text files and images (jpg, png, gif, webp); images are sent as attachments. For text files, output is truncated to 2000 lines or 50KB (whichever is hit first). Use offset/limit for large files; continue with offset until complete."@,
        input_schema: object_requiring(read_properties(), names(seq!["path"@])),
    }
}

/// The schema of the `read` tool.
pub fn read_schema() -> (r: ToolSchema)
    ensures
        r@ == read_tool(),
{
    let properties: Json = Json::object().with(
        "path",
        make_parameter("string", "Path to the file to read (relative or absolute)"),
    ).with(
        "offset",
        make_parameter("number", "Line number to start reading from (1-indexed)"),
    ).with("limit", make_parameter("number", "Maximum number of lines to read"));
    ToolSchema {
        name: "read".to_string(),
        description: "Read the contents of a file. Supports text files and images (jpg, png, gif, webp); images are sent as attachments. For text files, output is truncated to 2000 lines or 50KB (whichever is hit first). Use offset/limit for large files; continue with offset until complete.".to_string(),
        input_schema: make_object(properties, Some(one_name("path"))),
    }
}

pub open spec fn write_properties() -> Map<Seq<char>, JsonView> {
    Map::empty().insert(
        "path"@,
        parameter("string"@, "Path to the file to write (relative or absolute)"@),
    ).insert("content"@, parameter("string"@, "Content to write to the file"@))
}

/// The `write` tool.
pub open spec fn write_tool() -> ToolSchemaView {
    ToolSchemaView {
        name: "write"@,
        description:
            "Write content to a file. Creates the file if it doesn't exist, overwrites if it does. Automatically creates parent directories."@,
        input_schema: object_requiring(write_properties(), names(seq!["path"@, "content"@])),
    }
}

/// The schema of the `write` tool.
pub fn write_schema() -> (r: ToolSchema)
    ensures
        r@ == write_tool(),
{
    let properties: Json = Json::object().with(
        "path",
        make_parameter("string", "Path to the file to write (relative or absolute)"),
    ).with("content", make_parameter("string", "Content to write to the file"));
    ToolSchema {
        name: "write".to_string(),
        description: "Write content to a file. Creates the file if it doesn't exist, overwrites if it does. Automatically creates parent directories.".to_string(),
        input_schema: make_object(properties, Some(two_names("path", "content"))),
    }
}

/// One replacement among the edits.
pub open spec fn edit_item() -> JsonView {
    JsonView::Obj(
        Map::empty().insert("type"@, JsonView::Str("object"@)).insert(
            "properties"@,
            JsonView::Obj(
                Map::empty().insert(
                    "oldText"@,
                    parameter("string"@, "Exact text to replace; must be unique in the file"@),
                ).insert("newText"@, parameter("string"@, "Replacement text"@)),
            ),
        ).insert("required"@, names(seq!["oldText"@, "newText"@])).insert(
            "additionalProperties"@,
            JsonView::Bool(false),
        ),
    )
}

pub open spec fn edit_properties() -> Map<Seq<char>, JsonView> {
    Map::empty().insert(
        "path"@,
        parameter("string"@, "Path to the file to edit (relative or absolute)"@),
    ).insert(
        "edits"@,
        JsonView::Obj(
            Map::empty().insert("type"@, JsonView::Str("array"@)).insert(
                "description"@,
                JsonView::Str(
                    "One or more targeted replacements, each matched against the original file (not incrementally). Non-overlapping."@,
                ),
            ).insert("items"@, edit_item()),
        ),
    )
}

/// The `edit` tool.
pub open spec fn edit_tool() -> ToolSchemaView {
    ToolSchemaView {
        name: "edit"@,
        description:
            "Edit a single file using exact text replacement. Every edits[].oldText must match a unique, non-overlapping region of the original file. If two changes affect the same block or nearby lines, merge them into one edit. Do not include large unchanged regions just to connect distant changes."@,
        input_schema: object_requiring(edit_properties(), names(seq!["path"@, "edits"@])),
    }
}

/// The schema of the `edit` tool.
pub fn edit_schema() -> (r: ToolSchema)
    ensures
        r@ == edit_tool(),
{
    let texts: Json = Json::object().with(
        "oldText",
        make_parameter("string", "Exact text to replace; must be unique in the file"),
    ).with("newText", make_parameter("string", "Replacement text"));
    let item: Json = make_object(texts, Some(two_names("oldText", "newText"))).with(
        "additionalProperties",
        Json::Bool(false),
    );
    let edits: Json = Json::object().with("type", Json::str("array")).with(
        "description",
        Json::str(
            "One or more targeted replacements, each matched against the original file (not incrementally). Non-overlapping.",
        ),
    ).with("items", item);
    let properties: Json = Json::object().with(
        "path",
        make_parameter("string", "Path to the file to edit (relative or absolute)"),
    ).with("edits", edits);
    ToolSchema {
        name: "edit".to_string(),
        description: "Edit a single file using exact text replacement. Every edits[].oldText must match a unique, non-overlapping region of the original file. If two changes affect the same block or nearby lines, merge them into one edit. Do not include large unchanged regions just to connect distant changes.".to_string(),
        input_schema: make_object(properties, Some(two_names("path", "edits"))),
    }
}

pub open spec fn grep_properties() -> Map<Seq<char>, JsonView> {
    Map::empty().insert(
        "pattern"@,
        parameter("string"@, "Search pattern (regex or literal string)"@),
    ).insert(
        "path"@,
        parameter("string"@, "Directory or file to search (default: current directory)"@),
    ).insert(
        "glob"@,
        parameter("string"@, "Filter files by glob pattern, e.g. '*.ts' or '**/*.spec.ts'"@),
    ).insert(
        "ignoreCase"@,
        parameter("boolean"@, "Case-insensitive search (default: false)"@),
    ).insert(
        "literal"@,
        parameter(
            "boolean"@,
            "Treat pattern as a literal string instead of regex (default: false)"@,
        ),
    ).insert(
        "context"@,
        parameter(
            "number"@,
            "Number of lines to show before and after each match (default: 0)"@,
        ),
    ).insert(
        "limit"@,
        parameter("number"@, "Maximum number of matches to return (default: 100)"@),
    )
}

/// The `grep` tool.
pub open spec fn grep_tool() -> ToolSchemaView {
    ToolSchemaView {
        name: "grep"@,
        description:
            "Search file contents for a pattern. Returns matching lines with file paths and line numbers. Respects .gitignore. Output is truncated to 100 matches or 50KB (whichever is hit first). Long lines are truncated to 500 chars."@,
        input_schema: object_requiring(grep_properties(), names(seq!["pattern"@])),
    }
}

/// The schema of the `grep` tool.
pub fn grep_schema() -> (r: ToolSchema)
    ensures
        r@ == grep_tool(),
{
    let properties: Json = Json::object().with(
        "pattern",
        make_parameter("string", "Search pattern (regex or literal string)"),
    ).with(
        "path",
        make_parameter("string", "Directory or file to search (default: current directory)"),
    ).with(
        "glob",
        make_parameter("string", "Filter files by glob pattern, e.g. '*.ts' or '**/*.spec.ts'"),
    ).with(
        "ignoreCase",
        make_parameter("boolean", "Case-insensitive search (default: false)"),
    ).with(
        "literal",
        make_parameter(
            "boolean",
            "Treat pattern as a literal string instead of regex (default: false)",
        ),
    ).with(
        "context",
        make_parameter(
            "number",
            "Number of lines to show before and after each match (default: 0)",
        ),
    ).with(
        "limit",
        make_parameter("number", "Maximum number of matches to return (default: 100)"),
    );
    ToolSchema {
        name: "grep".to_string(),
        description: "Search file contents for a pattern. Returns matching lines with file paths and line numbers. Respects .gitignore. Output is truncated to 100 matches or 50KB (whichever is hit first). Long lines are truncated to 500 chars.".to_string(),
        input_schema: make_object(properties, Some(one_name("pattern"))),
    }
}

pub open spec fn find_properties() -> Map<Seq<char>, JsonView> {
    Map::empty().insert(
        "pattern"@,
        parameter(
            "string"@,
            "Glob pattern to match files, e.g. '*.ts', '**/*.json', or 'src/**/*.spec.ts'"@,
        ),
    ).insert(
        "path"@,
        parameter("string"@, "Directory to search in (default: current directory)"@),
    ).insert("limit"@, parameter("number"@, "Maximum number of results (default: 1000)"@))
}

/// The `find` tool.
pub open spec fn find_tool() -> ToolSchemaView {
    ToolSchemaView {
        name: "find"@,
        description:
            "Search for files by glob pattern. Returns matching file paths relative to the search directory. Respects .gitignore. Output is truncated to 1000 results or 50KB (whichever is hit first)."@,
        input_schema: object_requiring(find_properties(), names(seq!["pattern"@])),
    }
}

/// The schema of the `find` tool.
pub fn find_schema() -> (r: ToolSchema)
    ensures
        r@ == find_tool(),
{
    let properties: Json = Json::object().with(
        "pattern",
        make_parameter(
            "string",
            "Glob pattern to match files, e.g. '*.ts', '**/*.json', or 'src/**/*.spec.ts'",
        ),
    ).with(
        "path",
        make_parameter("string", "Directory to search in (default: current directory)"),
    ).with("limit", make_parameter("number", "Maximum number of results (default: 1000)"));
    ToolSchema {
        name: "find".to_string(),
        description: "Search for files by glob pattern. Returns matching file paths relative to the search directory. Respects .gitignore. Output is truncated to 1000 results or 50KB (whichever is hit first).".to_string(),
        input_schema: make_object(properties, Some(one_name("pattern"))),
    }
}

pub open spec fn ls_properties() -> Map<Seq<char>, JsonView> {
    Map::empty().insert(
        "path"@,
        parameter("string"@, "Directory to list (default: current directory)"@),
    ).insert(
        "limit"@,
        parameter("number"@, "Maximum number of entries to return (default: 500)"@),
    )
}

/// The `ls` tool.
pub open spec fn ls_tool() -> ToolSchemaView {
    ToolSchemaView {
        name: "ls"@,
        description:
            "List directory contents. Returns entries sorted alphabetically, with '/' suffix for directories. Includes dotfiles. Output is truncated to 500 entries or 50KB (whichever is hit first)."@,
        input_schema: object_of(ls_properties()),
    }
}

/// The schema of the `ls` tool.
pub fn ls_schema() -> (r: ToolSchema)
    ensures
        r@ == ls_tool(),
{
    let properties: Json = Json::object().with(
        "path",
        make_parameter("string", "Directory to list (default: current directory)"),
    ).with("limit", make_parameter("number", "Maximum number of entries to return (default: 500)"));
    ToolSchema {
        name: "ls".to_string(),
        description: "List directory contents. Returns entries sorted alphabetically, with '/' suffix for directories. Includes dotfiles. Output is truncated to 500 entries or 50KB (whichever is hit first).".to_string(),
        input_schema: make_object(properties, None),
    }
}

pub open spec fn skill_properties() -> Map<Seq<char>, JsonView> {
    Map::empty().insert(
        "skill"@,
        parameter("string"@, "Name of the skill to invoke"@),
    ).insert("args"@, parameter("string"@, "Optional arguments to pass to the skill"@))
}

/// The parameters of the `skill` tool.
pub fn skill_parameters() -> (r: Json)
    ensures
        r@ == object_requiring(skill_properties(), names(seq!["skill"@])),
{
    let properties: Json = Json::object().with(
        "skill",
        make_parameter("string", "Name of the skill to invoke"),
    ).with("args", make_parameter("string", "Optional arguments to pass to the skill"));
    make_object(properties, Some(one_name("skill")))
}

/// The tool takes a parameter of this name and type.
pub open spec fn takes(schema: JsonView, name: Seq<char>, kind: Seq<char>) -> bool {
    exists|properties: JsonView, p: JsonView|
        #[trigger] holds(schema, "properties"@, properties) && #[trigger] holds(
            properties,
            name,
            p,
        ) && holds(p, "type"@, JsonView::Str(kind))
}

/// The tool needs just these parameters.
pub open spec fn needs(schema: JsonView, v: Seq<Seq<char>>) -> bool {
    holds(
        schema,
        "required"@,
        JsonView::Arr(Seq::new(v.len(), |i: int| JsonView::Str(v[i]))),
    )
}

proof fn lemma_takes(schema: JsonView, properties: JsonView, p: JsonView, name: Seq<char>, kind: Seq<char>)
    requires
        holds(schema, "properties"@, properties),
        holds(properties, name, p),
        holds(p, "type"@, JsonView::Str(kind)),
    ensures
        takes(schema, name, kind),
{
}

/// The keys of schemas all differ where they stand in one object.
proof fn lemma_keys_differ()
    ensures
        "type"@ != "description"@,
        "type"@ != "items"@,
        "description"@ != "items"@,
        "type"@ != "properties"@,
        "type"@ != "required"@,
        "type"@ != "additionalProperties"@,
        "properties"@ != "required"@,
        "properties"@ != "additionalProperties"@,
        "required"@ != "additionalProperties"@,
        "path"@ != "offset"@,
        "path"@ != "limit"@,
        "offset"@ != "limit"@,
        "path"@ != "content"@,
        "path"@ != "edits"@,
        "pattern"@ != "path"@,
        "pattern"@ != "glob"@,
        "pattern"@ != "ignoreCase"@,
        "pattern"@ != "literal"@,
        "pattern"@ != "context"@,
        "pattern"@ != "limit"@,
        "path"@ != "glob"@,
        "path"@ != "ignoreCase"@,
        "path"@ != "literal"@,
        "path"@ != "context"@,
        "glob"@ != "ignoreCase"@,
        "glob"@ != "literal"@,
        "glob"@ != "context"@,
        "glob"@ != "limit"@,
        "ignoreCase"@ != "literal"@,
        "ignoreCase"@ != "context"@,
        "ignoreCase"@ != "limit"@,
        "literal"@ != "context"@,
        "literal"@ != "limit"@,
        "context"@ != "limit"@,
{
    reveal_strlit("additionalProperties");
    reveal_strlit("content");
    reveal_strlit("context");
    reveal_strlit("description");
    reveal_strlit("edits");
    reveal_strlit("glob");
    reveal_strlit("ignoreCase");
    reveal_strlit("items");
    reveal_strlit("limit");
    reveal_strlit("literal");
    reveal_strlit("offset");
    reveal_strlit("path");
    reveal_strlit("pattern");
    reveal_strlit("properties");
    reveal_strlit("required");
    reveal_strlit("type");
    assert("type"@.len() != "description"@.len());
    assert("type"@.len() != "items"@.len());
    assert("description"@.len() != "items"@.len());
    assert("type"@.len() != "properties"@.len());
    assert("type"@.len() != "required"@.len());
    assert("type"@.len() != "additionalProperties"@.len());
    assert("properties"@.len() != "required"@.len());
    assert("properties"@.len() != "additionalProperties"@.len());
    assert("required"@.len() != "additionalProperties"@.len());
    assert("path"@.len() != "offset"@.len());
    assert("path"@.len() != "limit"@.len());
    assert("offset"@.len() != "limit"@.len());
    assert("path"@.len() != "content"@.len());
    assert("path"@.len() != "edits"@.len());
    assert("pattern"@.len() != "path"@.len());
    assert("pattern"@.len() != "glob"@.len());
    assert("pattern"@.len() != "ignoreCase"@.len());
    assert("pattern"@[0] != "literal"@[0]);
    assert("pattern"@[0] != "context"@[0]);
    assert("pattern"@.len() != "limit"@.len());
    assert("path"@[0] != "glob"@[0]);
    assert("path"@.len() != "ignoreCase"@.len());
    assert("path"@.len() != "literal"@.len());
    assert("path"@.len() != "context"@.len());
    assert("glob"@.len() != "ignoreCase"@.len());
    assert("glob"@.len() != "literal"@.len());
    assert("glob"@.len() != "context"@.len());
    assert("glob"@.len() != "limit"@.len());
    assert("ignoreCase"@.len() != "literal"@.len());
    assert("ignoreCase"@.len() != "context"@.len());
    assert("ignoreCase"@.len() != "limit"@.len());
    assert("literal"@[0] != "context"@[0]);
    assert("literal"@.len() != "limit"@.len());
    assert("context"@.len() != "limit"@.len());
}

/// What the `read` tool takes, and what it needs.
pub proof fn law_the_read_tool_takes_its_parameters()
    ensures
        read_tool().name == "read"@,
        holds(read_tool().input_schema, "type"@, JsonView::Str("object"@)),
        takes(read_tool().input_schema, "path"@, "string"@),
        takes(read_tool().input_schema, "offset"@, "number"@),
        takes(read_tool().input_schema, "limit"@, "number"@),
        needs(read_tool().input_schema, seq!["path"@]),
{
    lemma_keys_differ();
    let schema = read_tool().input_schema;
    let m = read_properties();
    lemma_takes(schema, JsonView::Obj(m), m["path"@], "path"@, "string"@);
    lemma_takes(schema, JsonView::Obj(m), m["offset"@], "offset"@, "number"@);
    lemma_takes(schema, JsonView::Obj(m), m["limit"@], "limit"@, "number"@);
    let v = seq!["path"@];
    assert(Seq::new(v.len(), |i: int| JsonView::Str(v[i])) =~= v.map_values(
        |n: Seq<char>| JsonView::Str(n),
    ));
}

/// What the `write` tool takes, and what it needs.
pub proof fn law_the_write_tool_takes_its_parameters()
    ensures
        write_tool().name == "write"@,
        holds(write_tool().input_schema, "type"@, JsonView::Str("object"@)),
        takes(write_tool().input_schema, "path"@, "string"@),
        takes(write_tool().input_schema, "content"@, "string"@),
        needs(write_tool().input_schema, seq!["path"@, "content"@]),
{
    lemma_keys_differ();
    let schema = write_tool().input_schema;
    let m = write_properties();
    lemma_takes(schema, JsonView::Obj(m), m["path"@], "path"@, "string"@);
    lemma_takes(schema, JsonView::Obj(m), m["content"@], "content"@, "string"@);
    let v = seq!["path"@, "content"@];
    assert(Seq::new(v.len(), |i: int| JsonView::Str(v[i])) =~= v.map_values(
        |n: Seq<char>| JsonView::Str(n),
    ));
}

/// What the `edit` tool takes, and what it needs.
pub proof fn law_the_edit_tool_takes_its_parameters()
    ensures
        edit_tool().name == "edit"@,
        holds(edit_tool().input_schema, "type"@, JsonView::Str("object"@)),
        takes(edit_tool().input_schema, "path"@, "string"@),
        takes(edit_tool().input_schema, "edits"@, "array"@),
        needs(edit_tool().input_schema, seq!["path"@, "edits"@]),
{
    lemma_keys_differ();
    let schema = edit_tool().input_schema;
    let m = edit_properties();
    lemma_takes(schema, JsonView::Obj(m), m["path"@], "path"@, "string"@);
    lemma_takes(schema, JsonView::Obj(m), m["edits"@], "edits"@, "array"@);
    let v = seq!["path"@, "edits"@];
    assert(Seq::new(v.len(), |i: int| JsonView::Str(v[i])) =~= v.map_values(
        |n: Seq<char>| JsonView::Str(n),
    ));
}

/// What the `grep` tool takes, and what it needs.
pub proof fn law_the_grep_tool_takes_its_parameters()
    ensures
        grep_tool().name == "grep"@,
        holds(grep_tool().input_schema, "type"@, JsonView::Str("object"@)),
        takes(grep_tool().input_schema, "pattern"@, "string"@),
        takes(grep_tool().input_schema, "path"@, "string"@),
        takes(grep_tool().input_schema, "glob"@, "string"@),
        takes(grep_tool().input_schema, "ignoreCase"@, "boolean"@),
        takes(grep_tool().input_schema, "literal"@, "boolean"@),
        takes(grep_tool().input_schema, "context"@, "number"@),
        takes(grep_tool().input_schema, "limit"@, "number"@),
        needs(grep_tool().input_schema, seq!["pattern"@]),
{
    lemma_keys_differ();
    let schema = grep_tool().input_schema;
    let m = grep_properties();
    lemma_takes(schema, JsonView::Obj(m), m["pattern"@], "pattern"@, "string"@);
    lemma_takes(schema, JsonView::Obj(m), m["path"@], "path"@, "string"@);
    lemma_takes(schema, JsonView::Obj(m), m["glob"@], "glob"@, "string"@);
    lemma_takes(schema, JsonView::Obj(m), m["ignoreCase"@], "ignoreCase"@, "boolean"@);
    lemma_takes(schema, JsonView::Obj(m), m["literal"@], "literal"@, "boolean"@);
    lemma_takes(schema, JsonView::Obj(m), m["context"@], "context"@, "number"@);
    lemma_takes(schema, JsonView::Obj(m), m["limit"@], "limit"@, "number"@);
    let v = seq!["pattern"@];
    assert(Seq::new(v.len(), |i: int| JsonView::Str(v[i])) =~= v.map_values(
        |n: Seq<char>| JsonView::Str(n),
    ));
}

/// What the `find` tool takes, and what it needs.
pub proof fn law_the_find_tool_takes_its_parameters()
    ensures
        find_tool().name == "find"@,
        holds(find_tool().input_schema, "type"@, JsonView::Str("object"@)),
        takes(find_tool().input_schema, "pattern"@, "string"@),
        takes(find_tool().input_schema, "path"@, "string"@),
        takes(find_tool().input_schema, "limit"@, "number"@),
        needs(find_tool().input_schema, seq!["pattern"@]),
{
    lemma_keys_differ();
    let schema = find_tool().input_schema;
    let m = find_properties();
    lemma_takes(schema, JsonView::Obj(m), m["pattern"@], "pattern"@, "string"@);
    lemma_takes(schema, JsonView::Obj(m), m["path"@], "path"@, "string"@);
    lemma_takes(schema, JsonView::Obj(m), m["limit"@], "limit"@, "number"@);
    let v = seq!["pattern"@];
    assert(Seq::new(v.len(), |i: int| JsonView::Str(v[i])) =~= v.map_values(
        |n: Seq<char>| JsonView::Str(n),
    ));
}

/// What the `ls` tool takes, and what it needs.
pub proof fn law_the_ls_tool_takes_its_parameters()
    ensures
        ls_tool().name == "ls"@,
        holds(ls_tool().input_schema, "type"@, JsonView::Str("object"@)),
        takes(ls_tool().input_schema, "path"@, "string"@),
        takes(ls_tool().input_schema, "limit"@, "number"@),
        lacks(ls_tool().input_schema, "required"@),
{
    lemma_keys_differ();
    let schema = ls_tool().input_schema;
    let m = ls_properties();
    lemma_takes(schema, JsonView::Obj(m), m["path"@], "path"@, "string"@);
    lemma_takes(schema, JsonView::Obj(m), m["limit"@], "limit"@, "number"@);
}

} // verus!
