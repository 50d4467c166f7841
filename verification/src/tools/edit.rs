//! The `edit` tool: its arguments, the new content of the file, and its report.

use vstd::prelude::*;

use crate::ai::types::ToolSchema;
use crate::json;
use crate::json::{
    field, holds, items_model, json_parsed, lacks, lemma_items_push, opt_json, string_field, Json,
    JsonView,
};
use crate::text;
use crate::tools::diff::{diff_ops, diff_view, generate_diff, rendered};
use crate::tools::edit_diff::{
    apply_edits, crlf_form, detect_line_ending, edit_outcome, edit_pairs, error_reports,
    fuzzy_count, law_an_edit_puts_its_new_text_in_place_of_its_old_text, law_crlf_round_trip,
    law_lf_form_keeps_lf_text, lf_form, normalize_to_lf, restore_line_endings, stands_only_at,
    strip_bom, Edit, EditError, EditOutcome, LineEnding, BOM,
};
use crate::tools::schema;
use crate::tools::util;
use crate::tools::util::Target;

verus! {

// ---------------------------------------------------------------------------
// Arguments
// ---------------------------------------------------------------------------

/// Arguments whose `edits` came as a JSON text of an array, given what the text
/// parses to.
pub open spec fn with_parsed_edits(args: JsonView, parsed: Option<JsonView>) -> JsonView {
    match args {
        JsonView::Obj(m) => match parsed {
            Some(JsonView::Arr(a)) => if m.dom().contains("edits"@) && m["edits"@] is Str {
                JsonView::Obj(m.insert("edits"@, JsonView::Arr(a)))
            } else {
                args
            },
            _ => args,
        },
        _ => args,
    }
}

/// The edits that are there already.
pub open spec fn edits_in(m: Map<Seq<char>, JsonView>) -> Seq<JsonView> {
    if m.dom().contains("edits"@) {
        match m["edits"@] {
            JsonView::Arr(a) => a,
            _ => Seq::empty(),
        }
    } else {
        Seq::empty()
    }
}

/// Arguments with a single `oldText`/`newText` pair wrapped into `edits`.
pub open spec fn with_wrapped_pair(args: JsonView) -> JsonView {
    match args {
        JsonView::Obj(m) => if m.dom().contains("oldText"@) && m.dom().contains("newText"@) {
            let pair = JsonView::Obj(
                Map::empty().insert("oldText"@, m["oldText"@]).insert("newText"@, m["newText"@]),
            );
            let rest = m.remove("oldText"@).remove("newText"@);
            JsonView::Obj(rest.insert("edits"@, JsonView::Arr(edits_in(rest).push(pair))))
        } else {
            args
        },
        _ => args,
    }
}

/// The text that `edits` came as, if it came as one.
pub open spec fn edits_text(args: JsonView) -> Seq<char> {
    match string_field(args, "edits"@) {
        Some(s) => s,
        None => Seq::empty(),
    }
}

/// Normalized arguments.
pub open spec fn prepared(args: JsonView) -> JsonView {
    with_wrapped_pair(with_parsed_edits(args, json_parsed(edits_text(args))))
}

/// Normalize arguments, given what a text in `edits` parses to.
pub fn prepare_with(args: Json, parsed: Option<Json>) -> (r: Json)
    ensures
        r@ == with_wrapped_pair(with_parsed_edits(args@, opt_json(parsed))),
{
    if !args.is_object() {
        return args;
    }
    let as_text: bool = args.string_at("edits").is_some();
    let mut obj: Json = args;
    if as_text {
        match parsed {
            Some(Json::Arr(a)) => {
                obj = obj.with("edits", Json::Arr(a));
            },
            _ => {},
        }
    }
    let old: Option<Json> = match obj.get("oldText") {
        Some(v) => Some(v.clone()),
        None => None,
    };
    let new: Option<Json> = match obj.get("newText") {
        Some(v) => Some(v.clone()),
        None => None,
    };
    match (old, new) {
        (Some(o), Some(n)) => {
            let rest: Json = obj.without("oldText").without("newText");
            let mut edits: Vec<Json> = match rest.field_copy("edits") {
                Json::Arr(a) => a,
                _ => Vec::new(),
            };
            let pair: Json = Json::object().with("oldText", o).with("newText", n);
            proof {
                lemma_items_push(edits@, pair);
                assert(items_model(edits@) =~= edits_in(rest@->Obj_0));
            }
            edits.push(pair);
            rest.with("edits", Json::Arr(edits))
        },
        _ => obj,
    }
}

/// Normalize raw tool arguments into `{ path, edits }`. Accepts a single
/// `oldText`/`newText` pair, and `edits` given as a JSON text.
pub fn prepare_arguments(args: Json) -> (r: Json)
    ensures
        r@ == prepared(args@),
{
    let parsed: Option<Json> = {
        let s: String = args.string_or_empty("edits");
        json::parse(s.as_str())
    };
    prepare_with(args, parsed)
}

/// The `edit` tool of a working directory.
#[derive(Debug)]
pub struct EditTool {
    pub cwd: String,
}

impl EditTool {
    pub fn schema(&self) -> (r: ToolSchema)
        ensures
            r@ == schema::edit_tool(),
    {
        schema::edit_schema()
    }

    /// The file to edit.
    pub fn target(&self, path: &str, home: Option<&str>) -> (r: Target)
        ensures
            r.is_of(path@, self.cwd@, text::opt_str(home)),
    {
        util::locate(path, self.cwd.as_str(), home)
    }
}

/// Why an edit was refused before it was tried.
#[derive(Debug)]
pub enum EditRequestError {
    MissingPath,
    MissingEdits,
    BadEdits { message: String },
    NoEdits,
    NoFile { display: String },
}

impl EditRequestError {
    pub open spec fn text(self) -> Seq<char> {
        match self {
            EditRequestError::MissingPath => "edit requires a 'path' parameter"@,
            EditRequestError::MissingEdits =>
                "edit requires an 'edits' array with at least one replacement"@,
            EditRequestError::BadEdits { message } =>
                "edits must be an array of {oldText,newText}: "@ + message@,
            EditRequestError::NoEdits => "edits must contain at least one replacement"@,
            EditRequestError::NoFile { display } => "Could not edit file: "@ + display@
                + ". File does not exist."@,
        }
    }

    /// The error as shown to the model.
    pub fn message(&self) -> (r: String)
        ensures
            r@ == self.text(),
    {
        match self {
            EditRequestError::MissingPath => "edit requires a 'path' parameter".to_string(),
            EditRequestError::MissingEdits =>
                "edit requires an 'edits' array with at least one replacement".to_string(),
            EditRequestError::BadEdits { message } => {
                let mut out: String = "edits must be an array of {oldText,newText}: ".to_string();
                out.append(message.as_str());
                out
            },
            EditRequestError::NoEdits => "edits must contain at least one replacement".to_string(),
            EditRequestError::NoFile { display } => {
                let mut out: String = "Could not edit file: ".to_string();
                out.append(display.as_str());
                out.append(". File does not exist.");
                out
            },
        }
    }
}

/// The path to edit: the string in `path`, or else in `file_path`.
pub open spec fn path_asked(args: JsonView) -> Option<Seq<char>> {
    match string_field(args, "path"@) {
        Some(p) => Some(p),
        None => string_field(args, "file_path"@),
    }
}

/// The path and the raw edits of a request.
pub fn read_request(args: &Json) -> (r: Result<(String, Json), EditRequestError>)
    ensures
        match r {
            Ok((path, edits)) => path_asked(args@) == Some(path@) && field(args@, "edits"@) == Some(
                edits@,
            ),
            Err(EditRequestError::MissingPath) => path_asked(args@) is None,
            Err(EditRequestError::MissingEdits) => path_asked(args@) is Some && field(
                args@,
                "edits"@,
            ) is None,
            Err(_) => false,
        },
{
    let path: String = match args.string_at("path") {
        Some(p) => p.to_string(),
        None => match args.string_at("file_path") {
            Some(p) => p.to_string(),
            None => {
                return Err(EditRequestError::MissingPath);
            },
        },
    };
    match args.get("edits") {
        Some(e) => Ok((path, e.clone())),
        None => Err(EditRequestError::MissingEdits),
    }
}

/// A request must hold a replacement, and its file must exist.
pub fn check_request(edits: &Vec<Edit>, exists: bool, display: &str) -> (r: Result<
    (),
    EditRequestError,
>)
    ensures
        match r {
            Ok(_) => edits@.len() > 0 && exists,
            Err(EditRequestError::NoEdits) => edits@.len() == 0,
            Err(EditRequestError::NoFile { display: d }) => edits@.len() > 0 && !exists && d@
                == display@,
            Err(_) => false,
        },
{
    if edits.len() == 0 {
        Err(EditRequestError::NoEdits)
    } else if !exists {
        Err(EditRequestError::NoFile { display: display.to_string() })
    } else {
        Ok(())
    }
}

// ---------------------------------------------------------------------------
// The edit
// ---------------------------------------------------------------------------

/// A file's content without its byte-order mark.
pub open spec fn unmarked(raw: Seq<char>) -> Seq<char> {
    if raw.len() > 0 && raw[0] == BOM {
        raw.drop_first()
    } else {
        raw
    }
}

/// New LF content in the dress of the file it replaces: its byte-order mark and
/// its line ends.
pub open spec fn redressed(raw: Seq<char>, new: Seq<char>) -> Seq<char> {
    let mark = if raw.len() > 0 && raw[0] == BOM {
        seq![BOM]
    } else {
        Seq::empty()
    };
    mark + (if text::has_substring(unmarked(raw), seq!['\r', '\n']) {
        crlf_form(new)
    } else {
        new
    })
}

/// What an edit makes of a file.
#[derive(Debug)]
pub struct EditReport {
    /// The file's new content.
    pub content: String,
    pub diff: String,
    pub first_changed_line: Option<usize>,
}

/// Apply edits to a file's content. The byte-order mark and the line ends stay
/// as they are; everything else is compared and edited in LF form.
pub fn edit_content(raw: &str, edits: &Vec<Edit>, display: &str) -> (r: Result<
    EditReport,
    EditError,
>)
    ensures
        ({
            let base = lf_form(unmarked(raw@));
            let outcome = edit_outcome(base, edit_pairs(edits@));
            match r {
                Ok(report) => outcome matches EditOutcome::Done(new) && {
                    let shown = rendered(diff_ops(diff_view(base), diff_view(new)), display@);
                    &&& report.content@ == redressed(raw@, new)
                    &&& report.diff@ == shown.0
                    &&& (match report.first_changed_line {
                        Some(n) => shown.1 == Some(n as int),
                        None => shown.1 is None,
                    })
                },
                Err(e) => error_reports(e, outcome, display@),
            }
        }),
{
    let (bom, body): (String, String) = strip_bom(raw);
    let ending: LineEnding = detect_line_ending(body.as_str());
    let normalized: String = normalize_to_lf(body.as_str());
    match apply_edits(normalized.as_str(), edits.as_slice(), display) {
        Err(e) => Err(e),
        Ok((base, new)) => {
            let restored: String = restore_line_endings(new.as_str(), ending);
            let mut content: String = bom;
            content.append(restored.as_str());
            let (diff, first_changed_line): (String, Option<usize>) = generate_diff(
                base.as_str(),
                new.as_str(),
                display,
            );
            Ok(EditReport { content, diff, first_changed_line })
        },
    }
}

/// The report of an edit.
pub fn edit_report(count: usize, display: &str, diff: &str) -> (r: String)
    ensures
        r@ == "Successfully replaced "@ + text::decimal(count as nat) + " block(s) in "@ + display@
            + ".\n\n"@ + diff@,
{
    let mut out: String = "Successfully replaced ".to_string();
    text::push_usize(&mut out, count);
    out.append(" block(s) in ");
    out.append(display);
    out.append(".\n\n");
    out.append(diff);
    out
}

/// The details of an edit: its diff and its first changed line.
pub fn edit_details(diff: &str, first_changed_line: Option<usize>) -> (r: Json)
    ensures
        r@ == JsonView::Obj(
            Map::empty().insert("diff"@, JsonView::Str(diff@)).insert(
                "firstChangedLine"@,
                match first_changed_line {
                    Some(n) => JsonView::UInt(n as u64),
                    None => JsonView::Null,
                },
            ),
        ),
{
    let line: Json = match first_changed_line {
        Some(n) => Json::UInt(n as u64),
        None => Json::Null,
    };
    Json::object().with("diff", Json::str(diff)).with("firstChangedLine", line)
}

// ---------------------------------------------------------------------------
// Laws
// ---------------------------------------------------------------------------

/// Normalized arguments stay as they are when they are normalized again.
pub proof fn law_prepared_arguments_stay_prepared(args: JsonView)
    ensures
        prepared(prepared(args)) == prepared(args),
{
    reveal_strlit("edits");
    reveal_strlit("oldText");
    reveal_strlit("newText");
    let once = prepared(args);
    if let JsonView::Obj(m) = args {
        let mid = with_parsed_edits(args, json_parsed(edits_text(args)));
        let n = mid->Obj_0;
        if n.dom().contains("oldText"@) && n.dom().contains("newText"@) {
            let done = once->Obj_0;
            assert("oldText"@[0] != "edits"@[0]);
            assert("oldText"@[0] != "newText"@[0]);
            assert(!done.dom().contains("oldText"@));
            assert(done["edits"@] is Arr);
        } else {
            assert(once == mid);
            if m.dom().contains("edits"@) && m["edits"@] is Str {
                match json_parsed(edits_text(args)) {
                    Some(JsonView::Arr(_)) => {
                        assert(n["edits"@] is Arr);
                    },
                    _ => {
                        assert(mid == args);
                    },
                }
            }
        }
    }
}

/// An edit leaves a byte-order mark in its place.
pub proof fn law_the_byte_order_mark_stays(raw: Seq<char>, new: Seq<char>)
    requires
        raw.len() > 0,
        raw[0] == BOM,
    ensures
        redressed(raw, new).len() > 0,
        redressed(raw, new)[0] == BOM,
{
}

/// What an edit writes reads back as what it made: without the byte-order mark,
/// and with its line ends normalized, the new content of the file is the new
/// text. Where the file had no mark, the new text must not begin with one.
pub proof fn law_an_edited_file_reads_back(raw: Seq<char>, new: Seq<char>)
    requires
        !new.contains('\r'),
        (raw.len() > 0 && raw[0] == BOM) || new.len() == 0 || new[0] != BOM,
    ensures
        lf_form(unmarked(redressed(raw, new))) == new,
{
    law_crlf_round_trip(new);
    law_lf_form_keeps_lf_text(new);
    let whole = redressed(raw, new);
    let dressed = if text::has_substring(unmarked(raw), seq!['\r', '\n']) {
        crlf_form(new)
    } else {
        new
    };
    if raw.len() > 0 && raw[0] == BOM {
        assert(whole.drop_first() =~= dressed);
    } else {
        assert(whole =~= dressed);
    }
}

/// A file keeps its dress: one without carriage returns is edited as it stands and
/// written as it came out; one that has `\r\n` gets `\r\n` back; a byte-order mark
/// is set aside and put back.
pub proof fn law_a_file_keeps_its_dress(raw: Seq<char>, new: Seq<char>)
    requires
        raw.len() > 0 ==> raw[0] != '\u{feff}',
    ensures
        unmarked(raw) == raw,
        unmarked(seq!['\u{feff}'] + raw) == raw,
        !raw.contains('\r') ==> lf_form(unmarked(raw)) == raw && redressed(raw, new) == new
            && redressed(seq!['\u{feff}'] + raw, new) == seq!['\u{feff}'] + new,
        text::has_substring(raw, seq!['\r', '\n']) ==> redressed(raw, new) == crlf_form(new)
            && redressed(seq!['\u{feff}'] + raw, new) == seq!['\u{feff}'] + crlf_form(new),
        !text::has_substring(raw, seq!['\r', '\n']) ==> redressed(raw, new) == new,
{
    let marked = seq!['\u{feff}'] + raw;
    assert(marked.drop_first() =~= raw);
    let none = Seq::<char>::empty();
    assert(none + new =~= new);
    assert(none + crlf_form(new) =~= crlf_form(new));
    if !raw.contains('\r') {
        law_lf_form_keeps_lf_text(raw);
        if text::has_substring(raw, seq!['\r', '\n']) {
            let i = choose|i: int| text::occurs_at(raw, seq!['\r', '\n'], i);
            assert(raw.subrange(i, i + 2)[0] == '\r');
            assert(raw[i] == '\r');
        }
    }
}

/// One edit of a plain file changes the file by just that edit: what stood before
/// the search text, the replacement, what stood behind it.
pub proof fn law_an_edit_of_a_file_changes_just_its_text(raw: Seq<char>, edits: Seq<Edit>, at: int)
    requires
        raw.len() > 0,
        raw[0] != '\u{feff}',
        !raw.contains('\r'),
        edits.len() == 1,
        edits[0].old_text@.len() > 0,
        !edits[0].old_text@.contains('\r'),
        !edits[0].new_text@.contains('\r'),
        stands_only_at(raw, edits[0].old_text@, at),
        fuzzy_count(raw, edits[0].old_text@) <= 1,
    ensures
        edit_outcome(lf_form(unmarked(raw)), edit_pairs(edits)) matches EditOutcome::Done(new)
            && redressed(raw, new) == raw.take(at) + edits[0].new_text@ + raw.skip(
            at + edits[0].old_text@.len(),
        ),
{
    law_an_edit_puts_its_new_text_in_place_of_its_old_text(raw, edits, at);
    let new = raw.take(at) + edits[0].new_text@ + raw.skip(at + edits[0].old_text@.len());
    law_a_file_keeps_its_dress(raw, new);
}

/// A pair of texts beside the path becomes one edit behind those that are there;
/// edits that come as a text are parsed where the text is a list; everything else
/// stays as it is.
pub proof fn law_arguments_are_brought_into_one_shape(m: Map<Seq<char>, JsonView>)
    ensures
        ({
            let args = JsonView::Obj(m);
            let pair = m.dom().contains("oldText"@) && m.dom().contains("newText"@);
            let r = prepared(args);
            &&& r is Obj
            &&& forall|k: Seq<char>|
                #![trigger r->Obj_0.dom().contains(k)]
                k != "edits"@ && k != "oldText"@ && k != "newText"@ ==> (r->Obj_0.dom().contains(
                    k,
                ) <==> m.dom().contains(k)) && (m.dom().contains(k) ==> r->Obj_0[k] == m[k])
            &&& pair && !m.dom().contains("edits"@) ==> {
                &&& lacks(r, "oldText"@) && lacks(r, "newText"@)
                &&& exists|e: JsonView|
                    {
                        &&& holds(r, "edits"@, JsonView::Arr(seq![e]))
                        &&& #[trigger] holds(e, "oldText"@, m["oldText"@])
                        &&& holds(e, "newText"@, m["newText"@])
                    }
            }
            &&& forall|a: Seq<JsonView>|
                pair && #[trigger] holds(args, "edits"@, JsonView::Arr(a)) ==> exists|e: JsonView|
                    {
                        &&& holds(r, "edits"@, JsonView::Arr(a.push(e)))
                        &&& #[trigger] holds(e, "oldText"@, m["oldText"@])
                        &&& holds(e, "newText"@, m["newText"@])
                    }
            &&& forall|a: Seq<JsonView>|
                !pair && #[trigger] holds(args, "edits"@, JsonView::Arr(a)) ==> r == args
            &&& forall|s: Seq<char>, a: Seq<JsonView>|
                #![trigger holds(args, "edits"@, JsonView::Str(s)), holds(r, "edits"@, JsonView::Arr(a))]
                !pair && holds(args, "edits"@, JsonView::Str(s)) && json_parsed(s) == Some(
                    JsonView::Arr(a),
                ) ==> holds(r, "edits"@, JsonView::Arr(a))
            &&& !pair && !m.dom().contains("edits"@) ==> r == args
        }),
{
    reveal_strlit("edits");
    reveal_strlit("oldText");
    reveal_strlit("newText");
    assert("edits"@.len() != "oldText"@.len());
    assert("edits"@.len() != "newText"@.len());
    assert("oldText"@[0] != "newText"@[0]);
    let args = JsonView::Obj(m);
    let mid = with_parsed_edits(args, json_parsed(edits_text(args)));
    let n = mid->Obj_0;
    let r = prepared(args);
    if m.dom().contains("oldText"@) && m.dom().contains("newText"@) {
        let e = JsonView::Obj(
            Map::empty().insert("oldText"@, m["oldText"@]).insert("newText"@, m["newText"@]),
        );
        assert(holds(e, "oldText"@, m["oldText"@]));
        if !m.dom().contains("edits"@) {
            assert(Seq::<JsonView>::empty().push(e) =~= seq![e]);
        }
    }
}

/// The path is the one under `path`, or else the one under `file_path`.
pub proof fn law_the_path_may_have_two_names(args: JsonView, p: Seq<char>, q: Seq<char>)
    ensures
        holds(args, "path"@, JsonView::Str(p)) ==> path_asked(args) == Some(p),
        lacks(args, "path"@) && holds(args, "file_path"@, JsonView::Str(q)) ==> path_asked(args)
            == Some(q),
        lacks(args, "path"@) && lacks(args, "file_path"@) ==> path_asked(args) is None,
{
}

/// The words of the errors of an edit request.
pub proof fn law_edit_request_errors_have_their_words(e: EditRequestError)
    ensures
        match e {
            EditRequestError::MissingPath => e.text() == "edit requires a 'path' parameter"@,
            EditRequestError::MissingEdits => e.text()
                == "edit requires an 'edits' array with at least one replacement"@,
            EditRequestError::BadEdits { message } => e.text()
                == "edits must be an array of {oldText,newText}: "@ + message@,
            EditRequestError::NoEdits => e.text() == "edits must contain at least one replacement"@,
            EditRequestError::NoFile { display } => e.text() == "Could not edit file: "@ + display@
                + ". File does not exist."@,
        },
{
}

} // verus!
