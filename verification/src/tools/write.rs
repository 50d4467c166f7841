//! The `write` tool: its arguments and its report.

use vstd::prelude::*;

use crate::ai::types::ToolSchema;
use crate::text;
use crate::tools::schema;
use crate::tools::util;
use crate::tools::util::Target;

verus! {

/// The arguments of a write.
#[derive(Debug)]
pub struct WriteInput {
    pub path: Option<String>,
    pub file_path: Option<String>,
    pub content: Option<String>,
}

/// The path to write: `path`, or else `file_path`.
pub open spec fn path_asked(input: WriteInput) -> Option<Seq<char>> {
    match input.path {
        Some(p) => Some(p@),
        None => text::opt_view(input.file_path),
    }
}

/// The `write` tool of a working directory.
#[derive(Debug)]
pub struct WriteTool {
    pub cwd: String,
}

impl WriteTool {
    pub fn schema(&self) -> (r: ToolSchema)
        ensures
            r@ == schema::write_tool(),
    {
        schema::write_schema()
    }

    /// The file to write, or the message that no path was given.
    pub fn target(&self, input: &WriteInput, home: Option<&str>) -> (r: Result<Target, String>)
        ensures
            match r {
                Ok(t) => path_asked(*input) matches Some(p) && t.is_of(
                    p,
                    self.cwd@,
                    text::opt_str(home),
                ),
                Err(e) => path_asked(*input) is None && e@ == "write requires a 'path' parameter"@,
            },
    {
        let raw: &str = match &input.path {
            Some(p) => p.as_str(),
            None => match &input.file_path {
                Some(p) => p.as_str(),
                None => {
                    return Err("write requires a 'path' parameter".to_string());
                },
            },
        };
        Ok(util::locate(raw, self.cwd.as_str(), home))
    }
}

impl WriteInput {
    /// The content to write: nothing where none is given.
    pub fn text(&self) -> (r: String)
        ensures
            r@ == (match self.content {
                Some(c) => c@,
                None => Seq::empty(),
            }),
    {
        match &self.content {
            Some(c) => c.clone(),
            None => String::new(),
        }
    }
}

/// The report of a write.
pub fn write_report(content: &str, display: &str) -> (r: String)
    ensures
        r@ == "Successfully wrote "@ + text::decimal(text::byte_len(content@)) + " bytes to "@
            + display@,
{
    let mut out: String = "Successfully wrote ".to_string();
    text::push_usize(&mut out, text::byte_length(content));
    out.append(" bytes to ");
    out.append(display);
    out
}

/// The path to write is under `path`, or else under `file_path`.
pub proof fn law_the_path_to_write_may_have_two_names(input: WriteInput)
    ensures
        input.path matches Some(p) ==> path_asked(input) == Some(p@),
        input.path is None ==> (input.file_path matches Some(p) ==> path_asked(input) == Some(p@)),
        input.path is None && input.file_path is None ==> path_asked(input) is None,
{
}

} // verus!
