//! The coding tools and the preset tool sets.

pub mod diff;
pub mod edit;
pub mod edit_diff;
pub mod find;
pub mod grep;
pub mod ls;
pub mod order;
pub mod pattern;
pub mod read;
pub mod schema;
pub mod skill;
pub mod truncate;
pub mod util;
pub mod write;

use vstd::prelude::*;

use crate::text;

verus! {

/// A built-in tool.
#[derive(Debug, Clone, Copy, PartialEq, Eq, Structural)]
pub enum BuiltinTool {
    Read,
    Bash,
    Edit,
    Write,
    Grep,
    Find,
    Ls,
}

impl BuiltinTool {
    pub open spec fn label(self) -> Seq<char> {
        match self {
            BuiltinTool::Read => "read"@,
            BuiltinTool::Bash => "bash"@,
            BuiltinTool::Edit => "edit"@,
            BuiltinTool::Write => "write"@,
            BuiltinTool::Grep => "grep"@,
            BuiltinTool::Find => "find"@,
            BuiltinTool::Ls => "ls"@,
        }
    }

    /// The name that the model calls the tool by.
    pub fn name(self) -> (r: &'static str)
        ensures
            r@ == self.label(),
    {
        match self {
            BuiltinTool::Read => "read",
            BuiltinTool::Bash => "bash",
            BuiltinTool::Edit => "edit",
            BuiltinTool::Write => "write",
            BuiltinTool::Grep => "grep",
            BuiltinTool::Find => "find",
            BuiltinTool::Ls => "ls",
        }
    }
}

/// All seven built-in tools, in order.
pub open spec fn every_tool() -> Seq<BuiltinTool> {
    seq![
        BuiltinTool::Read,
        BuiltinTool::Bash,
        BuiltinTool::Edit,
        BuiltinTool::Write,
        BuiltinTool::Grep,
        BuiltinTool::Find,
        BuiltinTool::Ls,
    ]
}

/// The full coding tool set: read, bash, edit, write.
pub fn coding_tools() -> (r: Vec<BuiltinTool>)
    ensures
        r@ == seq![BuiltinTool::Read, BuiltinTool::Bash, BuiltinTool::Edit, BuiltinTool::Write],
{
    let r: Vec<BuiltinTool> = vec![
        BuiltinTool::Read,
        BuiltinTool::Bash,
        BuiltinTool::Edit,
        BuiltinTool::Write,
    ];
    assert(r@ =~= seq![
        BuiltinTool::Read,
        BuiltinTool::Bash,
        BuiltinTool::Edit,
        BuiltinTool::Write,
    ]);
    r
}

/// Read-only tool set: read, grep, find, ls.
pub fn read_only_tools() -> (r: Vec<BuiltinTool>)
    ensures
        r@ == seq![BuiltinTool::Read, BuiltinTool::Grep, BuiltinTool::Find, BuiltinTool::Ls],
{
    let r: Vec<BuiltinTool> = vec![
        BuiltinTool::Read,
        BuiltinTool::Grep,
        BuiltinTool::Find,
        BuiltinTool::Ls,
    ];
    assert(r@ =~= seq![
        BuiltinTool::Read,
        BuiltinTool::Grep,
        BuiltinTool::Find,
        BuiltinTool::Ls,
    ]);
    r
}

/// All seven built-in tools.
pub fn all_tools() -> (r: Vec<BuiltinTool>)
    ensures
        r@ == every_tool(),
{
    let r: Vec<BuiltinTool> = vec![
        BuiltinTool::Read,
        BuiltinTool::Bash,
        BuiltinTool::Edit,
        BuiltinTool::Write,
        BuiltinTool::Grep,
        BuiltinTool::Find,
        BuiltinTool::Ls,
    ];
    assert(r@ =~= every_tool());
    r
}

/// The tools among `all` whose names are allowed, in order.
pub open spec fn allowed(all: Seq<BuiltinTool>, names: Seq<Seq<char>>) -> Seq<BuiltinTool>
    decreases all.len(),
{
    if all.len() == 0 {
        Seq::empty()
    } else if names.contains(all.last().label()) {
        allowed(all.drop_last(), names).push(all.last())
    } else {
        allowed(all.drop_last(), names)
    }
}

/// Build a tool set from an allowlist of names.
pub fn select_tools(names: &Vec<String>) -> (r: Vec<BuiltinTool>)
    ensures
        r@ == allowed(every_tool(), text::views(names@)),
{
    let all: Vec<BuiltinTool> = all_tools();
    let mut out: Vec<BuiltinTool> = Vec::new();
    let mut i: usize = 0;
    while i < all.len()
        invariant
            i <= all@.len(),
            out@ == allowed(all@.take(i as int), text::views(names@)),
        decreases all@.len() - i,
    {
        proof {
            assert(all@.take(i + 1).drop_last() =~= all@.take(i as int));
            assert(all@.take(i + 1).last() == all@[i as int]);
        }
        let t: BuiltinTool = all[i];
        if text::has_text(names, t.name()) {
            out.push(t);
        }
        i += 1;
    }
    assert(all@.take(all@.len() as int) =~= all@);
    out
}

/// Every tool goes by its own name, and the tools that are selected are those whose
/// names were given, in the usual order.
pub proof fn law_tools_are_selected_by_name(
    all: Seq<BuiltinTool>,
    t: BuiltinTool,
    names: Seq<Seq<char>>,
)
    ensures
        BuiltinTool::Read.label() == "read"@,
        BuiltinTool::Bash.label() == "bash"@,
        BuiltinTool::Edit.label() == "edit"@,
        BuiltinTool::Write.label() == "write"@,
        BuiltinTool::Grep.label() == "grep"@,
        BuiltinTool::Find.label() == "find"@,
        BuiltinTool::Ls.label() == "ls"@,
        every_tool().contains(t),
        every_tool().len() == 7,
        allowed(Seq::empty(), names).len() == 0,
        names.contains(t.label()) ==> allowed(all.push(t), names) == allowed(all, names).push(t),
        !names.contains(t.label()) ==> allowed(all.push(t), names) == allowed(all, names),
{
    assert(all.push(t).drop_last() =~= all);
    let e = every_tool();
    assert(e[0] == BuiltinTool::Read && e[1] == BuiltinTool::Bash && e[2] == BuiltinTool::Edit
        && e[3] == BuiltinTool::Write && e[4] == BuiltinTool::Grep && e[5] == BuiltinTool::Find
        && e[6] == BuiltinTool::Ls);
}

} // verus!
