//! The `skill` tool: load a skill's instructions.

use vstd::prelude::*;

use crate::ai::types::{ToolSchema, ToolSchemaView};
use crate::json::{string_field, Json,};
use crate::skills::{skill_named, skill_names, skill_views, Skill, SkillView, Skills};
use crate::text;
use crate::tools::schema;

verus! {

/// Why a skill was not loaded.
#[derive(Debug)]
pub enum SkillError {
    MissingName,
    Unknown { name: String, available: String },
}

impl SkillError {
    pub open spec fn text(self) -> Seq<char> {
        match self {
            SkillError::MissingName => "skill requires a 'skill' name parameter"@,
            SkillError::Unknown { name, available } => "Unknown skill '"@ + name@
                + "'. Available skills: "@ + available@,
        }
    }

    /// The error as shown to the model.
    pub fn message(&self) -> (r: String)
        ensures
            r@ == self.text(),
    {
        match self {
            SkillError::MissingName => "skill requires a 'skill' name parameter".to_string(),
            SkillError::Unknown { name, available } => {
                let mut out: String = "Unknown skill '".to_string();
                out.append(name.as_str());
                out.append("'. Available skills: ");
                out.append(available.as_str());
                out
            },
        }
    }
}

/// The names of skills, as a list.
pub open spec fn name_list(v: Seq<SkillView>) -> Seq<char> {
    text::joined(skill_names(v), ", "@)
}

#[derive(Debug)]
pub struct SkillTool {
    pub cwd: String,
    pub skills: Skills,
    pub desc: String,
}

impl SkillTool {
    pub fn new(cwd: String, skills: Skills) -> (r: SkillTool)
        ensures
            r.cwd == cwd,
            r.skills == skills,
            r.desc@
                == "Invoke a skill by name to load its full instructions into context, then follow them. Only call this when the user's request matches a skill. Available skills: "@
                + name_list(skill_views(skills.skills@)),
    {
        let names: Vec<String> = skills.names();
        let mut desc: String = "Invoke a skill by name to load its full instructions into context, then follow them. Only call this when the user's request matches a skill. Available skills: ".to_string();
        desc.append(text::join(&names, ", ").as_str());
        SkillTool { cwd, skills, desc }
    }

    pub fn description(&self) -> (r: &str)
        ensures
            r@ == self.desc@,
    {
        self.desc.as_str()
    }

    pub fn schema(&self) -> (r: ToolSchema)
        ensures
            r@ == (ToolSchemaView {
                name: "skill"@,
                description: self.desc@,
                input_schema: schema::object_requiring(
                    schema::skill_properties(),
                    schema::names(seq!["skill"@]),
                ),
            }),
    {
        ToolSchema {
            name: "skill".to_string(),
            description: self.desc.clone(),
            input_schema: schema::skill_parameters(),
        }
    }

    /// Load the skill that the arguments name.
    pub fn load(&self, args: &Json) -> (r: Result<String, SkillError>)
        ensures
            match r {
                Ok(out) => string_field(args@, "skill"@) matches Some(name) && (skill_named(
                    skill_views(self.skills.skills@),
                    name,
                    0,
                ) matches Some(s) && out@ == instructions(s, string_field(args@, "args"@))),
                Err(SkillError::MissingName) => string_field(args@, "skill"@) is None,
                Err(SkillError::Unknown { name, available }) => {
                    &&& string_field(args@, "skill"@) == Some(name@)
                    &&& skill_named(skill_views(self.skills.skills@), name@, 0) is None
                    &&& available@ == name_list(skill_views(self.skills.skills@))
                },
            },
    {
        let name: &str = match args.string_at("skill") {
            Some(n) => n,
            None => {
                return Err(SkillError::MissingName);
            },
        };
        match self.skills.find(name) {
            Some(s) => Ok(render(s, args.string_at("args"))),
            None => {
                let names: Vec<String> = self.skills.names();
                Err(
                    SkillError::Unknown {
                        name: name.to_string(),
                        available: text::join(&names, ", "),
                    },
                )
            },
        }
    }
}

/// The line that passes arguments on, unless they are blank.
pub open spec fn argument_line(args: Option<Seq<char>>) -> Seq<char> {
    match args {
        Some(a) => if text::is_blank_text(a) {
            Seq::empty()
        } else {
            "Arguments: "@ + a + "\n\n"@
        },
        None => Seq::empty(),
    }
}

/// What loading a skill gives.
pub open spec fn instructions(s: SkillView, args: Option<Seq<char>>) -> Seq<char> {
    "# Skill: "@ + s.name + "\n\n"@ + argument_line(args) + text::trimmed(s.body)
        + "\n\n---\nSkill directory: `"@ + s.dir
        + "`. Reference any supporting files (scripts, references) by their path under this directory using the read or bash tools."@
}

fn render(s: &Skill, args: Option<&str>) -> (r: String)
    ensures
        r@ == instructions(s@, text::opt_str(args)),
{
    let mut out: String = "# Skill: ".to_string();
    out.append(s.name.as_str());
    out.append("\n\n");
    let mut line: String = String::new();
    if let Some(a) = args {
        if !text::is_blank(a) {
            line = "Arguments: ".to_string();
            line.append(a);
            line.append("\n\n");
        }
    }
    out.append(line.as_str());
    out.append(text::trim(s.body.as_str()).as_str());
    out.append("\n\n---\nSkill directory: `");
    out.append(s.dir.as_str());
    out.append("`. Reference any supporting files (scripts, references) by their path under this directory using the read or bash tools.");
    out
}

/// A skill's instructions are headed by its name, and hold its whole body, trimmed,
/// and its directory; arguments are told before the body, unless they are blank.
pub proof fn law_instructions_hold_the_skill(s: SkillView, args: Option<Seq<char>>)
    ensures
        text::begins_with(instructions(s, args), "# Skill: "@ + s.name + "\n\n"@),
        text::has_substring(instructions(s, args), text::trimmed(s.body)),
        text::has_substring(instructions(s, args), "Skill directory: `"@ + s.dir + "`"@),
        args matches Some(a) ==> text::trimmed(a).len() > 0 ==> text::has_substring(
            instructions(s, args),
            "Arguments: "@ + a + "\n\n"@ + text::trimmed(s.body),
        ),
        instructions(s, None).len() == instructions(
            SkillView { body: Seq::empty(), ..s },
            None,
        ).len() + text::trimmed(s.body).len(),
{
    let whole = instructions(s, args);
    let head = "# Skill: "@ + s.name + "\n\n"@;
    assert(whole.subrange(0, head.len() as int) =~= head);
    let body = text::trimmed(s.body);
    let at = (head + argument_line(args)).len() as int;
    assert(whole.subrange(at, at + body.len()) =~= body);
    assert(text::occurs_at(whole, body, at));
    reveal_strlit("\n\n---\nSkill directory: `");
    reveal_strlit("Skill directory: `");
    reveal_strlit("`");
    reveal_strlit(
        "`. Reference any supporting files (scripts, references) by their path under this directory using the read or bash tools.",
    );
    let dir = "Skill directory: `"@ + s.dir + "`"@;
    let there = at + body.len() + 6;
    assert(whole.subrange(there, there + dir.len()) =~= dir);
    assert(text::occurs_at(whole, dir, there));
    if let Some(a) = args {
        text::lemma_blank_is_trimmed_empty(a);
        if text::trimmed(a).len() > 0 {
            let told = "Arguments: "@ + a + "\n\n"@ + body;
            let from = head.len() as int;
            assert(whole.subrange(from, from + told.len()) =~= told);
            assert(text::occurs_at(whole, told, from));
        }
    }
    assert(text::trimmed(Seq::<char>::empty()) =~= Seq::<char>::empty());
}

/// The skills are listed by their names, in order.
pub proof fn law_skills_are_listed_by_name(v: Seq<SkillView>, s: SkillView)
    ensures
        name_list(Seq::empty()).len() == 0,
        v.len() == 0 ==> name_list(v.push(s)) == s.name,
        v.len() > 0 ==> name_list(v.push(s)) == name_list(v) + ", "@ + s.name,
{
    assert(skill_names(v.push(s)) =~= skill_names(v).push(s.name));
    text::lemma_joined_push(skill_names(v), s.name, ", "@);
}

/// An unknown skill is named, and the known ones are listed.
pub proof fn law_skill_errors_have_their_words(e: SkillError)
    ensures
        match e {
            SkillError::MissingName => e.text() == "skill requires a 'skill' name parameter"@,
            SkillError::Unknown { name, available } => e.text() == "Unknown skill '"@ + name@
                + "'. Available skills: "@ + available@,
        },
{
}

} // verus!
