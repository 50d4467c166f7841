//! System prompt builder for the coding agent.

use vstd::prelude::*;

use crate::skills::{skill_views, SkillView, Skills};
use crate::text;

verus! {

/// Options for building the system prompt.
pub struct PromptOptions<'a> {
    pub cwd: &'a str,
    pub tool_names: &'a Vec<String>,
    pub extra: Option<&'a str>,
    /// Discovered skills, if any (surfaced by name + description only).
    pub skills: Option<&'a Skills>,
}

/// What the prompt says of the machine.
pub struct Environment<'a> {
    pub platform: &'a str,
    pub shell: &'a str,
    /// The date, as `YYYY-MM-DD`.
    pub date: &'a str,
}

pub open spec fn tool_list(names: Seq<Seq<char>>) -> Seq<char> {
    if names.len() == 0 {
        "(no tools available)"@
    } else {
        text::joined(names, ", "@)
    }
}

/// The fixed part of the prompt, with the environment in it.
pub open spec fn base_prompt(
    cwd: Seq<char>,
    platform: Seq<char>,
    shell: Seq<char>,
    date: Seq<char>,
    tools: Seq<Seq<char>>,
) -> Seq<char> {
    "You are pixie-pi, an expert software engineering agent operating in a terminal. You help the user with coding tasks: reading, writing, and editing code, running commands, and searching the codebase. You work autonomously and use your tools to accomplish the task, then report the outcome concisely and directly. **Your responses should be brief and to the point - no conversational filler.**\n\n# Working directory\n"@
        + cwd + "\n\n# Environment\n- Platform: "@ + platform + "\n- Shell: "@ + shell
        + "\n- Date: "@ + date + "\n- Tools: "@ + tool_list(tools)
        + "\n\n# How to work\n- Prefer the smallest correct change. Use `edit` for precise changes to existing files; use `write` only for new files or complete rewrites.\n- Read a file before editing it so your oldText matches exactly (including indentation and whitespace).\n- `edit` applies all entries in `edits[]` against the ORIGINAL file, not incrementally. Each `oldText` must be unique and non-overlapping. Merge nearby changes into one edit.\n- Use `read` (not cat/sed) to inspect files. Use `grep` to search contents and `find` to locate files by name — both respect .gitignore.\n- Use `bash` to run commands, build, and test. Inspect output before declaring success; if a command fails, read the error and fix it.\n- Think step by step when the task is non-trivial, but **do not narrate your thinking process**. Think silently, then report the results.\n- Stay within the working directory; do not modify files outside it unless explicitly asked.\n\n# Output style\n- **Be concise and direct**. Get straight to the point.\n- **No filler or conversational padding**. Avoid phrases like \"Great question!\", \"Certainly!\", \"Here's what I'll do\", etc.\n- **Focus on results**. State what you did and what to verify, nothing more.\n- **When done, summarize briefly**. One sentence for simple tasks, 2-3 sentences for complex ones.\n- **On blockers, be plain**. State what blocked and what's needed, don't elaborate.\n- **Avoid step-by-step narration**. Think silently, then report results.\n"@
}

/// The line that lists a skill.
pub open spec fn skill_line(s: SkillView) -> Seq<char> {
    "- **"@ + s.name + "**: "@ + (if s.description.len() == 0 {
        "(no description)"@
    } else {
        s.description
    }) + "\n"@
}

pub open spec fn skill_lines(v: Seq<SkillView>) -> Seq<char>
    decreases v.len(),
{
    if v.len() == 0 {
        Seq::empty()
    } else {
        skill_lines(v.drop_last()) + skill_line(v.last())
    }
}

/// What the prompt says of skills: nothing where there are none.
pub open spec fn skill_section(v: Seq<SkillView>) -> Seq<char> {
    if v.len() == 0 {
        Seq::empty()
    } else {
        "\n# Skills\n\nSkills are on-demand capability modules. Each is listed with its name and a short description of when to use it. When the user's request matches a skill, invoke it with the `skill` tool — that loads the skill's full instructions, which you then follow. Do not invoke a skill unless it is relevant. A skill may reference supporting files (scripts, references) under its own directory; read those with the `read` tool.\n\nAvailable skills:\n"@
            + skill_lines(v)
    }
}

pub open spec fn extra_section(extra: Option<&str>) -> Seq<char> {
    match extra {
        Some(e) => "\n# Additional instructions\n"@ + e@ + "\n"@,
        None => Seq::empty(),
    }
}

pub open spec fn listed_skills(o: Option<&Skills>) -> Seq<SkillView> {
    match o {
        Some(s) => skill_views(s.skills@),
        None => Seq::empty(),
    }
}

fn make_skill_section(skills: &Skills) -> (r: String)
    ensures
        r@ == skill_section(skill_views(skills.skills@)),
{
    let ghost all = skill_views(skills.skills@);
    assert(all.len() == skills.skills@.len());
    if skills.skills.len() == 0 {
        return String::new();
    }
    let mut lines: String = String::new();
    let mut i: usize = 0;
    while i < skills.skills.len()
        invariant
            all == skill_views(skills.skills@),
            i <= skills.skills@.len(),
            lines@ == skill_lines(all.take(i as int)),
        decreases skills.skills@.len() - i,
    {
        proof {
            assert(all.take(i + 1).drop_last() =~= all.take(i as int));
            assert(all.take(i + 1).last() == skills.skills@[i as int]@);
        }
        let mut line: String = "- **".to_string();
        line.append(skills.skills[i].name.as_str());
        line.append("**: ");
        if skills.skills[i].description.as_str().is_empty() {
            line.append("(no description)");
        } else {
            line.append(skills.skills[i].description.as_str());
        }
        line.append("\n");
        lines.append(line.as_str());
        i += 1;
    }
    assert(all.take(all.len() as int) =~= all);
    let mut out: String = "\n# Skills\n\nSkills are on-demand capability modules. Each is listed with its name and a short description of when to use it. When the user's request matches a skill, invoke it with the `skill` tool — that loads the skill's full instructions, which you then follow. Do not invoke a skill unless it is relevant. A skill may reference supporting files (scripts, references) under its own directory; read those with the `read` tool.\n\nAvailable skills:\n".to_string();
    out.append(lines.as_str());
    out
}

/// Build the coding-assistant system prompt, with live environment info.
pub fn build_system_prompt(opts: PromptOptions<'_>, env: Environment<'_>) -> (r: String)
    ensures
        r@ == base_prompt(
            opts.cwd@,
            env.platform@,
            env.shell@,
            env.date@,
            text::views(opts.tool_names@),
        ) + extra_section(opts.extra) + skill_section(listed_skills(opts.skills)),
{
    let tools: String = if opts.tool_names.len() == 0 {
        "(no tools available)".to_string()
    } else {
        text::join(opts.tool_names, ", ")
    };
    assert(text::views(opts.tool_names@).len() == opts.tool_names@.len());
    let mut prompt: String = "You are pixie-pi, an expert software engineering agent operating in a terminal. You help the user with coding tasks: reading, writing, and editing code, running commands, and searching the codebase. You work autonomously and use your tools to accomplish the task, then report the outcome concisely and directly. **Your responses should be brief and to the point - no conversational filler.**\n\n# Working directory\n".to_string();
    prompt.append(opts.cwd);
    prompt.append("\n\n# Environment\n- Platform: ");
    prompt.append(env.platform);
    prompt.append("\n- Shell: ");
    prompt.append(env.shell);
    prompt.append("\n- Date: ");
    prompt.append(env.date);
    prompt.append("\n- Tools: ");
    prompt.append(tools.as_str());
    prompt.append("\n\n# How to work\n- Prefer the smallest correct change. Use `edit` for precise changes to existing files; use `write` only for new files or complete rewrites.\n- Read a file before editing it so your oldText matches exactly (including indentation and whitespace).\n- `edit` applies all entries in `edits[]` against the ORIGINAL file, not incrementally. Each `oldText` must be unique and non-overlapping. Merge nearby changes into one edit.\n- Use `read` (not cat/sed) to inspect files. Use `grep` to search contents and `find` to locate files by name — both respect .gitignore.\n- Use `bash` to run commands, build, and test. Inspect output before declaring success; if a command fails, read the error and fix it.\n- Think step by step when the task is non-trivial, but **do not narrate your thinking process**. Think silently, then report the results.\n- Stay within the working directory; do not modify files outside it unless explicitly asked.\n\n# Output style\n- **Be concise and direct**. Get straight to the point.\n- **No filler or conversational padding**. Avoid phrases like \"Great question!\", \"Certainly!\", \"Here's what I'll do\", etc.\n- **Focus on results**. State what you did and what to verify, nothing more.\n- **When done, summarize briefly**. One sentence for simple tasks, 2-3 sentences for complex ones.\n- **On blockers, be plain**. State what blocked and what's needed, don't elaborate.\n- **Avoid step-by-step narration**. Think silently, then report results.\n");
    let mut extra: String = String::new();
    if let Some(e) = opts.extra {
        extra = "\n# Additional instructions\n".to_string();
        extra.append(e);
        extra.append("\n");
    }
    prompt.append(extra.as_str());
    let section: String = match opts.skills {
        Some(s) => make_skill_section(s),
        None => String::new(),
    };
    prompt.append(section.as_str());
    prompt
}

/// The prompt says where the agent works: the directory, the platform, the shell,
/// the date and the tools.
pub proof fn law_the_prompt_says_where_the_agent_works(
    cwd: Seq<char>,
    platform: Seq<char>,
    shell: Seq<char>,
    date: Seq<char>,
    tools: Seq<Seq<char>>,
)
    ensures
        text::has_substring(
            base_prompt(cwd, platform, shell, date, tools),
            "# Working directory\n"@ + cwd + "\n\n# Environment\n- Platform: "@ + platform
                + "\n- Shell: "@ + shell + "\n- Date: "@ + date + "\n- Tools: "@ + (if tools.len()
                == 0 {
                "(no tools available)"@
            } else {
                text::joined(tools, ", "@)
            }),
        ),
{
    let first =
        "You are pixie-pi, an expert software engineering agent operating in a terminal. You help the user with coding tasks: reading, writing, and editing code, running commands, and searching the codebase. You work autonomously and use your tools to accomplish the task, then report the outcome concisely and directly. **Your responses should be brief and to the point - no conversational filler.**\n\n# Working directory\n"@;
    reveal_strlit(
        "You are pixie-pi, an expert software engineering agent operating in a terminal. You help the user with coding tasks: reading, writing, and editing code, running commands, and searching the codebase. You work autonomously and use your tools to accomplish the task, then report the outcome concisely and directly. **Your responses should be brief and to the point - no conversational filler.**\n\n# Working directory\n",
    );
    reveal_strlit("# Working directory\n");
    let mark = "# Working directory\n"@;
    let lead = first.take(first.len() - mark.len());
    assert(first =~= lead + mark);
    let told = mark + cwd + "\n\n# Environment\n- Platform: "@ + platform + "\n- Shell: "@ + shell
        + "\n- Date: "@ + date + "\n- Tools: "@ + (if tools.len() == 0 {
        "(no tools available)"@
    } else {
        text::joined(tools, ", "@)
    });
    let whole = base_prompt(cwd, platform, shell, date, tools);
    let n = lead.len() as int;
    assert(whole.subrange(n, n + told.len()) =~= told);
    assert(text::occurs_at(whole, told, n));
}

/// Every skill has a line of its own, with its name and its description, in their
/// order; without skills there is no section of them.
pub proof fn law_every_skill_has_its_line(v: Seq<SkillView>, s: SkillView)
    ensures
        skill_section(Seq::empty()).len() == 0,
        skill_lines(Seq::empty()).len() == 0,
        s.description.len() > 0 ==> skill_lines(v.push(s)) == skill_lines(v) + ("- **"@ + s.name
            + "**: "@ + s.description + "\n"@),
        s.description.len() == 0 ==> skill_lines(v.push(s)) == skill_lines(v) + ("- **"@ + s.name
            + "**: "@ + "(no description)"@ + "\n"@),
        text::finishes_with(skill_section(v.push(s)), skill_lines(v.push(s))),
{
    assert(v.push(s).drop_last() =~= v);
    let section = skill_section(v.push(s));
    let lines = skill_lines(v.push(s));
    assert(section.subrange(section.len() - lines.len(), section.len() as int) =~= lines);
}

/// Additional instructions are put in whole, under a heading of their own.
pub proof fn law_additional_instructions_are_put_in_whole(extra: &str)
    ensures
        extra_section(None).len() == 0,
        extra_section(Some(extra)) == "\n# Additional instructions\n"@ + extra@ + "\n"@,
{
}

} // verus!
