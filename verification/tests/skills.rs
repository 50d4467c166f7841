//! Skills, the skill tool and the system prompt.

use pixie_pi::json::Json;
use pixie_pi::prompt::{build_system_prompt, Environment, PromptOptions};
use pixie_pi::skills::{
    parse_frontmatter, parse_skill_file, skill_roots, split_frontmatter, unquote, RootEntry, Skill,
    SkillRoot, SkillSource, Skills,
};
use pixie_pi::tools::skill::SkillTool;

#[test]
fn parses_name_description_and_body() {
    let md = "---\nname: my-skill\ndescription: Use when foo\n---\n# Steps\nDo the thing.\n";
    let (fm, body) = split_frontmatter(md);
    let p = parse_frontmatter(&fm.unwrap());
    assert_eq!(p.name, "my-skill");
    assert_eq!(p.description, "Use when foo");
    assert!(body.contains("# Steps"));
    assert!(body.contains("Do the thing."));
}

#[test]
fn ignores_unknown_frontmatter_keys_like_allowed_tools() {
    let p = parse_frontmatter("name: a\ndescription: do a thing\nallowed-tools: [bash, read]\n");
    assert_eq!(p.name, "a");
    assert_eq!(p.description, "do a thing");
}

#[test]
fn strips_quotes_around_values() {
    let p = parse_frontmatter("name: \"quoted-name\"\ndescription: 'single quoted'\n");
    assert_eq!(p.name, "quoted-name");
    assert_eq!(p.description, "single quoted");
}

#[test]
fn unmatched_quotes_stay() {
    assert_eq!(unquote("\"a'"), "\"a'");
    assert_eq!(unquote("'a'"), "a");
    assert_eq!(unquote("\""), "\"");
}

#[test]
fn no_frontmatter_falls_back_to_dir_name() {
    let skill = parse_skill_file(
        "Just a body, no frontmatter.\n",
        "/tmp/skills/plain-skill",
        SkillSource::Project,
    )
    .unwrap();
    assert_eq!(skill.name, "plain-skill");
    assert_eq!(skill.description, "");
    assert!(skill.body.contains("Just a body"));
}

fn skill(path: &str, raw: &str) -> RootEntry {
    RootEntry { path: path.to_string(), is_dir: true, skill_md: Some(raw.to_string()) }
}

fn project(entries: Vec<RootEntry>) -> SkillRoot {
    SkillRoot { source: SkillSource::Project, entries: Some(entries) }
}

fn user(entries: Vec<RootEntry>) -> SkillRoot {
    SkillRoot { source: SkillSource::User, entries: Some(entries) }
}

#[test]
fn discover_finds_project_and_user_skills() {
    let skills = Skills::discover_from_roots(&vec![
        project(vec![skill("/p/alpha", "---\nname: alpha\ndescription: a\n---\nbody-a\n")]),
        user(vec![skill("/u/beta", "---\nname: beta\ndescription: b\n---\nbody-b\n")]),
    ]);
    let names = skills.names();
    assert!(names.contains(&"alpha".to_string()), "{names:?}");
    assert!(names.contains(&"beta".to_string()), "{names:?}");
}

#[test]
fn project_skill_shadows_user_skill_of_same_name() {
    let skills = Skills::discover_from_roots(&vec![
        project(vec![skill(
            "/p/shared",
            "---\nname: shared\ndescription: PROJECT\n---\nproj-body\n",
        )]),
        user(vec![skill("/u/shared", "---\nname: shared\ndescription: USER\n---\nuser-body\n")]),
    ]);
    assert_eq!(skills.skills.iter().filter(|s| s.name == "shared").count(), 1);
    assert_eq!(skills.find("shared").unwrap().description, "PROJECT");
    assert_eq!(skills.find("shared").unwrap().source, SkillSource::Project);
}

#[test]
fn discover_ignores_files_and_dirs_without_skill_md() {
    let skills = Skills::discover_from_roots(&vec![project(vec![
        RootEntry { path: "/r/not-a-skill".to_string(), is_dir: true, skill_md: None },
        RootEntry { path: "/r/loose-file.md".to_string(), is_dir: false, skill_md: None },
        skill("/r/real", "---\nname: real\ndescription: r\n---\nb\n"),
    ])]);
    assert_eq!(skills.names(), vec!["real"]);
}

#[test]
fn a_missing_root_adds_nothing() {
    let skills = Skills::discover_from_roots(&vec![
        SkillRoot { source: SkillSource::Project, entries: None },
        user(vec![skill("/u/one", "body")]),
    ]);
    assert_eq!(skills.names(), vec!["one"]);
    assert_eq!(skills.find("one").unwrap().source, SkillSource::User);
}

#[test]
fn below_one_root_the_least_path_wins() {
    let skills = Skills::discover_from_roots(&vec![project(vec![
        skill("/r/zeta", "---\nname: same\ndescription: from zeta\n---\nb\n"),
        skill("/r/mid", "---\nname: other\ndescription: m\n---\nb\n"),
        skill("/r/alpha", "---\nname: same\ndescription: from alpha\n---\nb\n"),
    ])]);
    assert_eq!(skills.names(), vec!["same", "other"]);
    assert_eq!(skills.find("same").unwrap().description, "from alpha");
    assert_eq!(skills.find("same").unwrap().dir, "/r/alpha");
}

#[test]
fn skills_are_listed_in_path_order_root_by_root() {
    let skills = Skills::discover_from_roots(&vec![
        project(vec![skill("/p/d", "x"), skill("/p/b", "x"), skill("/p/c", "x")]),
        user(vec![skill("/u/b", "x"), skill("/u/a", "x")]),
    ]);
    assert_eq!(skills.names(), vec!["b", "c", "d", "a"]);
    assert_eq!(skills.find("b").unwrap().dir, "/p/b");
}

#[test]
fn there_may_be_no_skills() {
    assert!(Skills::empty().names().is_empty());
    assert!(Skills::empty().find("x").is_none());
}

fn environment() -> Environment<'static> {
    Environment { platform: "linux", shell: "/bin/sh", date: "2025-01-05" }
}

#[test]
fn prompt_lists_discovered_skills_by_name_and_description() {
    let skills = Skills {
        skills: vec![Skill {
            name: "deploy".into(),
            description: "How to ship to prod".into(),
            body: String::new(),
            dir: ".".into(),
            source: SkillSource::Project,
        }],
    };
    let p = build_system_prompt(
        PromptOptions {
            cwd: ".",
            tool_names: &vec!["read".to_string()],
            extra: None,
            skills: Some(&skills),
        },
        environment(),
    );
    assert!(p.contains("# Skills"), "skills section present");
    assert!(p.contains("**deploy**"), "skill name listed");
    assert!(p.contains("How to ship to prod"), "skill description listed");
    assert!(p.contains("`skill` tool"), "guidance to invoke via skill tool");
}

#[test]
fn prompt_has_no_skills_section_when_none() {
    let p = build_system_prompt(
        PromptOptions { cwd: ".", tool_names: &vec!["read".to_string()], extra: None, skills: None },
        environment(),
    );
    assert!(!p.contains("# Skills"));
}

#[test]
fn the_prompt_names_its_surroundings() {
    let p = build_system_prompt(
        PromptOptions { cwd: "/work", tool_names: &vec![], extra: Some("EXTRA"), skills: None },
        environment(),
    );
    assert!(p.contains("/work"), "{p}");
    assert!(p.contains("2025-01-05"), "{p}");
    assert!(p.contains("linux"), "{p}");
    assert!(p.contains("(no tools available)"), "{p}");
    assert!(p.contains("EXTRA"), "{p}");
}

fn registry_with(skill: Skill) -> Skills {
    Skills { skills: vec![skill] }
}

fn run_skill(tool: &SkillTool, args: Json) -> Result<String, String> {
    tool.load(&args).map_err(|e| e.message())
}

fn deploy(body: &str, dir: &str) -> Skill {
    Skill {
        name: "deploy".into(),
        description: "How to deploy".into(),
        body: body.into(),
        dir: dir.into(),
        source: SkillSource::Project,
    }
}

#[test]
fn returns_body_for_known_skill_and_surfaces_dir() {
    let dir = "/tmp/pi-skilltool";
    let tool = SkillTool::new(
        ".".to_string(),
        registry_with(deploy("Run `make deploy` then verify.", dir)),
    );
    let args = Json::object().with("skill", Json::str("deploy")).with("args", Json::str("prod"));
    let out = run_skill(&tool, args).unwrap();
    assert!(out.contains("# Skill: deploy"), "{out}");
    assert!(out.contains("Run `make deploy`"), "{out}");
    assert!(out.contains("Arguments: prod"), "{out}");
    assert!(out.contains(dir), "{out}");
}

#[test]
fn unknown_skill_lists_available() {
    let tool = SkillTool::new(".".to_string(), registry_with(deploy("b", ".")));
    let err = run_skill(&tool, Json::object().with("skill", Json::str("nope"))).unwrap_err();
    assert!(err.contains("Unknown skill 'nope'"), "{err}");
    assert!(err.contains("deploy"), "should list available: {err}");
}

#[test]
fn missing_skill_param_errors() {
    let tool = SkillTool::new(".".to_string(), Skills::empty());
    let err = run_skill(&tool, Json::object()).unwrap_err();
    assert!(err.contains("requires a 'skill'"), "{err}");
}

#[test]
fn a_skill_is_rendered_exactly() {
    let tool = SkillTool::new(".".to_string(), registry_with(deploy("\n body \n", "/d")));
    assert!(tool.description().ends_with("Available skills: deploy"));
    let out = run_skill(
        &tool,
        Json::object().with("skill", Json::str("deploy")).with("args", Json::str("  ")),
    )
    .unwrap();
    assert_eq!(
        out,
        "# Skill: deploy\n\nbody\n\n---\nSkill directory: `/d`. Reference any supporting files (scripts, references) by their path under this directory using the read or bash tools."
    );
}

#[test]
fn skills_are_looked_for_in_two_places() {
    assert_eq!(
        skill_roots("/w", Some("/h"), ".agent"),
        vec![
            ("/w/.agent/skills".to_string(), SkillSource::Project),
            ("/h/.agent/skills".to_string(), SkillSource::User),
        ]
    );
    assert_eq!(skill_roots("/w", None, ".agent").len(), 1);
    let tool = SkillTool::new(".".to_string(), Skills::empty());
    assert_eq!(tool.schema().name, "skill");
}
