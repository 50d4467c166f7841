//! The interactive session: what a typed line means, and what it answers.

use vstd::prelude::*;

use crate::ai;
use crate::ai::types::{messages_of, models_of, Message, Model, ModelView, ThinkingLevel, Usage};
use crate::session::{names_of, tokens, AgentSession, SessionView};
use crate::text;

verus! {

/// How many characters of the system prompt are shown.
pub const SYSTEM_PREVIEW_CHARS: usize = 400;

// ---------------------------------------------------------------------------
// Input lines
// ---------------------------------------------------------------------------

/// What a typed line is.
#[derive(Debug)]
pub enum InputLine {
    /// Nothing but white space.
    Blank,
    /// A slash command.
    Slash(String),
    /// A prompt for the model.
    Prompt(String),
}

/// Tell commands from prompts. Both are trimmed.
pub fn read_line(line: &str) -> (r: InputLine)
    ensures
        ({
            let t = text::trimmed(line@);
            match r {
                InputLine::Blank => t.len() == 0,
                InputLine::Slash(c) => t.len() > 0 && t[0] == '/' && c@ == t,
                InputLine::Prompt(p) => t.len() > 0 && t[0] != '/' && p@ == t,
            }
        }),
{
    let trimmed: String = text::trim(line);
    let chars: Vec<char> = text::chars_of(trimmed.as_str());
    if chars.len() == 0 {
        InputLine::Blank
    } else if chars[0] == '/' {
        InputLine::Slash(trimmed)
    } else {
        InputLine::Prompt(trimmed)
    }
}

/// A slash command.
#[derive(Debug)]
pub enum SlashCommand {
    Exit,
    Help,
    Clear,
    Model(String),
    Thinking(String),
    Compact,
    Tools,
    Context,
    Cost,
    System,
    Nothing,
    Unknown(String),
}

pub ghost enum CommandView {
    Exit,
    Help,
    Clear,
    Model(Seq<char>),
    Thinking(Seq<char>),
    Compact,
    Tools,
    Context,
    Cost,
    System,
    Nothing,
    Unknown(Seq<char>),
}

impl View for SlashCommand {
    type V = CommandView;

    open spec fn view(&self) -> CommandView {
        match self {
            SlashCommand::Exit => CommandView::Exit,
            SlashCommand::Help => CommandView::Help,
            SlashCommand::Clear => CommandView::Clear,
            SlashCommand::Model(p) => CommandView::Model(p@),
            SlashCommand::Thinking(l) => CommandView::Thinking(l@),
            SlashCommand::Compact => CommandView::Compact,
            SlashCommand::Tools => CommandView::Tools,
            SlashCommand::Context => CommandView::Context,
            SlashCommand::Cost => CommandView::Cost,
            SlashCommand::System => CommandView::System,
            SlashCommand::Nothing => CommandView::Nothing,
            SlashCommand::Unknown(c) => CommandView::Unknown(c@),
        }
    }
}

/// The command that words name: the first is its name, the rest its arguments.
pub open spec fn command_of(words: Seq<Seq<char>>) -> CommandView {
    if words.len() == 0 {
        CommandView::Nothing
    } else {
        let name = words[0];
        let rest = words.drop_first();
        if name == "exit"@ || name == "quit"@ || name == "q"@ {
            CommandView::Exit
        } else if name == "help"@ || name == "h"@ || name == "?"@ {
            CommandView::Help
        } else if name == "clear"@ {
            CommandView::Clear
        } else if name == "model"@ {
            CommandView::Model(text::joined(rest, " "@))
        } else if name == "thinking"@ {
            CommandView::Thinking(
                if rest.len() > 0 {
                    rest[0]
                } else {
                    Seq::empty()
                },
            )
        } else if name == "compact"@ {
            CommandView::Compact
        } else if name == "tools"@ {
            CommandView::Tools
        } else if name == "context"@ || name == "ctx"@ {
            CommandView::Context
        } else if name == "cost"@ {
            CommandView::Cost
        } else if name == "system"@ {
            CommandView::System
        } else {
            CommandView::Unknown(name)
        }
    }
}

/// The command on a line that starts with a slash.
pub open spec fn command_on(line: Seq<char>) -> CommandView {
    command_of(text::words_of(line.drop_first()))
}

/// Read a slash command.
pub fn parse_command(line: &str) -> (r: SlashCommand)
    requires
        line@.len() > 0,
    ensures
        r@ == command_on(line@),
{
    let chars: Vec<char> = text::chars_of(line);
    let tail: String = text::string_of(&chars, 1, chars.len());
    assert(tail@ =~= line@.drop_first());
    let words: Vec<String> = text::split_whitespace(tail.as_str());
    if words.len() == 0 {
        return SlashCommand::Nothing;
    }
    let ghost rest = text::views(words@).drop_first();
    let name: &str = words[0].as_str();
    assert(text::views(words@)[0] == name@);
    if text::same(name, "exit") || text::same(name, "quit") || text::same(name, "q") {
        SlashCommand::Exit
    } else if text::same(name, "help") || text::same(name, "h") || text::same(name, "?") {
        SlashCommand::Help
    } else if text::same(name, "clear") {
        SlashCommand::Clear
    } else if text::same(name, "model") {
        let mut args: Vec<String> = Vec::new();
        let mut i: usize = 1;
        assert(text::views(args@) =~= rest.take(0));
        while i < words.len()
            invariant
                1 <= i <= words@.len(),
                rest == text::views(words@).drop_first(),
                text::views(args@) == rest.take(i - 1),
            decreases words@.len() - i,
        {
            let w: String = words[i].clone();
            proof {
                text::lemma_views_push(args@, w);
                assert(rest.take(i as int) =~= rest.take(i - 1).push(w@));
            }
            args.push(w);
            i += 1;
        }
        assert(rest.take(rest.len() as int) =~= rest);
        SlashCommand::Model(text::join(&args, " "))
    } else if text::same(name, "thinking") {
        if words.len() > 1 {
            assert(rest[0] == words@[1]@);
            SlashCommand::Thinking(words[1].clone())
        } else {
            let none: String = String::new();
            assert(none@ =~= Seq::empty());
            SlashCommand::Thinking(none)
        }
    } else if text::same(name, "compact") {
        SlashCommand::Compact
    } else if text::same(name, "tools") {
        SlashCommand::Tools
    } else if text::same(name, "context") || text::same(name, "ctx") {
        SlashCommand::Context
    } else if text::same(name, "cost") {
        SlashCommand::Cost
    } else if text::same(name, "system") {
        SlashCommand::System
    } else {
        SlashCommand::Unknown(words[0].clone())
    }
}

// ---------------------------------------------------------------------------
// Output
// ---------------------------------------------------------------------------

/// The look of a piece of text.
#[derive(Debug, Clone, Copy, PartialEq, Eq, Structural)]
pub enum Tone {
    Plain,
    Blue,
    Dim,
    Green,
    Magenta,
    Red,
    Yellow,
}

#[derive(Debug)]
pub struct Span {
    pub tone: Tone,
    pub text: String,
}

/// A line to print: on standard error when it reports an error, otherwise on
/// standard output.
#[derive(Debug)]
pub struct Shown {
    pub error: bool,
    pub spans: Vec<Span>,
}

pub open spec fn spans_of(v: Seq<Span>) -> Seq<(Tone, Seq<char>)> {
    v.map_values(|s: Span| (s.tone, s.text@))
}

pub ghost struct ShownView {
    pub error: bool,
    pub spans: Seq<(Tone, Seq<char>)>,
}

impl View for Shown {
    type V = ShownView;

    open spec fn view(&self) -> ShownView {
        ShownView { error: self.error, spans: spans_of(self.spans@) }
    }
}

pub open spec fn shown_of(v: Seq<Shown>) -> Seq<ShownView> {
    v.map_values(|s: Shown| s@)
}

/// A line of one piece.
pub open spec fn line_of(tone: Tone, s: Seq<char>) -> ShownView {
    ShownView { error: false, spans: seq![(tone, s)] }
}

/// An error line.
pub open spec fn error_line(s: Seq<char>) -> ShownView {
    ShownView { error: true, spans: seq![(Tone::Red, s)] }
}

fn one_line(error: bool, tone: Tone, s: String) -> (r: Vec<Shown>)
    ensures
        shown_of(r@) == seq![ShownView { error, spans: seq![(tone, s@)] }],
{
    let spans: Vec<Span> = vec![Span { tone, text: s }];
    assert(spans_of(spans@) =~= seq![(tone, s@)]);
    let r: Vec<Shown> = vec![Shown { error, spans }];
    assert(shown_of(r@) =~= seq![ShownView { error, spans: seq![(tone, s@)] }]);
    r
}

/// The commands that `/help` shows.
pub open spec fn help_entries() -> Seq<(Seq<char>, Seq<char>)> {
    seq![
        ("/help"@, "show available commands"@),
        ("/exit"@, "quit the session"@),
        ("/clear"@, "clear conversation"@),
        ("/model <id>"@, "switch model"@),
        ("/thinking <lvl>"@, "set thinking level"@),
        ("/compact"@, "compress old messages"@),
        ("/context"@, "show token usage"@),
    ]
}

/// The line of a command in the help.
pub open spec fn help_line(entry: (Seq<char>, Seq<char>)) -> ShownView {
    ShownView {
        error: false,
        spans: seq![
            (Tone::Plain, "  "@),
            (Tone::Yellow, entry.0),
            (Tone::Plain, "  "@),
            (Tone::Dim, entry.1),
        ],
    }
}

/// What `/help` shows.
pub open spec fn help_lines() -> Seq<ShownView> {
    seq![line_of(Tone::Blue, "Available commands:"@)] + help_entries().map_values(
        |e: (Seq<char>, Seq<char>)| help_line(e),
    )
}

fn push_help(out: &mut Vec<Shown>, name: &str, about: &str)
    ensures
        shown_of(final(out)@) == shown_of(old(out)@).push(help_line((name@, about@))),
{
    let spans: Vec<Span> = vec![
        Span { tone: Tone::Plain, text: "  ".to_string() },
        Span { tone: Tone::Yellow, text: name.to_string() },
        Span { tone: Tone::Plain, text: "  ".to_string() },
        Span { tone: Tone::Dim, text: about.to_string() },
    ];
    assert(spans_of(spans@) =~= help_line((name@, about@)).spans);
    let line: Shown = Shown { error: false, spans };
    assert(shown_of(out@.push(line)) =~= shown_of(out@).push(line@));
    out.push(line);
}

fn help() -> (r: Vec<Shown>)
    ensures
        shown_of(r@) == help_lines(),
{
    let mut out: Vec<Shown> = one_line(false, Tone::Blue, "Available commands:".to_string());
    push_help(&mut out, "/help", "show available commands");
    push_help(&mut out, "/exit", "quit the session");
    push_help(&mut out, "/clear", "clear conversation");
    push_help(&mut out, "/model <id>", "switch model");
    push_help(&mut out, "/thinking <lvl>", "set thinking level");
    push_help(&mut out, "/compact", "compress old messages");
    push_help(&mut out, "/context", "show token usage");
    assert(shown_of(out@) =~= help_lines());
    out
}

/// The name that a thinking level is shown by.
pub open spec fn level_name(level: ThinkingLevel) -> Seq<char> {
    match level {
        ThinkingLevel::Off => "Off"@,
        ThinkingLevel::Minimal => "Minimal"@,
        ThinkingLevel::Low => "Low"@,
        ThinkingLevel::Medium => "Medium"@,
        ThinkingLevel::High => "High"@,
        ThinkingLevel::Xhigh => "Xhigh"@,
    }
}

fn show_level(level: ThinkingLevel) -> (r: &'static str)
    ensures
        r@ == level_name(level),
{
    match level {
        ThinkingLevel::Off => "Off",
        ThinkingLevel::Minimal => "Minimal",
        ThinkingLevel::Low => "Low",
        ThinkingLevel::Medium => "Medium",
        ThinkingLevel::High => "High",
        ThinkingLevel::Xhigh => "Xhigh",
    }
}

// ---------------------------------------------------------------------------
// Commands
// ---------------------------------------------------------------------------

/// What comes after a command.
#[derive(Debug, Clone, Copy, PartialEq, Eq, Structural)]
pub enum SlashResult {
    Exit,
    Continue,
    /// The transcript is to be compacted now.
    Compact,
}

/// What a command does: the session after it, what comes next, and the lines to
/// print.
pub ghost struct SlashEffect {
    pub session: SessionView,
    pub next: SlashResult,
    pub shown: Seq<ShownView>,
}

/// What is measured outside: the models that can be switched to, the part of
/// the context window in use (in percent), and the total cost in US dollars,
/// written with six decimals.
#[derive(Debug)]
pub struct Surroundings<'a> {
    pub models: &'a Vec<Model>,
    pub usage_percent: u64,
    pub cost: &'a str,
}

/// A command that leaves the session as it is and shows something.
pub open spec fn showing(s: SessionView, shown: Seq<ShownView>) -> SlashEffect {
    SlashEffect { session: s, next: SlashResult::Continue, shown }
}

/// What `/model` does.
pub open spec fn model_effect(
    s: SessionView,
    pattern: Seq<char>,
    models: Seq<ModelView>,
) -> SlashEffect {
    if pattern.len() == 0 {
        showing(s, seq![line_of(Tone::Dim, "current: "@ + s.model.id)])
    } else {
        match ai::first_picked(models, pattern, 0) {
            Some(m) => SlashEffect {
                session: SessionView { model: m, ..s },
                next: SlashResult::Continue,
                shown: seq![
                    ShownView {
                        error: false,
                        spans: seq![
                            (Tone::Dim, s.model.id),
                            (Tone::Plain, " → "@),
                            (Tone::Green, m.id),
                        ],
                    },
                ],
            },
            None => showing(s, seq![error_line("Unknown model"@)]),
        }
    }
}

/// What `/thinking` does.
pub open spec fn thinking_effect(s: SessionView, word: Seq<char>) -> SlashEffect {
    match ThinkingLevel::named(word) {
        Some(level) => SlashEffect {
            session: SessionView { thinking: level, ..s },
            next: SlashResult::Continue,
            shown: seq![line_of(Tone::Dim, "thinking: "@ + level_name(level))],
        },
        None => showing(
            s,
            seq![error_line("Invalid thinking level (off/minimal/low/medium/high/xhigh)"@)],
        ),
    }
}

/// What `/system` shows: the start of the system prompt, and an ellipsis when
/// there is more.
pub open spec fn system_lines(prompt: Seq<char>) -> Seq<ShownView> {
    if prompt.len() > SYSTEM_PREVIEW_CHARS {
        seq![
            line_of(Tone::Plain, prompt.take(SYSTEM_PREVIEW_CHARS as int)),
            line_of(Tone::Dim, "…"@),
        ]
    } else {
        seq![line_of(Tone::Plain, prompt)]
    }
}

/// The line of `/context`.
pub open spec fn context_line(used: nat, window: nat, percent: nat) -> Seq<char> {
    text::decimal(used) + "/"@ + text::decimal(window) + " tokens ("@ + text::decimal(percent)
        + "%)"@
}

/// The line of `/cost`.
pub open spec fn cost_line(cost: Seq<char>, usage: Usage) -> Seq<char> {
    "$"@ + cost + " ("@ + text::decimal(usage.input as nat) + " in, "@ + text::decimal(
        usage.output as nat,
    ) + " out)"@
}

/// What a command does.
pub open spec fn slash_effect(
    s: SessionView,
    command: CommandView,
    models: Seq<ModelView>,
    percent: u64,
    cost: Seq<char>,
) -> SlashEffect {
    match command {
        CommandView::Exit => SlashEffect {
            session: s,
            next: SlashResult::Exit,
            shown: Seq::empty(),
        },
        CommandView::Help => showing(s, help_lines()),
        CommandView::Clear => SlashEffect {
            session: SessionView { messages: Seq::empty(), ..s },
            next: SlashResult::Continue,
            shown: seq![line_of(Tone::Green, "Conversation cleared."@)],
        },
        CommandView::Model(pattern) => model_effect(s, pattern, models),
        CommandView::Thinking(word) => thinking_effect(s, word),
        CommandView::Compact => SlashEffect {
            session: s,
            next: SlashResult::Compact,
            shown: Seq::empty(),
        },
        CommandView::Tools => showing(
            s,
            seq![
                ShownView {
                    error: false,
                    spans: seq![
                        (Tone::Dim, "tools"@),
                        (Tone::Plain, " "@ + text::joined(names_of(s.tools), ", "@)),
                    ],
                },
            ],
        ),
        CommandView::Context => showing(
            s,
            seq![
                line_of(
                    Tone::Dim,
                    context_line(
                        tokens(s.messages),
                        s.model.context_window as nat,
                        percent as nat,
                    ),
                ),
            ],
        ),
        CommandView::Cost => showing(
            s,
            seq![line_of(Tone::Plain, cost_line(cost, s.total_usage))],
        ),
        CommandView::System => showing(s, system_lines(s.system_prompt)),
        CommandView::Nothing => showing(s, Seq::empty()),
        CommandView::Unknown(name) => showing(
            s,
            seq![error_line("Unknown command: /"@ + name + " (try /help)"@)],
        ),
    }
}

fn no_lines() -> (r: Vec<Shown>)
    ensures
        shown_of(r@) == Seq::<ShownView>::empty(),
{
    let r: Vec<Shown> = Vec::new();
    assert(shown_of(r@) =~= Seq::<ShownView>::empty());
    r
}

fn switch_model(session: &mut AgentSession, pattern: &str, models: &Vec<Model>) -> (r: Vec<Shown>)
    ensures
        ({
            let effect = model_effect(old(session)@, pattern@, models_of(models@));
            final(session)@ == effect.session && shown_of(r@) == effect.shown && effect.next
                == SlashResult::Continue
        }),
{
    let chars: Vec<char> = text::chars_of(pattern);
    if chars.len() == 0 {
        let mut out: String = "current: ".to_string();
        out.append(session.model.id.as_str());
        return one_line(false, Tone::Dim, out);
    }
    match ai::resolve_model(models.as_slice(), pattern) {
        Some(m) => {
            let spans: Vec<Span> = vec![
                Span { tone: Tone::Dim, text: session.model.id.clone() },
                Span { tone: Tone::Plain, text: " → ".to_string() },
                Span { tone: Tone::Green, text: m.id.clone() },
            ];
            let ghost wanted = model_effect(session@, pattern@, models_of(models@)).shown;
            assert(spans_of(spans@) =~= wanted[0].spans);
            let r: Vec<Shown> = vec![Shown { error: false, spans }];
            assert(shown_of(r@) =~= wanted);
            session.model = m;
            r
        },
        None => one_line(true, Tone::Red, "Unknown model".to_string()),
    }
}

fn set_thinking(session: &mut AgentSession, word: &str) -> (r: Vec<Shown>)
    ensures
        ({
            let effect = thinking_effect(old(session)@, word@);
            final(session)@ == effect.session && shown_of(r@) == effect.shown && effect.next
                == SlashResult::Continue
        }),
{
    match ThinkingLevel::parse(word) {
        Some(level) => {
            session.thinking = level;
            let mut out: String = "thinking: ".to_string();
            out.append(show_level(level));
            one_line(false, Tone::Dim, out)
        },
        None => one_line(
            true,
            Tone::Red,
            "Invalid thinking level (off/minimal/low/medium/high/xhigh)".to_string(),
        ),
    }
}

fn show_tools(session: &AgentSession) -> (r: Vec<Shown>)
    ensures
        shown_of(r@) == slash_effect(
            session@,
            CommandView::Tools,
            Seq::empty(),
            0,
            Seq::empty(),
        ).shown,
{
    let names: Vec<String> = session.tool_names();
    let mut list: String = " ".to_string();
    list.append(text::join(&names, ", ").as_str());
    let spans: Vec<Span> = vec![
        Span { tone: Tone::Dim, text: "tools".to_string() },
        Span { tone: Tone::Plain, text: list },
    ];
    assert(spans_of(spans@) =~= seq![
        (Tone::Dim, "tools"@),
        (Tone::Plain, " "@ + text::joined(names_of(session@.tools), ", "@)),
    ]);
    let r: Vec<Shown> = vec![Shown { error: false, spans }];
    assert(shown_of(r@) =~= seq![r@[0]@]);
    r
}

fn show_context(session: &AgentSession, percent: u64) -> (r: Vec<Shown>)
    ensures
        shown_of(r@) == slash_effect(
            session@,
            CommandView::Context,
            Seq::empty(),
            percent,
            Seq::empty(),
        ).shown,
{
    let mut out: String = String::new();
    text::push_usize(&mut out, session.estimated_tokens());
    assert(out@ =~= text::decimal(tokens(session@.messages)));
    out.append("/");
    text::push_usize(&mut out, session.model.context_window);
    out.append(" tokens (");
    text::push_number(&mut out, percent as u128);
    out.append("%)");
    one_line(false, Tone::Dim, out)
}

fn show_cost(session: &AgentSession, cost: &str) -> (r: Vec<Shown>)
    ensures
        shown_of(r@) == slash_effect(session@, CommandView::Cost, Seq::empty(), 0, cost@).shown,
{
    let mut out: String = "$".to_string();
    out.append(cost);
    out.append(" (");
    text::push_number(&mut out, session.total_usage.input as u128);
    out.append(" in, ");
    text::push_number(&mut out, session.total_usage.output as u128);
    out.append(" out)");
    one_line(false, Tone::Plain, out)
}

fn show_system(prompt: &str) -> (r: Vec<Shown>)
    ensures
        shown_of(r@) == system_lines(prompt@),
{
    let chars: Vec<char> = text::chars_of(prompt);
    if chars.len() > SYSTEM_PREVIEW_CHARS {
        let preview: String = text::string_of(&chars, 0, SYSTEM_PREVIEW_CHARS);
        assert(preview@ =~= prompt@.take(SYSTEM_PREVIEW_CHARS as int));
        let mut r: Vec<Shown> = one_line(false, Tone::Plain, preview);
        let mut more: Vec<Shown> = one_line(false, Tone::Dim, "…".to_string());
        let ghost before = r@;
        let ghost tail = more@;
        r.append(&mut more);
        assert(shown_of(before + tail) =~= shown_of(before) + shown_of(tail));
        assert(shown_of(r@) =~= system_lines(prompt@));
        r
    } else {
        one_line(false, Tone::Plain, prompt.to_string())
    }
}

/// Carry out a slash command, up to what has to happen outside of it.
pub fn handle_slash(session: &mut AgentSession, input: &str, around: &Surroundings) -> (r: (
    SlashResult,
    Vec<Shown>,
))
    requires
        input@.len() > 0,
    ensures
        (SlashEffect { session: final(session)@, next: r.0, shown: shown_of(r.1@) })
            == slash_effect(
            old(session)@,
            command_on(input@),
            models_of(around.models@),
            around.usage_percent,
            around.cost@,
        ),
{
    match parse_command(input) {
        SlashCommand::Exit => (SlashResult::Exit, no_lines()),
        SlashCommand::Help => (SlashResult::Continue, help()),
        SlashCommand::Clear => {
            let none: Vec<Message> = Vec::new();
            assert(messages_of(none@) =~= Seq::empty());
            session.messages = none;
            (
                SlashResult::Continue,
                one_line(false, Tone::Green, "Conversation cleared.".to_string()),
            )
        },
        SlashCommand::Model(pattern) => {
            let shown: Vec<Shown> = switch_model(session, pattern.as_str(), around.models);
            (SlashResult::Continue, shown)
        },
        SlashCommand::Thinking(word) => {
            let shown: Vec<Shown> = set_thinking(session, word.as_str());
            (SlashResult::Continue, shown)
        },
        SlashCommand::Compact => (SlashResult::Compact, no_lines()),
        SlashCommand::Tools => (SlashResult::Continue, show_tools(session)),
        SlashCommand::Context => (
            SlashResult::Continue,
            show_context(session, around.usage_percent),
        ),
        SlashCommand::Cost => (SlashResult::Continue, show_cost(session, around.cost)),
        SlashCommand::System => (
            SlashResult::Continue,
            show_system(session.system_prompt.as_str()),
        ),
        SlashCommand::Nothing => (SlashResult::Continue, no_lines()),
        SlashCommand::Unknown(name) => {
            let mut out: String = "Unknown command: /".to_string();
            out.append(name.as_str());
            out.append(" (try /help)");
            (SlashResult::Continue, one_line(true, Tone::Red, out))
        },
    }
}

/// What is shown once `/compact` has dropped some messages.
pub fn compacted(dropped: usize) -> (r: Vec<Shown>)
    ensures
        shown_of(r@) == seq![
            line_of(
                Tone::Green,
                "Compacted: "@ + text::decimal(dropped as nat) + " messages"@,
            ),
        ],
{
    let mut out: String = "Compacted: ".to_string();
    text::push_usize(&mut out, dropped);
    out.append(" messages");
    one_line(false, Tone::Green, out)
}

// ---------------------------------------------------------------------------
// Banner and summary
// ---------------------------------------------------------------------------

/// The banner of a session.
pub open spec fn banner_lines(
    version: Seq<char>,
    model: Seq<char>,
    percent: nat,
    cwd: Seq<char>,
) -> Seq<ShownView> {
    seq![
        ShownView {
            error: false,
            spans: seq![
                (Tone::Magenta, "pixie-pi"@),
                (Tone::Plain, " v"@ + version + " — "@),
                (Tone::Green, model),
                (Tone::Plain, " — "@ + text::decimal(percent) + "%"@),
            ],
        },
        line_of(Tone::Dim, "cwd: "@ + cwd),
        line_of(Tone::Dim, "Type /help for commands"@),
        ShownView { error: false, spans: Seq::empty() },
    ]
}

/// The lines shown when a session starts.
pub fn banner(session: &AgentSession, version: &str, usage_percent: u64) -> (r: Vec<Shown>)
    ensures
        shown_of(r@) == banner_lines(
            version@,
            session@.model.id,
            usage_percent as nat,
            session@.cwd,
        ),
{
    let mut after_name: String = " v".to_string();
    after_name.append(version);
    after_name.append(" — ");
    let mut percent: String = " — ".to_string();
    text::push_number(&mut percent, usage_percent as u128);
    percent.append("%");
    let mut cwd: String = "cwd: ".to_string();
    cwd.append(session.cwd.as_str());
    let ghost wanted = banner_lines(version@, session@.model.id, usage_percent as nat, session@.cwd);
    let first: Vec<Span> = vec![
        Span { tone: Tone::Magenta, text: "pixie-pi".to_string() },
        Span { tone: Tone::Plain, text: after_name },
        Span { tone: Tone::Green, text: session.model.id.clone() },
        Span { tone: Tone::Plain, text: percent },
    ];
    assert(spans_of(first@) =~= wanted[0].spans);
    let second: Vec<Span> = vec![Span { tone: Tone::Dim, text: cwd }];
    assert(spans_of(second@) =~= wanted[1].spans);
    let third: Vec<Span> = vec![
        Span { tone: Tone::Dim, text: "Type /help for commands".to_string() },
    ];
    assert(spans_of(third@) =~= wanted[2].spans);
    let last: Vec<Span> = Vec::new();
    assert(spans_of(last@) =~= wanted[3].spans);
    let r: Vec<Shown> = vec![
        Shown { error: false, spans: first },
        Shown { error: false, spans: second },
        Shown { error: false, spans: third },
        Shown { error: false, spans: last },
    ];
    assert(shown_of(r@) =~= wanted);
    r
}

/// The summary after a turn: only when the session is costly, or when more than
/// half of the context window is in use. `cost` is the total in US dollars,
/// written with four decimals.
pub fn turn_summary(usage: &Usage, costly: bool, cost: &str, usage_percent: u64) -> (r: Option<
    String,
>)
    ensures
        match r {
            Some(s) => (costly || usage_percent > 50) && s@ == "  ↳ "@ + text::decimal(
                usage.output as nat,
            ) + " out, "@ + text::decimal(usage.input as nat) + " in, $"@ + cost@ + ", ctx "@
                + text::decimal(usage_percent as nat) + "%"@,
            None => !costly && usage_percent <= 50,
        },
{
    if !costly && usage_percent <= 50 {
        return None;
    }
    let mut out: String = "  ↳ ".to_string();
    text::push_number(&mut out, usage.output as u128);
    out.append(" out, ");
    text::push_number(&mut out, usage.input as u128);
    out.append(" in, $");
    out.append(cost);
    out.append(", ctx ");
    text::push_number(&mut out, usage_percent as u128);
    out.append("%");
    Some(out)
}

// ---------------------------------------------------------------------------
// Laws
// ---------------------------------------------------------------------------

/// Of all commands only `/clear` touches the transcript, only `/model` the
/// model, and only `/thinking` the thinking level; nothing else of the session
/// ever changes.
pub proof fn law_commands_change_only_what_they_name(
    s: SessionView,
    command: CommandView,
    models: Seq<ModelView>,
    percent: u64,
    cost: Seq<char>,
)
    ensures
        ({
            let after = slash_effect(s, command, models, percent, cost).session;
            &&& after.messages != s.messages ==> command is Clear
            &&& after.model != s.model ==> command is Model
            &&& after.thinking != s.thinking ==> command is Thinking
            &&& after == (SessionView {
                messages: after.messages,
                model: after.model,
                thinking: after.thinking,
                ..s
            })
        }),
{
}

/// Every line but an exit command keeps the session going.
pub proof fn law_only_exit_commands_end_the_session(
    s: SessionView,
    command: CommandView,
    models: Seq<ModelView>,
    percent: u64,
    cost: Seq<char>,
)
    ensures
        (slash_effect(s, command, models, percent, cost).next == SlashResult::Exit) <==> (command
            is Exit),
{
}

/// A command is told by its first word.
pub proof fn law_commands_are_told_by_their_first_word(name: Seq<char>, rest: Seq<Seq<char>>)
    ensures
        ({
            let c = command_of(seq![name] + rest);
            &&& c is Exit <==> name == "exit"@ || name == "quit"@ || name == "q"@
            &&& c is Help <==> name == "help"@ || name == "h"@ || name == "?"@
            &&& c is Clear <==> name == "clear"@
            &&& c is Model <==> name == "model"@
            &&& c is Thinking <==> name == "thinking"@
            &&& c is Compact <==> name == "compact"@
            &&& c is Tools <==> name == "tools"@
            &&& c is Context <==> name == "context"@ || name == "ctx"@
            &&& c is Cost <==> name == "cost"@
            &&& c is System <==> name == "system"@
            &&& !(c is Nothing)
            &&& c matches CommandView::Unknown(n) ==> n == name
            &&& c matches CommandView::Model(p) ==> p == text::joined(rest, " "@)
            &&& c matches CommandView::Thinking(w) ==> w == (if rest.len() > 0 {
                rest[0]
            } else {
                Seq::empty()
            })
        }),
        command_of(Seq::empty()) is Nothing,
{
    let words = seq![name] + rest;
    assert(words[0] == name);
    assert(words.drop_first() =~= rest);
    reveal_strlit("exit");
    reveal_strlit("quit");
    reveal_strlit("q");
    reveal_strlit("help");
    reveal_strlit("h");
    reveal_strlit("?");
    reveal_strlit("clear");
    reveal_strlit("model");
    reveal_strlit("thinking");
    reveal_strlit("compact");
    reveal_strlit("tools");
    reveal_strlit("context");
    reveal_strlit("ctx");
    reveal_strlit("cost");
    reveal_strlit("system");
    assert("exit"@[0] != "quit"@[0]);
    assert("exit"@.len() != "q"@.len());
    assert("exit"@[0] != "help"@[0]);
    assert("exit"@.len() != "h"@.len());
    assert("exit"@.len() != "?"@.len());
    assert("exit"@.len() != "clear"@.len());
    assert("exit"@.len() != "model"@.len());
    assert("exit"@.len() != "thinking"@.len());
    assert("exit"@.len() != "compact"@.len());
    assert("exit"@.len() != "tools"@.len());
    assert("exit"@.len() != "context"@.len());
    assert("exit"@.len() != "ctx"@.len());
    assert("exit"@[0] != "cost"@[0]);
    assert("exit"@.len() != "system"@.len());
    assert("quit"@.len() != "q"@.len());
    assert("quit"@[0] != "help"@[0]);
    assert("quit"@.len() != "h"@.len());
    assert("quit"@.len() != "?"@.len());
    assert("quit"@.len() != "clear"@.len());
    assert("quit"@.len() != "model"@.len());
    assert("quit"@.len() != "thinking"@.len());
    assert("quit"@.len() != "compact"@.len());
    assert("quit"@.len() != "tools"@.len());
    assert("quit"@.len() != "context"@.len());
    assert("quit"@.len() != "ctx"@.len());
    assert("quit"@[0] != "cost"@[0]);
    assert("quit"@.len() != "system"@.len());
    assert("q"@.len() != "help"@.len());
    assert("q"@[0] != "h"@[0]);
    assert("q"@[0] != "?"@[0]);
    assert("q"@.len() != "clear"@.len());
    assert("q"@.len() != "model"@.len());
    assert("q"@.len() != "thinking"@.len());
    assert("q"@.len() != "compact"@.len());
    assert("q"@.len() != "tools"@.len());
    assert("q"@.len() != "context"@.len());
    assert("q"@.len() != "ctx"@.len());
    assert("q"@.len() != "cost"@.len());
    assert("q"@.len() != "system"@.len());
    assert("help"@.len() != "h"@.len());
    assert("help"@.len() != "?"@.len());
    assert("help"@.len() != "clear"@.len());
    assert("help"@.len() != "model"@.len());
    assert("help"@.len() != "thinking"@.len());
    assert("help"@.len() != "compact"@.len());
    assert("help"@.len() != "tools"@.len());
    assert("help"@.len() != "context"@.len());
    assert("help"@.len() != "ctx"@.len());
    assert("help"@[0] != "cost"@[0]);
    assert("help"@.len() != "system"@.len());
    assert("h"@[0] != "?"@[0]);
    assert("h"@.len() != "clear"@.len());
    assert("h"@.len() != "model"@.len());
    assert("h"@.len() != "thinking"@.len());
    assert("h"@.len() != "compact"@.len());
    assert("h"@.len() != "tools"@.len());
    assert("h"@.len() != "context"@.len());
    assert("h"@.len() != "ctx"@.len());
    assert("h"@.len() != "cost"@.len());
    assert("h"@.len() != "system"@.len());
    assert("?"@.len() != "clear"@.len());
    assert("?"@.len() != "model"@.len());
    assert("?"@.len() != "thinking"@.len());
    assert("?"@.len() != "compact"@.len());
    assert("?"@.len() != "tools"@.len());
    assert("?"@.len() != "context"@.len());
    assert("?"@.len() != "ctx"@.len());
    assert("?"@.len() != "cost"@.len());
    assert("?"@.len() != "system"@.len());
    assert("clear"@[0] != "model"@[0]);
    assert("clear"@.len() != "thinking"@.len());
    assert("clear"@.len() != "compact"@.len());
    assert("clear"@[0] != "tools"@[0]);
    assert("clear"@.len() != "context"@.len());
    assert("clear"@.len() != "ctx"@.len());
    assert("clear"@.len() != "cost"@.len());
    assert("clear"@.len() != "system"@.len());
    assert("model"@.len() != "thinking"@.len());
    assert("model"@.len() != "compact"@.len());
    assert("model"@[0] != "tools"@[0]);
    assert("model"@.len() != "context"@.len());
    assert("model"@.len() != "ctx"@.len());
    assert("model"@.len() != "cost"@.len());
    assert("model"@.len() != "system"@.len());
    assert("thinking"@.len() != "compact"@.len());
    assert("thinking"@.len() != "tools"@.len());
    assert("thinking"@.len() != "context"@.len());
    assert("thinking"@.len() != "ctx"@.len());
    assert("thinking"@.len() != "cost"@.len());
    assert("thinking"@.len() != "system"@.len());
    assert("compact"@.len() != "tools"@.len());
    assert("compact"@[2] != "context"@[2]);
    assert("compact"@.len() != "ctx"@.len());
    assert("compact"@.len() != "cost"@.len());
    assert("compact"@.len() != "system"@.len());
    assert("tools"@.len() != "context"@.len());
    assert("tools"@.len() != "ctx"@.len());
    assert("tools"@.len() != "cost"@.len());
    assert("tools"@.len() != "system"@.len());
    assert("context"@.len() != "ctx"@.len());
    assert("context"@.len() != "cost"@.len());
    assert("context"@.len() != "system"@.len());
    assert("ctx"@.len() != "cost"@.len());
    assert("ctx"@.len() != "system"@.len());
    assert("cost"@.len() != "system"@.len());
}

/// The words of a command are those behind its slash.
pub proof fn law_a_command_is_what_follows_the_slash(words: Seq<char>)
    ensures
        command_on(seq!['/'] + words) == command_of(text::words_of(words)),
{
    assert((seq!['/'] + words).drop_first() =~= words);
}

/// Clearing empties the transcript, and says so.
pub proof fn law_clearing_empties_the_transcript(
    s: SessionView,
    models: Seq<ModelView>,
    percent: u64,
    cost: Seq<char>,
)
    ensures
        ({
            let e = slash_effect(s, CommandView::Clear, models, percent, cost);
            &&& e.session == (SessionView { messages: Seq::empty(), ..s })
            &&& e.next == SlashResult::Continue
            &&& e.shown == seq![
                ShownView { error: false, spans: seq![(Tone::Green, "Conversation cleared."@)] },
            ]
        }),
{
}

/// The model is switched to the first one that the pattern picks; where it picks
/// none that is an error and the model stays; without a pattern the current one is
/// told.
pub proof fn law_the_model_is_switched_to_the_first_picked(
    s: SessionView,
    pattern: Seq<char>,
    models: Seq<ModelView>,
    percent: u64,
    cost: Seq<char>,
)
    ensures
        ({
            let e = slash_effect(s, CommandView::Model(pattern), models, percent, cost);
            &&& e.next == SlashResult::Continue
            &&& pattern.len() == 0 ==> e.session == s && e.shown == seq![
                ShownView { error: false, spans: seq![(Tone::Dim, "current: "@ + s.model.id)] },
            ]
            &&& pattern.len() > 0 && ai::first_picked(models, pattern, 0) is None ==> e.session == s
                && e.shown == seq![
                ShownView { error: true, spans: seq![(Tone::Red, "Unknown model"@)] },
            ]
            &&& pattern.len() > 0 ==> (ai::first_picked(models, pattern, 0) matches Some(m) ==> {
                &&& e.session == (SessionView { model: m, ..s })
                &&& e.shown.len() == 1
                &&& !e.shown[0].error
                &&& e.shown[0].spans == seq![
                    (Tone::Dim, s.model.id),
                    (Tone::Plain, " → "@),
                    (Tone::Green, m.id),
                ]
            })
        }),
{
}

/// The level of thinking is set to the one that is named, and told; a name that is
/// none is an error, and the level stays.
pub proof fn law_the_level_is_set_by_its_name(
    s: SessionView,
    word: Seq<char>,
    models: Seq<ModelView>,
    percent: u64,
    cost: Seq<char>,
)
    ensures
        ({
            let e = slash_effect(s, CommandView::Thinking(word), models, percent, cost);
            let l = e.session.thinking;
            &&& e.next == SlashResult::Continue
            &&& e.session == (SessionView { thinking: l, ..s })
            &&& text::lower(word) == "off"@ ==> l == ThinkingLevel::Off
            &&& text::lower(word) == "minimal"@ ==> l == ThinkingLevel::Minimal
            &&& text::lower(word) == "low"@ ==> l == ThinkingLevel::Low
            &&& text::lower(word) == "medium"@ ==> l == ThinkingLevel::Medium
            &&& text::lower(word) == "high"@ ==> l == ThinkingLevel::High
            &&& text::lower(word) == "xhigh"@ ==> l == ThinkingLevel::Xhigh
            &&& ThinkingLevel::named(word) is Some <==> seq![
                "off"@,
                "minimal"@,
                "low"@,
                "medium"@,
                "high"@,
                "xhigh"@,
            ].contains(text::lower(word))
            &&& ThinkingLevel::named(word) is None ==> l == s.thinking && e.shown.len() == 1
                && e.shown[0].error
            &&& ThinkingLevel::named(word) is Some ==> e.shown.len() == 1 && !e.shown[0].error
        }),
{
    let words = seq!["off"@, "minimal"@, "low"@, "medium"@, "high"@, "xhigh"@];
    assert(words[0] == "off"@ && words[1] == "minimal"@ && words[2] == "low"@ && words[3]
        == "medium"@ && words[4] == "high"@ && words[5] == "xhigh"@);
    reveal_strlit("off");
    reveal_strlit("minimal");
    reveal_strlit("low");
    reveal_strlit("medium");
    reveal_strlit("high");
    reveal_strlit("xhigh");
    assert("off"@.len() != "minimal"@.len());
    assert("off"@[0] != "low"@[0]);
    assert("off"@.len() != "medium"@.len());
    assert("off"@.len() != "high"@.len());
    assert("off"@.len() != "xhigh"@.len());
    assert("minimal"@.len() != "low"@.len());
    assert("minimal"@.len() != "medium"@.len());
    assert("minimal"@.len() != "high"@.len());
    assert("minimal"@.len() != "xhigh"@.len());
    assert("low"@.len() != "medium"@.len());
    assert("low"@.len() != "high"@.len());
    assert("low"@.len() != "xhigh"@.len());
    assert("medium"@.len() != "high"@.len());
    assert("medium"@.len() != "xhigh"@.len());
    assert("high"@.len() != "xhigh"@.len());
}

/// What is told: the tools by their names, the tokens against the window, the cost
/// with the counters, the start of the system prompt. None of it changes the
/// session.
pub proof fn law_what_commands_tell(
    s: SessionView,
    models: Seq<ModelView>,
    percent: u64,
    cost: Seq<char>,
)
    ensures
        slash_effect(s, CommandView::Context, models, percent, cost).shown == seq![
            ShownView {
                error: false,
                spans: seq![
                    (
                        Tone::Dim,
                        text::decimal(tokens(s.messages)) + "/"@ + text::decimal(
                            s.model.context_window as nat,
                        ) + " tokens ("@ + text::decimal(percent as nat) + "%)"@,
                    ),
                ],
            },
        ],
        slash_effect(s, CommandView::Cost, models, percent, cost).shown == seq![
            ShownView {
                error: false,
                spans: seq![
                    (
                        Tone::Plain,
                        "$"@ + cost + " ("@ + text::decimal(s.total_usage.input as nat) + " in, "@
                            + text::decimal(s.total_usage.output as nat) + " out)"@,
                    ),
                ],
            },
        ],
        ({
            let told = slash_effect(s, CommandView::Tools, models, percent, cost).shown;
            told.len() == 1 && !told[0].error && told[0].spans.len() == 2 && told[0].spans[1].1
                == " "@ + text::joined(
                Seq::new(s.tools.len(), |i: int| s.tools[i].schema.name),
                ", "@,
            )
        }),
        ({
            let told = slash_effect(s, CommandView::System, models, percent, cost).shown;
            &&& s.system_prompt.len() <= 400 ==> told == seq![
                ShownView { error: false, spans: seq![(Tone::Plain, s.system_prompt)] },
            ]
            &&& s.system_prompt.len() > 400 ==> told == seq![
                ShownView { error: false, spans: seq![(Tone::Plain, s.system_prompt.take(400))] },
                ShownView { error: false, spans: seq![(Tone::Dim, "…"@)] },
            ]
        }),
        slash_effect(s, CommandView::Compact, models, percent, cost).next == SlashResult::Compact,
        slash_effect(s, CommandView::Nothing, models, percent, cost) == (SlashEffect {
            session: s,
            next: SlashResult::Continue,
            shown: Seq::empty(),
        }),
{
    assert(Seq::new(s.tools.len(), |i: int| s.tools[i].schema.name) =~= names_of(s.tools));
}

/// An unknown command is an error that names it.
pub proof fn law_unknown_commands_are_named(
    s: SessionView,
    name: Seq<char>,
    models: Seq<ModelView>,
    percent: u64,
    cost: Seq<char>,
)
    ensures
        slash_effect(s, CommandView::Unknown(name), models, percent, cost) == (SlashEffect {
            session: s,
            next: SlashResult::Continue,
            shown: seq![
                ShownView {
                    error: true,
                    spans: seq![(Tone::Red, "Unknown command: /"@ + name + " (try /help)"@)],
                },
            ],
        }),
{
}

/// The banner names the program's version, the model, how full the context is, and
/// the working directory.
pub proof fn law_the_banner_names_the_session(
    version: Seq<char>,
    model: Seq<char>,
    percent: nat,
    cwd: Seq<char>,
)
    ensures
        ({
            let b = banner_lines(version, model, percent, cwd);
            &&& b.len() == 4
            &&& b[0].spans == seq![
                (Tone::Magenta, "pixie-pi"@),
                (Tone::Plain, " v"@ + version + " — "@),
                (Tone::Green, model),
                (Tone::Plain, " — "@ + text::decimal(percent) + "%"@),
            ]
            &&& b[1].spans == seq![(Tone::Dim, "cwd: "@ + cwd)]
            &&& forall|i: int| 0 <= i < 4 ==> !(#[trigger] b[i]).error
        }),
{
}

/// The help tells every command that it names, on a line of its own.
pub proof fn law_help_tells_the_commands(i: int)
    requires
        0 <= i < help_entries().len(),
    ensures
        help_lines().len() == help_entries().len() + 1,
        help_lines()[i + 1].spans.len() == 4,
        help_lines()[i + 1].spans[1].1 == help_entries()[i].0,
        help_lines()[i + 1].spans[3].1 == help_entries()[i].1,
        !help_lines()[i + 1].error,
        help_entries()[0].0 == "/help"@,
        help_entries()[1].0 == "/exit"@,
        help_entries()[2].0 == "/clear"@,
        help_entries()[3].0 == "/model <id>"@,
        help_entries()[4].0 == "/thinking <lvl>"@,
        help_entries()[5].0 == "/compact"@,
        help_entries()[6].0 == "/context"@,
{
}

/// Asking for help shows the help and changes nothing; leaving and compacting show
/// nothing.
pub proof fn law_help_leaving_and_compacting(
    s: SessionView,
    models: Seq<ModelView>,
    percent: u64,
    cost: Seq<char>,
)
    ensures
        slash_effect(s, CommandView::Help, models, percent, cost) == (SlashEffect {
            session: s,
            next: SlashResult::Continue,
            shown: help_lines(),
        }),
        slash_effect(s, CommandView::Exit, models, percent, cost) == (SlashEffect {
            session: s,
            next: SlashResult::Exit,
            shown: Seq::empty(),
        }),
        slash_effect(s, CommandView::Compact, models, percent, cost) == (SlashEffect {
            session: s,
            next: SlashResult::Compact,
            shown: Seq::empty(),
        }),
{
}

} // verus!
