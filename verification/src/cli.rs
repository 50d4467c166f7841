//! What the command line asks for.

use vstd::prelude::*;

use crate::text;

verus! {

#[derive(Debug, Clone, Copy, PartialEq, Eq, Structural)]
pub enum OutputMode {
    Text,
    Json,
}

impl OutputMode {
    pub fn parse(s: &str) -> (r: Option<OutputMode>)
        ensures
            match r {
                Some(OutputMode::Text) => s@ == "text"@,
                Some(OutputMode::Json) => s@ == "json"@,
                None => s@ != "text"@ && s@ != "json"@,
            },
    {
        if text::same(s, "text") {
            Some(OutputMode::Text)
        } else if text::same(s, "json") {
            Some(OutputMode::Json)
        } else {
            None
        }
    }
}

#[derive(Debug, Clone, Copy, PartialEq, Eq, Structural)]
pub enum AppMode {
    Interactive,
    Print(OutputMode),
}

/// An argument that names a file to read: `@` and a name, not `@@`.
pub open spec fn names_a_file(arg: Seq<char>) -> bool {
    arg.len() > 1 && arg[0] == '@' && arg[1] != '@'
}

/// The arguments that name files, or those that do not, in their order.
pub open spec fn chosen(args: Seq<Seq<char>>, files: bool) -> Seq<Seq<char>>
    decreases args.len(),
{
    if args.len() == 0 {
        Seq::empty()
    } else if names_a_file(args.last()) == files {
        chosen(args.drop_last(), files).push(args.last())
    } else {
        chosen(args.drop_last(), files)
    }
}

pub fn is_file_argument(arg: &str) -> (r: bool)
    ensures
        r == names_a_file(arg@),
{
    let v: Vec<char> = text::chars_of(arg);
    v.len() > 1 && v[0] == '@' && v[1] != '@'
}

/// Separate the `@file` arguments from the rest.
pub fn split_arguments(args: &Vec<String>) -> (r: (Vec<String>, Vec<String>))
    ensures
        text::views(r.0@) == chosen(text::views(args@), true),
        text::views(r.1@) == chosen(text::views(args@), false),
{
    let ghost all = text::views(args@);
    let mut files: Vec<String> = Vec::new();
    let mut rest: Vec<String> = Vec::new();
    let mut i: usize = 0;
    assert(text::views(files@) =~= Seq::<Seq<char>>::empty());
    assert(text::views(rest@) =~= Seq::<Seq<char>>::empty());
    while i < args.len()
        invariant
            all == text::views(args@),
            i <= args@.len(),
            text::views(files@) == chosen(all.take(i as int), true),
            text::views(rest@) == chosen(all.take(i as int), false),
        decreases args@.len() - i,
    {
        let a: String = args[i].clone();
        proof {
            assert(all.take(i + 1).drop_last() =~= all.take(i as int));
            assert(all.take(i + 1).last() == a@);
            text::lemma_views_push(files@, a);
            text::lemma_views_push(rest@, a);
        }
        if is_file_argument(a.as_str()) {
            files.push(a);
        } else {
            rest.push(a);
        }
        i += 1;
    }
    assert(all.take(all.len() as int) =~= all);
    (files, rest)
}

/// The path in an `@file` argument.
pub fn file_of_argument(arg: &str) -> (r: String)
    requires
        names_a_file(arg@),
    ensures
        r@ == arg@.skip(1),
{
    let v: Vec<char> = text::chars_of(arg);
    let r: String = text::string_of(&v, 1, v.len());
    assert(r@ =~= arg@.skip(1));
    r
}

/// Every argument goes to one side: none is lost.
pub proof fn law_no_argument_is_lost(args: Seq<Seq<char>>)
    ensures
        chosen(args, true).len() + chosen(args, false).len() == args.len(),
    decreases args.len(),
{
    if args.len() > 0 {
        law_no_argument_is_lost(args.drop_last());
    }
}

/// An argument names a file where an at sign stands before it, and only one. Files
/// and prompts each keep their order.
pub proof fn law_arguments_are_told_apart_by_their_at_sign(args: Seq<Seq<char>>, arg: Seq<char>)
    ensures
        names_a_file(arg) <==> arg.len() >= 2 && arg[0] == '@' && arg[1] != '@',
        chosen(Seq::empty(), true).len() == 0,
        chosen(Seq::empty(), false).len() == 0,
        names_a_file(arg) ==> chosen(args.push(arg), true) == chosen(args, true).push(arg) && chosen(
            args.push(arg),
            false,
        ) == chosen(args, false),
        !names_a_file(arg) ==> chosen(args.push(arg), false) == chosen(args, false).push(arg)
            && chosen(args.push(arg), true) == chosen(args, true),
{
    assert(args.push(arg).drop_last() =~= args);
}

} // verus!
