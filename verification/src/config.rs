//! Where the agent keeps its files.

use vstd::prelude::*;

use crate::text;
use crate::tools::util;
use crate::tools::util::{expanded, joined_path};

verus! {

/// The agent's directory: the one that the environment names, or else one below
/// the configuration directory, the home directory, or here.
pub open spec fn agent_home(
    named: Option<Seq<char>>,
    config_dir: Option<Seq<char>>,
    home: Option<Seq<char>>,
) -> Seq<char> {
    let base = match config_dir {
        Some(c) => c,
        None => match home {
            Some(h) => h,
            None => "."@,
        },
    };
    let default = joined_path(joined_path(base, "pixie-pi"@), "agent"@);
    match named {
        Some(n) => if n.len() > 0 {
            expanded(n, home)
        } else {
            default
        },
        None => default,
    }
}

/// Resolve the agent config directory. `named` is the value of
/// `PIXIE_PI_AGENT_DIR`.
pub fn agent_dir(named: Option<&str>, config_dir: Option<&str>, home: Option<&str>) -> (r: String)
    ensures
        r@ == agent_home(text::opt_str(named), text::opt_str(config_dir), text::opt_str(home)),
{
    if let Some(n) = named {
        if !n.is_empty() {
            return util::expand_tilde(n, home);
        }
    }
    let base: &str = match config_dir {
        Some(c) => c,
        None => match home {
            Some(h) => h,
            None => ".",
        },
    };
    let above: String = util::join_path(base, "pixie-pi");
    util::join_path(above.as_str(), "agent")
}

pub open spec fn hex_digit(d: int) -> char {
    if d < 10 {
        (48 + d) as char
    } else {
        (97 + (d - 10)) as char
    }
}

/// The last `n` hexadecimal digits of `x`.
pub open spec fn hex(x: nat, n: nat) -> Seq<char>
    decreases n,
{
    if n == 0 {
        Seq::empty()
    } else {
        hex(x / 16, (n - 1) as nat).push(hex_digit((x % 16) as int))
    }
}

fn push_hex(out: &mut String, x: u64, n: u8)
    ensures
        final(out)@ == old(out)@ + hex(x as nat, n as nat),
    decreases n,
{
    if n > 0 {
        push_hex(out, x / 16, n - 1);
        let d: u8 = (x % 16) as u8;
        let c: char = if d < 10 {
            (48u8 + d) as char
        } else {
            (97u8 + (d - 10)) as char
        };
        out.push(c);
    }
    assert(out@ =~= old(out)@ + hex(x as nat, n as nat));
}

/// The directory of a project's sessions, by the hash of the project's path.
pub open spec fn session_home(agent: Seq<char>, hash: u64) -> Seq<char> {
    joined_path(joined_path(agent, "sessions"@), "--"@ + hex(hash as nat, 16) + "--"@)
}

/// A short, stable directory name for a project.
pub fn project_session_dir(agent: &str, hash: u64) -> (r: String)
    ensures
        r@ == session_home(agent@, hash),
{
    let mut name: String = "--".to_string();
    push_hex(&mut name, hash, 16);
    name.append("--");
    let above: String = util::join_path(agent, "sessions");
    util::join_path(above.as_str(), name.as_str())
}

/// Path to the active session JSONL file for a project.
pub fn session_file(agent: &str, hash: u64) -> (r: String)
    ensures
        r@ == joined_path(session_home(agent@, hash), "session.jsonl"@),
{
    let dir: String = project_session_dir(agent, hash);
    util::join_path(dir.as_str(), "session.jsonl")
}

/// The number that hexadecimal digits stand for.
pub open spec fn hex_value(s: Seq<char>) -> int
    decreases s.len(),
{
    if s.len() == 0 {
        0
    } else {
        16 * hex_value(s.drop_last()) + (choose|d: int|
            0 <= d < 16 && "0123456789abcdef"@[d] == s.last())
    }
}

/// A number is written in as many hexadecimal digits as asked for, in small
/// letters, and they stand for it where it fits.
pub proof fn law_hex_digits_stand_for_their_number(x: nat, n: nat)
    ensures
        hex(x, n).len() == n,
        x < 16 ==> hex_digit(x as int) == "0123456789abcdef"@[x as int],
        n > 0 ==> hex(x, n) == hex(x / 16, (n - 1) as nat).push(
            "0123456789abcdef"@[(x % 16) as int],
        ),
        n == 0 && x == 0 ==> hex_value(hex(x, n)) == x,
        n > 0 && hex_value(hex(x / 16, (n - 1) as nat)) == x / 16 ==> hex_value(hex(x, n)) == x,
    decreases n,
{
    reveal_strlit("0123456789abcdef");
    if n > 0 {
        law_hex_digits_stand_for_their_number(x / 16, (n - 1) as nat);
        let d = (x % 16) as int;
        let c = hex_digit(d);
        assert(0 <= d < 16);
        assert("0123456789abcdef"@[d] == c);
        let e = choose|e: int| 0 <= e < 16 && "0123456789abcdef"@[e] == c;
        assert(0 <= e < 16 && "0123456789abcdef"@[e] == c);
        assert(e == d);
        assert(hex(x, n).drop_last() =~= hex(x / 16, (n - 1) as nat));
        assert(hex(x, n).last() == c);
    }
}

/// Sessions are kept in a directory of their own below the agent's.
pub proof fn law_sessions_are_kept_below_the_agents_directory(agent: Seq<char>, hash: u64)
    requires
        agent.len() > 0,
        agent.last() != '/',
    ensures
        session_home(agent, hash) == agent + "/sessions/--"@ + hex(hash as nat, 16) + "--"@,
{
    reveal_strlit("sessions");
    reveal_strlit("/sessions/--");
    reveal_strlit("--");
    let sub = joined_path(agent, "sessions"@);
    assert(sub =~= agent.push('/') + "sessions"@);
    let name = "--"@ + hex(hash as nat, 16) + "--"@;
    assert(name[0] == '-');
    assert(sub.last() == 's');
    assert(session_home(agent, hash) =~= agent + "/sessions/--"@ + hex(hash as nat, 16) + "--"@);
}

/// The agent's directory is the one that is named, with a tilde for home; else it
/// is below the configuration's directory, or else below home.
pub proof fn law_the_agents_directory(
    named: Seq<char>,
    config: Seq<char>,
    home: Option<Seq<char>>,
)
    requires
        config.len() > 0,
        config.last() != '/',
    ensures
        named.len() > 0 ==> agent_home(Some(named), Some(config), home) == expanded(named, home),
        agent_home(None, Some(config), home) == config + "/pixie-pi/agent"@,
        agent_home(None, None, Some(config)) == config + "/pixie-pi/agent"@,
        agent_home(Some(Seq::empty()), Some(config), home) == config + "/pixie-pi/agent"@,
{
    reveal_strlit("pixie-pi");
    reveal_strlit("agent");
    reveal_strlit("/pixie-pi/agent");
    let sub = joined_path(config, "pixie-pi"@);
    assert(sub =~= config.push('/') + "pixie-pi"@);
    assert(sub.last() == 'i');
    assert(joined_path(sub, "agent"@) =~= config + "/pixie-pi/agent"@);
}

/// Where neither a configuration's directory nor a home is known, the agent's
/// directory is below the current one.
pub proof fn law_the_agents_directory_may_be_here()
    ensures
        agent_home(None, None, None) == "./pixie-pi/agent"@,
{
    reveal_strlit(".");
    reveal_strlit("pixie-pi");
    reveal_strlit("agent");
    reveal_strlit("./pixie-pi/agent");
    let sub = joined_path("."@, "pixie-pi"@);
    assert(sub =~= "."@.push('/') + "pixie-pi"@);
    assert(sub.last() == 'i');
    assert(joined_path(sub, "agent"@) =~= "./pixie-pi/agent"@);
}

} // verus!
