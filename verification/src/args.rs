//! The arguments of the program.
use vstd::prelude::*;

use crate::text::{concat2, same, views};

verus! {

/// What the arguments ask for.
#[derive(Debug, Clone)]
pub enum Invocation {
    /// To serve at an address.
    Listen(String),
    /// To tell how the program is used.
    Help,
}

/// Whether an argument takes another behind it, and what is said where that is
/// missing.
pub open spec fn needs(arg: Seq<char>) -> Option<Seq<char>> {
    if arg == "--listen"@ {
        Some("missing --listen address"@)
    } else if arg == "--db"@ {
        Some("missing --db path"@)
    } else if arg == "--database"@ {
        Some("missing --database path"@)
    } else if arg == "--demo"@ {
        Some("missing --demo path"@)
    } else {
        None
    }
}

/// Whether an argument asks for help.
pub open spec fn asks_help(arg: Seq<char>) -> bool {
    arg == "--help"@ || arg == "-h"@
}

/// What the arguments from a position on ask for, given the address so far:
/// none stands for help.
pub open spec fn invoked(args: Seq<Seq<char>>, i: int, listen: Seq<char>) -> Result<
    Option<Seq<char>>,
    Seq<char>,
>
    decreases args.len() - i,
{
    if i >= args.len() {
        Ok(Some(listen))
    } else if asks_help(args[i]) {
        Ok(None)
    } else {
        match needs(args[i]) {
            None => Err("unknown argument "@ + args[i]),
            Some(missing) => if i + 1 >= args.len() {
                Err(missing)
            } else if args[i] == "--listen"@ {
                invoked(args, i + 2, args[i + 1])
            } else {
                invoked(args, i + 2, listen)
            },
        }
    }
}

/// What is said where the value of an argument is missing.
fn missing_value(arg: &str) -> (r: Option<&'static str>)
    ensures
        match r {
            Some(m) => needs(arg@) == Some(m@),
            None => needs(arg@) is None,
        },
{
    if same(arg, "--listen") {
        Some("missing --listen address")
    } else if same(arg, "--db") {
        Some("missing --db path")
    } else if same(arg, "--database") {
        Some("missing --database path")
    } else if same(arg, "--demo") {
        Some("missing --demo path")
    } else {
        None
    }
}

/// Reads the address to serve at. The last of several counts.
pub fn parse_listen(args: &Vec<String>) -> (r: Result<Invocation, String>)
    ensures
        match invoked(views(args@), 0, "127.0.0.1:5312"@) {
            Ok(Some(address)) => r matches Ok(Invocation::Listen(a)) && a@ == address,
            Ok(None) => r matches Ok(Invocation::Help),
            Err(e) => r matches Err(m) && m@ == e,
        },
{
    let ghost all = views(args@);
    let mut listen = "127.0.0.1:5312".to_owned();
    let n: usize = args.len();
    let mut i: usize = 0;
    while i < n
        invariant
            i <= n,
            n == args@.len(),
            all == views(args@),
            invoked(all, 0, "127.0.0.1:5312"@) == invoked(all, i as int, listen@),
        decreases n - i,
    {
        let arg = args[i].as_str();
        assert(all[i as int] == arg@);
        if same(arg, "--help") || same(arg, "-h") {
            return Ok(Invocation::Help);
        }
        match missing_value(arg) {
            None => {
                return Err(concat2("unknown argument ", arg));
            },
            Some(missing) => {
                if n - i < 2 {
                    return Err(missing.to_owned());
                }
                assert(all[i + 1] == args@[i + 1]@);
                if same(arg, "--listen") {
                    listen = args[i + 1].clone();
                }
                i += 2;
            },
        }
    }
    Ok(Invocation::Listen(listen))
}

/// The argument behind the first of two names, from a position on.
pub open spec fn behind(
    args: Seq<Seq<char>>,
    i: int,
    name: Seq<char>,
    other: Seq<char>,
) -> Option<Seq<char>>
    decreases args.len() - i,
{
    if i + 1 >= args.len() {
        None
    } else if args[i] == name || args[i] == other {
        Some(args[i + 1])
    } else {
        behind(args, i + 1, name, other)
    }
}

/// The argument behind the first of two names.
fn value_behind(args: &Vec<String>, name: &str, other: &str) -> (r: Option<String>)
    ensures
        match r {
            Some(t) => behind(views(args@), 0, name@, other@) == Some(t@),
            None => behind(views(args@), 0, name@, other@) is None,
        },
{
    let ghost all = views(args@);
    let n: usize = args.len();
    let mut i: usize = 0;
    while n > 0 && i < n - 1
        invariant
            i <= n,
            n == args@.len(),
            all == views(args@),
            behind(all, 0, name@, other@) == behind(all, i as int, name@, other@),
        decreases n - i,
    {
        let arg = args[i].as_str();
        assert(all[i as int] == arg@);
        if same(arg, name) || same(arg, other) {
            assert(all[i + 1] == args@[i + 1]@);
            return Some(args[i + 1].clone());
        }
        i += 1;
    }
    None
}

/// The path of the database.
pub open spec fn database_path(args: Seq<Seq<char>>) -> Seq<char> {
    match behind(args, 0, "--db"@, "--database"@) {
        Some(path) => path,
        None => "data/local.sqlite"@,
    }
}

/// Reads the path of the database.
pub fn parse_db(args: &Vec<String>) -> (r: String)
    ensures
        r@ == database_path(views(args@)),
{
    match value_behind(args, "--db", "--database") {
        Some(path) => path,
        None => "data/local.sqlite".to_owned(),
    }
}

/// The path of the input that an empty database starts from.
pub open spec fn demo_path(args: Seq<Seq<char>>) -> Seq<char> {
    match behind(args, 0, "--demo"@, "--demo"@) {
        Some(path) => path,
        None => "data/demo.jsonl"@,
    }
}

/// Reads the path of the input that an empty database starts from.
pub fn parse_demo(args: &Vec<String>) -> (r: String)
    ensures
        r@ == demo_path(views(args@)),
{
    match value_behind(args, "--demo", "--demo") {
        Some(path) => path,
        None => "data/demo.jsonl".to_owned(),
    }
}

} // verus!
