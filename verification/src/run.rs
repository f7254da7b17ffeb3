//! What a run decides before and after the scan: whether the arguments ask for the help
//! for tools, and whether findings fail the run.
use vstd::prelude::*;

use crate::analyzer::ScanResult;
use crate::color::ColorPolicy;
use crate::model::OutputFormat;
use crate::help_ai::{schema_for, schema_view_for, HelpSchema};
use crate::text::{chars_eq, chars_of, string_views};

verus! {

broadcast use vstd::string::group_string_axioms;

/// The command line: the global options and the subcommand. An empty list or a missing
/// value leaves the setting to the configuration file.
pub struct Cli {
    pub config: Option<String>,
    pub format: Option<OutputFormat>,
    pub color: Option<ColorPolicy>,
    pub entry: Vec<String>,
    pub include_globs: Vec<String>,
    pub exclude: Vec<String>,
    pub max_workers: Option<usize>,
    pub fail_on_findings: bool,
    pub command: Option<Command>,
}

/// The subcommands, with the project's path (`.` by default where the command line leaves
/// it out).
pub enum Command {
    Scan { path: String },
    List { path: String },
    Remove { path: String, fix: bool, yes: bool },
    Help { command: Option<String> },
}

/// The command a run carries out: the one given, else a scan of the current directory.
pub fn command_to_run(command: Option<Command>) -> (r: Command)
    ensures
        match command {
            Some(c) => r == c,
            None => r matches Command::Scan { path } && path@ == "."@,
        },
{
    match command {
        Some(c) => c,
        None => Command::Scan { path: crate::text::owned(".") },
    }
}

/// Some argument asks for help: `--help` or `help`.
pub open spec fn asks_help(args: Seq<Seq<char>>) -> bool {
    exists|i: int| 0 <= i < args.len() && (#[trigger] args[i] == "--help"@ || args[i] == "help"@)
}

/// The arguments ask for the format for tools: `--format ai` as two arguments, or
/// `--format=ai`.
pub open spec fn asks_ai_format(args: Seq<Seq<char>>) -> bool {
    ||| exists|i: int| 0 <= i < args.len() - 1 && #[trigger] args[i] == "--format"@ && args[i + 1] == "ai"@
    ||| exists|i: int| 0 <= i < args.len() && #[trigger] args[i] == "--format=ai"@
}

pub open spec fn is_subcommand(a: Seq<char>) -> bool {
    a == "scan"@ || a == "list"@ || a == "remove"@
}

/// The first argument after the program's name that names a subcommand with its own help.
pub open spec fn help_subcommand(args: Seq<Seq<char>>) -> Option<Seq<char>>
    decreases args.len(),
{
    if args.len() <= 1 {
        None
    } else if is_subcommand(args[1]) {
        Some(args[1])
    } else {
        help_subcommand(args.drop_first())
    }
}

fn is_arg(a: &String, lit: &str) -> (r: bool)
    ensures
        r == (a@ == lit@),
{
    chars_eq(&chars_of(a.as_str()), &chars_of(lit))
}

/// The help for tools when the arguments ask for help in the format for tools: that of the
/// first subcommand named after the program's name, else the program's.
pub fn maybe_emit_ai_help(args: &Vec<String>) -> (r: Option<HelpSchema>)
    ensures
        asks_help(string_views(args@)) && asks_ai_format(string_views(args@)) ==> (r matches Some(
            s,
        ) && s@ == schema_view_for(help_subcommand(string_views(args@)))),
        !(asks_help(string_views(args@)) && asks_ai_format(string_views(args@))) ==> r is None,
{
    let ghost av = string_views(args@);
    let mut has_help = false;
    let mut format_ai = false;
    let mut i: usize = 0;
    while i < args.len()
        invariant
            i <= args@.len(),
            av == string_views(args@),
            has_help == exists|j: int| 0 <= j < i && (#[trigger] av[j] == "--help"@ || av[j] == "help"@),
            format_ai == ((exists|j: int| 0 <= j < i && j < av.len() - 1 && #[trigger] av[j] == "--format"@ && av[j + 1] == "ai"@)
                || (exists|j: int| 0 <= j < i && #[trigger] av[j] == "--format=ai"@)),
        decreases args@.len() - i,
    {
        let a = &args[i];
        proof {
            assert(av[i as int] == a@);
        }
        if is_arg(a, "--help") || is_arg(a, "help") {
            has_help = true;
        }
        if is_arg(a, "--format=ai") {
            format_ai = true;
        }
        if i + 1 < args.len() && is_arg(a, "--format") && is_arg(&args[i + 1], "ai") {
            proof {
                assert(av[i as int + 1] == args@[i as int + 1]@);
            }
            format_ai = true;
        }
        i = i + 1;
    }
    if !has_help || !format_ai {
        return None;
    }
    proof {
        let j = choose|j: int| 0 <= j < i && (#[trigger] av[j] == "--help"@ || av[j] == "help"@);
        assert(av[j] == "--help"@ || av[j] == "help"@);
    }
    let mut k: usize = 1;
    proof {
        assert(av.skip(0) =~= av);
    }
    while k < args.len()
        invariant
            1 <= k,
            k - 1 <= av.len(),
            av == string_views(args@),
            asks_help(av),
            asks_ai_format(av),
            help_subcommand(av) == help_subcommand(av.skip(k as int - 1)),
        decreases args@.len() - k,
    {
        proof {
            assert(av.skip(k as int - 1)[1] == av[k as int]);
            assert(av.skip(k as int - 1).drop_first() =~= av.skip(k as int));
        }
        let a = &args[k];
        if is_arg(a, "scan") || is_arg(a, "list") || is_arg(a, "remove") {
            return Some(schema_for(Some(a.as_str())));
        }
        k = k + 1;
    }
    proof {
        assert(av.skip(k as int - 1).len() <= 1);
    }
    Some(schema_for(None))
}

/// Why a run fails after its scan.
pub enum RunError {
    /// There are findings and `--fail-on-findings` was given.
    FindingsPresent,
}

/// Fails the run when asked to fail on findings and there are some.
pub fn maybe_fail(result: &ScanResult, fail_on_findings: bool) -> (r: Result<(), RunError>)
    ensures
        r is Err <==> fail_on_findings && result.findings@.len() > 0,
{
    if fail_on_findings && result.findings.len() > 0 {
        Err(RunError::FindingsPresent)
    } else {
        Ok(())
    }
}

} // verus!
