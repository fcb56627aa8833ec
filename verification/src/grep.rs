//! Setting up a grep run: the words of the command line, the query, the glob.

use crate::light_command::LightCommand;
use crate::text::{split_whitespace, views_of, words_of};
use vstd::prelude::*;

verus! {

/// The command line has no word in it, so there is no program to run.
#[derive(Clone, Copy, Debug, PartialEq, Eq, Structural)]
pub struct EmptyCommand;

/// A grep run that is ready to start.
#[derive(Debug)]
pub struct GrepJob {
    /// The program, then its arguments.
    pub args: Vec<String>,
    /// The directory to run it in.
    pub cmd_dir: Option<String>,
    /// What is to be done with its output.
    pub command: LightCommand,
}

/// The program and the arguments of a grep run: the words of the command
/// line, then the query as one argument, then `-g` and the glob if there is
/// one, then `.` where the platform needs the place to search spelled out.
pub open spec fn grep_args_of(
    grep_cmd: Seq<char>,
    grep_query: Seq<char>,
    glob: Option<Seq<char>>,
    on_windows: bool,
) -> Seq<Seq<char>> {
    let queried = words_of(grep_cmd).push(grep_query);
    let globbed = match glob {
        Some(pattern) => queried.push("-g"@).push(pattern),
        None => queried,
    };
    if on_windows {
        globbed.push("."@)
    } else {
        globbed
    }
}

/// Splits the command line into the program and its options.
pub fn prepare_grep_and_args(cmd_str: &str) -> (outcome: Result<Vec<String>, EmptyCommand>)
    ensures
        outcome is Err <==> words_of(cmd_str@).len() == 0,
        outcome matches Ok(args) ==> views_of(args@) == words_of(cmd_str@),
{
    let args = split_whitespace(cmd_str);
    if args.len() == 0 {
        Err(EmptyCommand)
    } else {
        Ok(args)
    }
}

/// Sets up a grep run.
///
/// The query is kept apart from the command line so that it stays one
/// argument whatever characters it holds.
pub fn run(
    grep_cmd: String,
    grep_query: String,
    glob: Option<String>,
    cmd_dir: Option<String>,
    number: Option<usize>,
    enable_icon: bool,
    on_windows: bool,
) -> (outcome: Result<GrepJob, EmptyCommand>)
    ensures
        outcome is Err <==> words_of(grep_cmd@).len() == 0,
        outcome matches Ok(job) ==> {
            &&& views_of(job.args@) == grep_args_of(
                grep_cmd@,
                grep_query@,
                match glob {
                    Some(pattern) => Some(pattern@),
                    None => None,
                },
                on_windows,
            )
            &&& job.cmd_dir == cmd_dir
            &&& job.command.cmd_dir is None
            &&& job.command.total == 0
            &&& job.command.number == number
            &&& job.command.output is None
            &&& !job.command.enable_icon
            &&& job.command.grep_enable_icon == enable_icon
            &&& job.command.output_threshold == 0
        },
{
    let mut args = match prepare_grep_and_args(grep_cmd.as_str()) {
        Ok(args) => args,
        Err(empty) => {
            return Err(empty);
        },
    };
    let ghost words = views_of(args@);
    args.push(grep_query);
    let ghost queried = views_of(args@);
    assert(queried =~= words.push(grep_query@));
    if let Some(pattern) = glob {
        args.push("-g".to_owned());
        args.push(pattern);
        assert(views_of(args@) =~= queried.push("-g"@).push(pattern@));
    }
    if on_windows {
        let ghost globbed = views_of(args@);
        args.push(".".to_owned());
        assert(views_of(args@) =~= globbed.push("."@));
    }
    Ok(GrepJob { args, cmd_dir, command: LightCommand::new_grep(number, enable_icon) })
}

} // verus!
