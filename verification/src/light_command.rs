//! The command layer: what to do with the output of a search command, and
//! where its cache lives.
//!
//! Running the command and touching the file system is left to the caller;
//! every decision in between is taken here.

use crate::text::{
    after_last, count_bytes, decimal, decode_lines, decodes_valid, digit_value, first_of, join,
    joined,
    lemma_after_mark, lemma_decimal_reads_back, lemma_digits_hold_no_mark, lines_of, lossy_lines,
    lossy_string, lossy_text, number_of, occurrences, split_lines, to_decimal, views_of, NEWLINE,
};
use std::collections::hash_map::DefaultHasher;
use std::hash::Hasher;
use vstd::prelude::*;
use vstd::std_specs::hash::DefaultHasherAdditionalSpecFns;
use vstd::string::*;

verus! {

/// An icon: a character of the private use area of the Basic Multilingual
/// Plane, where icon fonts keep their glyphs.
pub open spec fn is_icon(c: char) -> bool {
    0xe000 <= c as u32 <= 0xf8ff
}

/// A line is blank when it is empty, or nothing but an icon and the one
/// space that follows an icon.
pub open spec fn is_trailing_blank(line: Seq<char>) -> bool {
    line.len() == 0 || (line.len() == 2 && is_icon(line[0]) && line[1] == ' ')
}

/// `lines` without its last element if that is blank.
pub open spec fn trimmed(lines: Seq<String>) -> Seq<String> {
    if lines.len() > 0 && is_trailing_blank(lines.last()@) {
        lines.drop_last()
    } else {
        lines
    }
}

/// `lines` without its last element if that is blank, for lines given as
/// sequences of characters.
pub open spec fn trimmed_text(lines: Seq<Seq<char>>) -> Seq<Seq<char>> {
    if lines.len() > 0 && is_trailing_blank(lines.last()) {
        lines.drop_last()
    } else {
        lines
    }
}

/// Removes the last line if it is blank, with or without an icon.
pub fn trim_trailing(lines: &mut Vec<String>)
    ensures
        final(lines)@ == trimmed(old(lines)@),
        views_of(final(lines)@) == trimmed_text(views_of(old(lines)@)),
{
    let len = lines.len();
    let mut blank = false;
    if len > 0 {
        let last_line = lines[len - 1].as_str();
        if last_line.is_empty() {
            blank = true;
        } else if last_line.unicode_len() == 2 {
            let icon: u32 = last_line.get_char(0) as u32;
            blank = 0xe000 <= icon && icon <= 0xf8ff && last_line.get_char(1) == ' ';
        }
    }
    if blank {
        lines.pop();
        assert(lines@ =~= old(lines)@.drop_last());
    }
    assert(views_of(lines@) =~= trimmed_text(views_of(old(lines)@)));
}

/// An empty last line is left out of what is shown: when the last of `lines`
/// is empty and text that is valid UTF-8 decodes to itself, the lines to show
/// are the texts of all lines but the last.
pub proof fn lemma_empty_last_line_is_trimmed(lines: Seq<Seq<u8>>)
    requires
        lines.len() > 0,
        lines.last().len() == 0,
        decodes_valid(lines),
    ensures
        trimmed_text(lossy_lines(lines)) == lossy_lines(lines).drop_last(),
{
    assert(lines.last() =~= Seq::<u8>::empty());
    assert(vstd::utf8::valid_utf8(Seq::<u8>::empty()));
    assert(vstd::utf8::decode_utf8(Seq::<u8>::empty()) =~= Seq::<char>::empty());
    assert(lossy_lines(lines).last() == lossy_text(lines[lines.len() - 1]));
}

/// The lines to show of the output `stdout`: its first `number` lines, or
/// all of them, as text, without the last one if that is blank.
pub open spec fn preview_of(stdout: Seq<u8>, number: Option<usize>) -> Seq<Seq<char>> {
    trimmed_text(lossy_lines(first_of(lines_of(stdout), number)))
}

/// The hash that a `DefaultHasher` gives to the UTF-8 bytes of `text`.
pub open spec fn hash_of(text: Seq<char>) -> u64 {
    DefaultHasher::spec_finish(seq![vstd::utf8::encode_utf8(text)])
}

/// Hashes the UTF-8 bytes of `text` with a fresh `DefaultHasher`.
pub fn calculate_hash(text: &str) -> (hash: u64)
    ensures
        hash == hash_of(text@),
{
    let mut state = DefaultHasher::new();
    state.write(text.as_bytes());
    assert(state@ =~= seq![vstd::utf8::encode_utf8(text@)]);
    state.finish()
}

/// The directories, below the system's temporary directory, that lead to
/// the cache of a command: `clap_cache`, the arguments joined by `_`, and
/// the hash of the working directory if there is one.
pub open spec fn cache_dir_of(args: Seq<Seq<char>>, cmd_dir: Option<Seq<char>>) -> Seq<Seq<char>> {
    let base = seq!["clap_cache"@, joined(args, "_"@)];
    match cmd_dir {
        Some(dir) => base.push(decimal(hash_of(dir) as nat)),
        None => base,
    }
}

/// The name of a cache entry: the time it was written, in seconds since the
/// Unix epoch, and the number of lines it holds, with `_` between them.
pub open spec fn entry_name_of(unix_secs: u64, total: usize) -> Seq<char> {
    decimal(unix_secs as nat) + "_"@ + decimal(total as nat)
}

/// The number of lines that a cache entry called `name` holds: `name` must
/// have exactly one `_`, and decimal digits behind it that make a number
/// which fits 64 bits. Any other name is no cache entry.
pub open spec fn entry_total(name: Seq<char>) -> Option<u64> {
    if occurrences(name, '_') == 1 {
        match number_of(after_last(name, '_')) {
            Some(total) if total <= u64::MAX => Some(total as u64),
            _ => None,
        }
    } else {
        None
    }
}

/// The number of lines that a cache directory with the entries `names`
/// answers with: that of its entry, if it has exactly one and that one is
/// well formed.
pub open spec fn cached_total(names: Seq<Seq<char>>) -> Option<u64> {
    if names.len() == 1 {
        entry_total(names[0])
    } else {
        None
    }
}

/// An entry that is written under the name `entry_name_of` is read back with
/// the number of lines it was written with.
pub proof fn lemma_entry_reads_back(unix_secs: u64, total: usize)
    ensures
        entry_total(entry_name_of(unix_secs, total)) == Some(total as u64),
{
    reveal_strlit("_");
    let secs = decimal(unix_secs as nat);
    let count = decimal(total as nat);
    lemma_decimal_reads_back(unix_secs as nat);
    lemma_decimal_reads_back(total as nat);
    lemma_digits_hold_no_mark(secs);
    lemma_digits_hold_no_mark(count);
    assert("_"@ =~= seq!['_']);
    lemma_after_mark(secs, "_"@, '_');
    assert(occurrences("_"@, '_') == 1) by {
        assert("_"@.drop_last() =~= Seq::<char>::empty());
        assert(occurrences(Seq::<char>::empty(), '_') == 0);
    }
    lemma_after_mark(secs + "_"@, count, '_');
}

/// Reads the number of lines off the name of a cache entry.
pub fn parse_cache_entry(name: &str) -> (total: Option<u64>)
    ensures
        total == entry_total(name@),
{
    let len = name.unicode_len();
    let mut marks: usize = 0;
    let mut digits: usize = 0;
    let mut valid = true;
    let mut value: u64 = 0;
    let mut i: usize = 0;
    assert(name@.take(0) =~= Seq::empty());
    while i < len
        invariant
            i <= len,
            len == name@.len(),
            marks <= i,
            digits <= i,
            marks == occurrences(name@.take(i as int), '_'),
            digits == after_last(name@.take(i as int), '_').len(),
            digits > 0 && valid ==> number_of(after_last(name@.take(i as int), '_')) == Some(
                value as nat,
            ),
            digits > 0 && !valid ==> !(number_of(after_last(name@.take(i as int), '_')) matches Some(
                v,
            ) && v <= u64::MAX),
            digits == 0 ==> valid && value == 0,
        decreases len - i,
    {
        let c = name.get_char(i);
        let ghost before = name@.take(i as int);
        let ghost after = name@.take(i + 1);
        assert(after.drop_last() =~= before);
        assert(after.last() == c);
        let ghost tail = after_last(before, '_');
        if c == '_' {
            marks = marks + 1;
            digits = 0;
            valid = true;
            value = 0;
        } else {
            assert(after_last(after, '_') == tail.push(c));
            assert(tail.push(c).drop_last() =~= tail);
            let u: u32 = c as u32;
            if valid && 48 <= u && u <= 57 {
                let d: u64 = (u - 48) as u64;
                assert(digit_value(c) == Some(d as nat));
                if value <= (u64::MAX - d) / 10 {
                    value = value * 10 + d;
                } else {
                    valid = false;
                }
            } else {
                valid = false;
            }
            digits = digits + 1;
        }
        i = i + 1;
    }
    assert(name@.take(len as int) =~= name@);
    if marks == 1 && digits > 0 && valid {
        Some(value)
    } else {
        None
    }
}

/// The directories that lead from the system's temporary directory to the
/// cache of the command `args` run in `cmd_dir`.
pub fn get_cache_dir(args: &Vec<String>, cmd_dir: &str) -> (dir: Vec<String>)
    ensures
        views_of(dir@) == cache_dir_of(views_of(args@), Some(cmd_dir@)),
{
    let mut dir: Vec<String> = Vec::new();
    dir.push("clap_cache".to_owned());
    dir.push(join(args, "_"));
    dir.push(to_decimal(calculate_hash(cmd_dir)));
    assert(views_of(dir@) =~= cache_dir_of(views_of(args@), Some(cmd_dir@)));
    dir
}

/// Where the output of a command is kept.
#[derive(Debug)]
pub enum Tempfile {
    /// At the path that the caller chose.
    Given(String),
    /// In the cache: the directories below the system's temporary directory,
    /// then the name of the entry.
    Cached(Vec<String>),
}

/// What goes back to the frontend once a command has run.
#[derive(Debug)]
pub struct Response {
    /// Number of lines that the command printed.
    pub total: usize,
    /// The lines to show, without a blank last line and not yet decorated.
    pub lines: Vec<String>,
    /// Where the whole output is to be written, if it is to be written.
    pub tempfile: Option<Tempfile>,
}

/// A command that failed and said why.
#[derive(Debug)]
pub struct SubprocessFailure {
    /// What the command wrote to its standard error.
    pub error: String,
}

/// Which icon goes in front of each line.
#[derive(Clone, Copy, Debug, PartialEq, Eq, Structural)]
pub enum Decoration {
    /// The icon for a line of grep output.
    GrepIcon,
    /// The icon that belongs to the file the line names.
    FileIcon,
    /// No icon.
    Plain,
}

/// The settings of one run of a search command, and the number of lines it
/// printed once it has run.
#[derive(Debug)]
pub struct LightCommand {
    pub cmd_dir: Option<String>,
    pub total: usize,
    pub number: Option<usize>,
    pub output: Option<String>,
    pub enable_icon: bool,
    pub grep_enable_icon: bool,
    pub output_threshold: usize,
}

impl LightCommand {
    /// The two commands differ in nothing but, possibly, their working
    /// directory and their count of lines.
    pub open spec fn same_settings(&self, other: &LightCommand) -> bool {
        &&& self.number == other.number
        &&& self.output == other.output
        &&& self.enable_icon == other.enable_icon
        &&& self.grep_enable_icon == other.grep_enable_icon
        &&& self.output_threshold == other.output_threshold
    }

    /// Where the output of the command `args` goes when it is written at
    /// `unix_secs`: to the caller's path if there is one, else to a new entry
    /// of the cache.
    pub open spec fn tempfile_of(&self, args: Seq<Seq<char>>, unix_secs: u64, path: Tempfile) -> bool {
        match self.output {
            Some(output) => path matches Tempfile::Given(given) && given@ == output@,
            None => path matches Tempfile::Cached(segments) && views_of(segments@) == cache_dir_of(
                args,
                match self.cmd_dir {
                    Some(dir) => Some(dir@),
                    None => None,
                },
            ).push(entry_name_of(unix_secs, self.total)),
        }
    }

    /// Whether the output is written to a file: only when all of it was asked
    /// for and it has more lines than the threshold.
    pub open spec fn spills(&self) -> bool {
        self.number is None && self.total > self.output_threshold
    }

    /// A command with all its settings.
    pub fn new(
        number: Option<usize>,
        output: Option<String>,
        enable_icon: bool,
        grep_enable_icon: bool,
        output_threshold: usize,
    ) -> (command: Self)
        ensures
            command.cmd_dir is None,
            command.total == 0,
            command.number == number,
            command.output == output,
            command.enable_icon == enable_icon,
            command.grep_enable_icon == grep_enable_icon,
            command.output_threshold == output_threshold,
    {
        LightCommand {
            cmd_dir: None,
            number,
            total: 0usize,
            output,
            enable_icon,
            grep_enable_icon,
            output_threshold,
        }
    }

    /// A grep command: no output path, no file icons, a threshold of zero.
    pub fn new_grep(number: Option<usize>, grep_enable_icon: bool) -> (command: Self)
        ensures
            command.cmd_dir is None,
            command.total == 0,
            command.number == number,
            command.output is None,
            !command.enable_icon,
            command.grep_enable_icon == grep_enable_icon,
            command.output_threshold == 0,
    {
        LightCommand {
            cmd_dir: None,
            number,
            total: 0usize,
            output: None,
            enable_icon: false,
            grep_enable_icon,
            output_threshold: 0usize,
        }
    }

    /// Judges how the command ended. A command that exited with failure and
    /// wrote to its standard error has failed, and what it wrote is the
    /// error; any other command hands on its standard output.
    pub fn output(&self, success: bool, stdout: Vec<u8>, stderr: &[u8]) -> (outcome: Result<
        Vec<u8>,
        SubprocessFailure,
    >)
        ensures
            outcome is Err <==> !success && stderr@.len() > 0,
            outcome matches Ok(bytes) ==> bytes == stdout,
            outcome matches Err(failure) ==> failure.error@ == lossy_text(stderr@),
            outcome matches Err(failure) ==> (vstd::utf8::valid_utf8(stderr@) ==> failure.error@
                == vstd::utf8::decode_utf8(stderr@)),
    {
        if !success && stderr.len() > 0 {
            Err(SubprocessFailure { error: lossy_string(stderr) })
        } else {
            Ok(stdout)
        }
    }

    /// The lines to show when only the first `number` are wanted; `None` when
    /// all are wanted.
    pub fn minimalize_job_overhead(&self, stdout: &[u8]) -> (lines: Option<Vec<String>>)
        ensures
            lines is Some <==> self.number is Some,
            lines matches Some(top) ==> views_of(top@) == preview_of(stdout@, self.number),
            lines is Some ==> decodes_valid(first_of(lines_of(stdout@), self.number)),
    {
        match self.number {
            Some(number) => {
                let top = split_lines(stdout, Some(number));
                let mut lines = decode_lines(&top);
                trim_trailing(&mut lines);
                Some(lines)
            },
            None => None,
        }
    }

    /// Which icon the lines get: the grep icon if it is switched on, else the
    /// file icon if that is switched on, else none.
    pub fn try_prepend_icon(&self) -> (decoration: Decoration)
        ensures
            decoration == if self.grep_enable_icon {
                Decoration::GrepIcon
            } else if self.enable_icon {
                Decoration::FileIcon
            } else {
                Decoration::Plain
            },
    {
        if self.grep_enable_icon {
            Decoration::GrepIcon
        } else if self.enable_icon {
            Decoration::FileIcon
        } else {
            Decoration::Plain
        }
    }

    /// Where the output of the command `args` is written at `unix_secs`.
    pub fn tempfile(&self, args: &Vec<String>, unix_secs: u64) -> (path: Tempfile)
        ensures
            self.tempfile_of(views_of(args@), unix_secs, path),
    {
        match &self.output {
            Some(output) => Tempfile::Given(output.clone()),
            None => {
                let mut dir: Vec<String> = Vec::new();
                dir.push("clap_cache".to_owned());
                dir.push(join(args, "_"));
                match &self.cmd_dir {
                    Some(cmd_dir) => {
                        dir.push(to_decimal(calculate_hash(cmd_dir.as_str())));
                    },
                    None => {},
                }
                let mut name = to_decimal(unix_secs);
                name.append("_");
                let count = to_decimal(self.total as u64);
                name.append(count.as_str());
                dir.push(name);
                assert(views_of(dir@) =~= cache_dir_of(
                    views_of(args@),
                    match self.cmd_dir {
                        Some(dir) => Some(dir@),
                        None => None,
                    },
                ).push(entry_name_of(unix_secs, self.total)));
                Tempfile::Cached(dir)
            },
        }
    }

    /// Where the output is to be written, if it has more lines than the
    /// threshold.
    pub fn try_cache(&self, args: &Vec<String>, unix_secs: u64) -> (path: Option<Tempfile>)
        ensures
            path is Some <==> self.total > self.output_threshold,
            path matches Some(file) ==> self.tempfile_of(views_of(args@), unix_secs, file),
    {
        if self.total > self.output_threshold {
            Some(self.tempfile(args, unix_secs))
        } else {
            None
        }
    }

    /// Decides between the cache and a new run of the command.
    ///
    /// `entries` holds the names of the entries of the command's cache
    /// directory; it is empty when there is no such directory. When there is
    /// exactly one entry and its name is the name of a cache entry, its number
    /// of lines is returned and nothing changes. Otherwise the command is to
    /// be run in `cmd_dir`.
    pub fn try_cache_or_execute(&mut self, cmd_dir: String, entries: &Vec<String>) -> (hit: Option<
        u64,
    >)
        ensures
            hit == cached_total(views_of(entries@)),
            final(self).same_settings(old(self)),
            final(self).total == old(self).total,
            hit is Some ==> final(self).cmd_dir == old(self).cmd_dir,
            hit is None ==> final(self).cmd_dir == Some(cmd_dir),
    {
        if entries.len() == 1 {
            if let Some(total) = parse_cache_entry(entries[0].as_str()) {
                return Some(total);
            }
        }
        self.cmd_dir = Some(cmd_dir);
        None
    }

    /// Takes the output of the command and decides what goes back.
    ///
    /// The lines are counted. When only the first `number` lines are wanted,
    /// they go back and nothing is written. Otherwise all lines go back, and
    /// if there are more of them than the threshold the whole output is to be
    /// written to a file. Either way a blank last line is left out.
    pub fn execute(&mut self, args: &Vec<String>, stdout: &[u8], unix_secs: u64) -> (response:
        Response)
        ensures
            final(self).total == occurrences(stdout@, NEWLINE),
            final(self).cmd_dir == old(self).cmd_dir,
            final(self).same_settings(old(self)),
            response.total == final(self).total,
            views_of(response.lines@) == preview_of(stdout@, old(self).number),
            decodes_valid(first_of(lines_of(stdout@), old(self).number)),
            response.tempfile is Some <==> final(self).spills(),
            response.tempfile matches Some(file) ==> final(self).tempfile_of(
                views_of(args@),
                unix_secs,
                file,
            ),
    {
        self.total = count_bytes(stdout, NEWLINE);
        match self.minimalize_job_overhead(stdout) {
            Some(lines) => Response { total: self.total, lines, tempfile: None },
            None => {
                let tempfile = self.try_cache(args, unix_secs);
                let all = split_lines(stdout, None);
                let mut lines = decode_lines(&all);
                trim_trailing(&mut lines);
                Response { total: self.total, lines, tempfile }
            },
        }
    }
}

} // verus!
