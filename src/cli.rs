//! The command line, read with clap.
use crate::cookies::text_view;
use clap::{Arg, ArgAction, Command};
use vstd::prelude::*;

verus! {

/// clap's `Command`, carried through unopened.
#[verifier::external_type_specification]
#[verifier::external_body]
pub struct ExCommand(Command);

/// Why a command line was refused, or the help or version text that was
/// asked for, with the exit code that goes with it.
#[derive(Debug)]
pub struct ArgsError {
    pub message: String,
    pub exit_code: i32,
}

impl ArgsError {
    /// The text to show.
    pub fn to_string(&self) -> (r: String)
        ensures
            r@ == self.message@,
    {
        self.message.clone()
    }
}

/// The name the program is shown under.
pub const NAME: &'static str = "safaribooks";

/// The version shown by `--version`.
pub const VERSION: &'static str = "0.1.0";

/// What `--help` says of the program.
pub const ABOUT: &'static str = "Minimal SafariBooks client (cookies only).";

/// The id of the book argument.
pub const BOOKID: &'static str = "bookid";

/// How the book argument is shown.
pub const BOOKID_VALUE: &'static str = "BOOKID";

/// What `--help` says of the book argument.
pub const BOOKID_HELP: &'static str = "Book digits ID from the O'Reilly URL.";

/// The id of the switch that keeps the log.
pub const PRESERVE_LOG: &'static str = "preserve_log";

/// The switch that keeps the log, as written on the command line.
pub const PRESERVE_LOG_LONG: &'static str = "preserve-log";

/// What `--help` says of that switch.
pub const PRESERVE_LOG_HELP: &'static str = "Do not delete the log file on success.";

/// The words of a command line, as text.
pub open spec fn words(argv: Seq<&str>) -> Seq<Seq<char>> {
    argv.map_values(|w: &str| w@)
}

/// What clap makes of a command line against the command of [`Args::command`]:
/// nothing when it refuses it (or was asked for help or the version), else
/// the book argument and the switch, as clap recorded them.
pub uninterp spec fn clap_parse(argv: Seq<Seq<char>>) -> Option<(Option<Seq<char>>, Option<bool>)>;

/// Relies on clap's `Command::try_get_matches_from` and
/// `ArgMatches::try_get_one`, on the command that [`Args::command`] builds:
/// the book argument and the switch as clap recorded them, or clap's error
/// as its text and exit code. The outcome depends on the words alone.
#[verifier::external_body]
fn clap_parse_args(argv: &[&str]) -> (r: Result<(Option<String>, Option<bool>), ArgsError>)
    ensures
        r is Ok <==> clap_parse(words(argv@)) is Some,
        r matches Ok(p) ==> clap_parse(words(argv@)) == Some((text_view(p.0), p.1)),
{
    let m = Command::new(NAME).version(VERSION).about(ABOUT)
        .arg(Arg::new(BOOKID).value_name(BOOKID_VALUE).help(BOOKID_HELP).required(true))
        .arg(Arg::new(PRESERVE_LOG).long(PRESERVE_LOG_LONG).help(PRESERVE_LOG_HELP).action(ArgAction::SetTrue))
        .try_get_matches_from(argv.iter().copied())
        .map_err(|e| ArgsError { message: e.to_string(), exit_code: e.exit_code() })?;
    let bookid = m.try_get_one::<String>(BOOKID).ok().flatten().cloned();
    Ok((bookid, m.try_get_one::<bool>(PRESERVE_LOG).ok().flatten().copied()))
}

/// Relies on clap's `Command::new`, `version` and `about`: a command with
/// this name, version and description, and no argument yet.
#[verifier::external_body]
fn new_command(name: &'static str, version: &'static str, about: &'static str) -> Command {
    Command::new(name).version(version).about(about)
}

/// Relies on clap's `Command::arg` with `Arg::new`, `value_name`, `help` and
/// `required`: the command with one more required positional argument.
#[verifier::external_body]
fn with_positional(
    cmd: Command,
    id: &'static str,
    value_name: &'static str,
    help: &'static str,
) -> Command {
    cmd.arg(Arg::new(id).value_name(value_name).help(help).required(true))
}

/// Relies on clap's `Command::arg` with `Arg::new`, `long`, `help` and
/// `ArgAction::SetTrue`: the command with one more switch.
#[verifier::external_body]
fn with_switch(cmd: Command, id: &'static str, long: &'static str, help: &'static str) -> Command {
    cmd.arg(Arg::new(id).long(long).help(help).action(ArgAction::SetTrue))
}

/// Relies on clap's `Command::error`: a missing argument error with this
/// message, formatted for this command, as its text and exit code.
#[verifier::external_body]
fn missing_argument(cmd: Command, message: &'static str) -> ArgsError {
    let mut cmd = cmd;
    let e = cmd.error(clap::error::ErrorKind::MissingRequiredArgument, message);
    ArgsError { message: e.to_string(), exit_code: e.exit_code() }
}

/// The command line: the id of one book, and whether to keep the log.
#[derive(Debug, PartialEq, Eq)]
pub struct Args {
    /// Book digits ID from the O'Reilly URL.
    pub bookid: String,
    /// Do not delete the log file on success.
    pub preserve_log: bool,
}

impl Args {
    /// The arguments given by what clap matched: none without a book id;
    /// the log is kept only when the switch was seen set.
    pub fn from_parts(bookid: Option<String>, preserve_log: Option<bool>) -> (r: Option<Args>)
        ensures
            r is Some <==> bookid is Some,
            r matches Some(a) ==> a.bookid == bookid->0 && a.preserve_log == (preserve_log
                == Some(true)),
    {
        match bookid {
            Some(b) => Some(
                Args {
                    bookid: b,
                    preserve_log: match preserve_log {
                        Some(p) => p,
                        None => false,
                    },
                },
            ),
            None => None,
        }
    }

    /// The command that the arguments are read with.
    pub fn command() -> Command {
        let cmd = new_command(NAME, VERSION, ABOUT);
        let cmd = with_positional(cmd, BOOKID, BOOKID_VALUE, BOOKID_HELP);
        with_switch(cmd, PRESERVE_LOG, PRESERVE_LOG_LONG, PRESERVE_LOG_HELP)
    }

    /// Read the arguments of a command line, program name first: a book id
    /// is owed wherever clap accepts the line, and the log is kept only when
    /// the switch is set.
    pub fn try_parse_from(argv: &[&str]) -> (r: Result<Args, ArgsError>)
        ensures
            r is Ok <==> (clap_parse(words(argv@)) matches Some(p) && p.0 is Some),
            r matches Ok(a) ==> (clap_parse(words(argv@)) matches Some(p) && p.0 == Some(a.bookid@)
                && a.preserve_log == (p.1 == Some(true))),
    {
        match clap_parse_args(argv) {
            Ok((bookid, preserve_log)) => match Args::from_parts(bookid, preserve_log) {
                Some(a) => Ok(a),
                None => Err(
                    missing_argument(
                        Args::command(),
                        "the following required arguments were not provided:\n  <BOOKID>",
                    ),
                ),
            },
            Err(e) => Err(e),
        }
    }
}

} // verus!
