//! Command-line configuration: the geometry switches `-s`, `-E`, `-b`,
//! the trace-file switch `-t`, and the standalone switches `-h` and
//! `-v`, read from the argument list into a configuration value.

use vstd::prelude::*;
use vstd::string::StrSliceExecFns;
use crate::digits::{digits_value, is_number, parse_number};
use crate::trace::chars_of;

verus! {

/// Why a command line was rejected.
#[derive(Debug, Clone, Copy, PartialEq, Eq, Structural)]
pub enum CliError {
    /// An argument that is none of the known switches.
    UnknownFlag,
    /// A switch that takes a value stood last, with nothing after it.
    MissingValue,
    /// The value of `-s`, `-E` or `-b` is not a decimal number that
    /// fits 32 bits.
    BadNumber,
    /// One of the four required switches never appeared.
    MissingArgument,
}

/// The parsed command line.
#[derive(Debug)]
pub struct Cli {
    /// Whether help was asked for.
    pub help: bool,
    /// Whether per-record tracking output was asked for.
    pub track: bool,
    /// The number of set-index bits.
    pub s: u32,
    /// The associativity: entries per set.
    pub e: u32,
    /// The number of block-offset bits.
    pub b: u32,
    /// The trace file's path.
    pub tracefile: String,
}

/// The abstract value of a parsed command line.
#[verifier::ext_equal]
pub struct CliModel {
    pub help: bool,
    pub track: bool,
    pub s: u32,
    pub e: u32,
    pub b: u32,
    pub tracefile: Seq<char>,
}

impl View for Cli {
    type V = CliModel;

    open spec fn view(&self) -> CliModel {
        CliModel {
            help: self.help,
            track: self.track,
            s: self.s,
            e: self.e,
            b: self.b,
            tracefile: self.tracefile@,
        }
    }
}

/// The configuration before any switch is applied: everything off,
/// every number zero, no trace file.
pub open spec fn init_cli() -> CliModel {
    CliModel { help: false, track: false, s: 0u32, e: 0u32, b: 0u32, tracefile: Seq::empty() }
}

impl Default for Cli {
    fn default() -> (r: Self)
        ensures
            r@ == init_cli(),
    {
        let r = Cli {
            help: false,
            track: false,
            s: 0,
            e: 0,
            b: 0,
            tracefile: String::new(),
        };
        proof {
            assert(r@ =~= init_cli());
        }
        r
    }
}

/// One pass over the arguments from position `pos`, folding each switch
/// into the configuration; `seen` records which of `-s`, `-E`, `-b`,
/// `-t` have appeared so far.
pub open spec fn scan_args(
    args: Seq<Seq<char>>,
    pos: int,
    acc: CliModel,
    seen: (bool, bool, bool, bool),
) -> Result<(CliModel, (bool, bool, bool, bool)), CliError>
    decreases args.len() - pos,
{
    if pos < 0 || pos >= args.len() {
        Ok((acc, seen))
    } else {
        let a = args[pos];
        if a == seq!['-', 'h'] {
            scan_args(args, pos + 1, CliModel { help: true, ..acc }, seen)
        } else if a == seq!['-', 'v'] {
            scan_args(args, pos + 1, CliModel { track: true, ..acc }, seen)
        } else if a == seq!['-', 's'] {
            if pos + 1 >= args.len() {
                Err(CliError::MissingValue)
            } else if !is_number(args[pos + 1], 10, u32::MAX as int) {
                Err(CliError::BadNumber)
            } else {
                scan_args(
                    args,
                    pos + 2,
                    CliModel { s: digits_value(args[pos + 1], 10) as u32, ..acc },
                    (true, seen.1, seen.2, seen.3),
                )
            }
        } else if a == seq!['-', 'E'] {
            if pos + 1 >= args.len() {
                Err(CliError::MissingValue)
            } else if !is_number(args[pos + 1], 10, u32::MAX as int) {
                Err(CliError::BadNumber)
            } else {
                scan_args(
                    args,
                    pos + 2,
                    CliModel { e: digits_value(args[pos + 1], 10) as u32, ..acc },
                    (seen.0, true, seen.2, seen.3),
                )
            }
        } else if a == seq!['-', 'b'] {
            if pos + 1 >= args.len() {
                Err(CliError::MissingValue)
            } else if !is_number(args[pos + 1], 10, u32::MAX as int) {
                Err(CliError::BadNumber)
            } else {
                scan_args(
                    args,
                    pos + 2,
                    CliModel { b: digits_value(args[pos + 1], 10) as u32, ..acc },
                    (seen.0, seen.1, true, seen.3),
                )
            }
        } else if a == seq!['-', 't'] {
            if pos + 1 >= args.len() {
                Err(CliError::MissingValue)
            } else {
                scan_args(
                    args,
                    pos + 2,
                    CliModel { tracefile: args[pos + 1], ..acc },
                    (seen.0, seen.1, seen.2, true),
                )
            }
        } else {
            Err(CliError::UnknownFlag)
        }
    }
}

/// The whole command line parsed: every switch applied in order, then
/// the four required ones checked for presence.
pub open spec fn spec_parse_cli(args: Seq<Seq<char>>) -> Result<CliModel, CliError> {
    match scan_args(args, 0, init_cli(), (false, false, false, false)) {
        Err(e) => Err(e),
        Ok((c, seen)) => if seen.0 && seen.1 && seen.2 && seen.3 {
            Ok(c)
        } else {
            Err(CliError::MissingArgument)
        },
    }
}

/// Whether the argument is exactly the two characters `-` and `c`.
fn is_flag(a: &String, c: char) -> (r: bool)
    ensures
        r == (a@ == seq!['-', c]),
{
    let s = a.as_str();
    if s.unicode_len() == 2 {
        let c0 = s.get_char(0);
        let c1 = s.get_char(1);
        let res = c0 == '-' && c1 == c;
        proof {
            if res {
                assert(a@ =~= seq!['-', c]);
            } else if a@ == seq!['-', c] {
                assert(a@[0] == '-' && a@[1] == c);
            }
        }
        res
    } else {
        proof {
            if a@ == seq!['-', c] {
                assert(a@.len() == 2);
            }
        }
        false
    }
}

impl Cli {
    /// Parses the argument list (program name excluded): `-h` and `-v`
    /// are standalone switches; `-s`, `-E` and `-b` each take a decimal
    /// number, `-t` the trace file's path; each of those four must
    /// appear, and an unknown switch or a bad value is an error.
    pub fn parse(args: &Vec<String>) -> (r: Result<Cli, CliError>)
        ensures
            match (r, spec_parse_cli(args.deep_view())) {
                (Ok(c), Ok(m)) => c@ == m,
                (Err(e), Err(e2)) => e == e2,
                _ => false,
            },
    {
        let ghost argv = args.deep_view();
        let mut cli = Cli::default();
        let mut seen_s = false;
        let mut seen_e = false;
        let mut seen_b = false;
        let mut seen_t = false;
        let mut pos: usize = 0;
        while pos < args.len()
            invariant
                pos <= argv.len(),
                argv == args.deep_view(),
                scan_args(argv, 0, init_cli(), (false, false, false, false)) == scan_args(
                    argv,
                    pos as int,
                    cli@,
                    (seen_s, seen_e, seen_b, seen_t),
                ),
            decreases argv.len() - pos,
        {
            proof {
                assert(argv[pos as int] == args@[pos as int]@);
            }
            let a = &args[pos];
            if is_flag(a, 'h') {
                cli.help = true;
                pos += 1;
            } else if is_flag(a, 'v') {
                cli.track = true;
                pos += 1;
            } else if is_flag(a, 's') {
                if pos + 1 >= args.len() {
                    return Err(CliError::MissingValue);
                }
                proof {
                    assert(argv[pos + 1] == args@[pos + 1]@);
                }
                let digits = chars_of(args[pos + 1].as_str());
                match parse_number(&digits, 10, 0xffff_ffffu64) {
                    None => {
                        return Err(CliError::BadNumber);
                    },
                    Some(v) => {
                        cli.s = v as u32;
                        seen_s = true;
                        pos += 2;
                    },
                }
            } else if is_flag(a, 'E') {
                if pos + 1 >= args.len() {
                    return Err(CliError::MissingValue);
                }
                proof {
                    assert(argv[pos + 1] == args@[pos + 1]@);
                }
                let digits = chars_of(args[pos + 1].as_str());
                match parse_number(&digits, 10, 0xffff_ffffu64) {
                    None => {
                        return Err(CliError::BadNumber);
                    },
                    Some(v) => {
                        cli.e = v as u32;
                        seen_e = true;
                        pos += 2;
                    },
                }
            } else if is_flag(a, 'b') {
                if pos + 1 >= args.len() {
                    return Err(CliError::MissingValue);
                }
                proof {
                    assert(argv[pos + 1] == args@[pos + 1]@);
                }
                let digits = chars_of(args[pos + 1].as_str());
                match parse_number(&digits, 10, 0xffff_ffffu64) {
                    None => {
                        return Err(CliError::BadNumber);
                    },
                    Some(v) => {
                        cli.b = v as u32;
                        seen_b = true;
                        pos += 2;
                    },
                }
            } else if is_flag(a, 't') {
                if pos + 1 >= args.len() {
                    return Err(CliError::MissingValue);
                }
                proof {
                    assert(argv[pos + 1] == args@[pos + 1]@);
                }
                cli.tracefile = args[pos + 1].clone();
                seen_t = true;
                pos += 2;
            } else {
                return Err(CliError::UnknownFlag);
            }
        }
        if seen_s && seen_e && seen_b && seen_t {
            Ok(cli)
        } else {
            Err(CliError::MissingArgument)
        }
    }
}

} // verus!
