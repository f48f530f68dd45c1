//! What each command accepts on its command line, decided from the parsed
//! arguments.
use vstd::prelude::*;
use crate::constants::DEFAULT_MIME;
use crate::decimal::{decimal, push_decimal};
use crate::text::push_str;

verus! {

/// The parsed command line of a command.
pub struct ArgContext {
    pub positionals: Vec<String>,
    pub unknown_flags: Vec<String>,
    pub raw: bool,
    pub full: bool,
    pub force: bool,
    pub verbose: bool,
    pub use_id: bool,
}

/// Why a command line is refused.
pub enum ArgError {
    /// An option the command does not take.
    UnsupportedOptions,
    /// Positional arguments to a command that takes none.
    UnexpectedPositionals,
    /// The search keyword is missing.
    MissingKeyword,
    /// More positional arguments than the command takes.
    TooManyArguments,
}

/// The MIME type named by the optional first positional argument.
pub open spec fn mime_argument(positionals: Seq<String>) -> Seq<char> {
    if positionals.len() > 0 { positionals[0]@ } else { DEFAULT_MIME@ }
}

fn first_or_default(positionals: &Vec<String>) -> (m: String)
    ensures
        m@ == mime_argument(positionals@),
{
    if positionals.len() > 0 {
        positionals[0].clone()
    } else {
        DEFAULT_MIME.to_owned()
    }
}

/// `daemon` takes only `--verbose` and no positional argument; returns
/// whether logging is verbose.
pub fn daemon_args(ctx: &ArgContext) -> (r: Result<bool, ArgError>)
    ensures
        match r {
            Ok(v) => ctx.unknown_flags@.len() == 0 && !ctx.raw && !ctx.full && !ctx.force
                && ctx.positionals@.len() == 0 && v == ctx.verbose,
            Err(ArgError::UnsupportedOptions) => ctx.unknown_flags@.len() != 0 || ctx.raw || ctx.full || ctx.force,
            Err(ArgError::UnexpectedPositionals) => !(ctx.unknown_flags@.len() != 0 || ctx.raw || ctx.full || ctx.force)
                && ctx.positionals@.len() != 0,
            Err(_) => false,
        },
{
    if ctx.unknown_flags.len() != 0 || ctx.raw || ctx.full || ctx.force {
        return Err(ArgError::UnsupportedOptions);
    }
    if ctx.positionals.len() != 0 {
        return Err(ArgError::UnexpectedPositionals);
    }
    Ok(ctx.verbose)
}

/// `paste-from` takes no option and at most one MIME type; returns the
/// MIME type to read.
pub fn paste_from_args(ctx: &ArgContext) -> (r: Result<String, ArgError>)
    ensures
        match r {
            Ok(m) => ctx.unknown_flags@.len() == 0 && !ctx.raw && !ctx.full && !ctx.force && !ctx.verbose
                && ctx.positionals@.len() <= 1 && m@ == mime_argument(ctx.positionals@),
            Err(ArgError::UnsupportedOptions) => ctx.unknown_flags@.len() != 0 || ctx.raw || ctx.full
                || ctx.force || ctx.verbose,
            Err(ArgError::TooManyArguments) => !(ctx.unknown_flags@.len() != 0 || ctx.raw || ctx.full
                || ctx.force || ctx.verbose) && ctx.positionals@.len() > 1,
            Err(_) => false,
        },
{
    if ctx.unknown_flags.len() != 0 || ctx.raw || ctx.full || ctx.force || ctx.verbose {
        return Err(ArgError::UnsupportedOptions);
    }
    if ctx.positionals.len() > 1 {
        return Err(ArgError::TooManyArguments);
    }
    Ok(first_or_default(&ctx.positionals))
}

/// `search` takes `--raw`, `--id`, `--verbose` and exactly one keyword;
/// returns the keyword.
pub fn search_args(ctx: &ArgContext) -> (r: Result<String, ArgError>)
    ensures
        match r {
            Ok(q) => ctx.unknown_flags@.len() == 0 && !ctx.full && !ctx.force
                && ctx.positionals@.len() == 1 && q@ == ctx.positionals@[0]@,
            Err(ArgError::UnsupportedOptions) => ctx.unknown_flags@.len() != 0 || ctx.full || ctx.force,
            Err(ArgError::MissingKeyword) => !(ctx.unknown_flags@.len() != 0 || ctx.full || ctx.force)
                && ctx.positionals@.len() == 0,
            Err(ArgError::TooManyArguments) => !(ctx.unknown_flags@.len() != 0 || ctx.full || ctx.force)
                && ctx.positionals@.len() > 1,
            Err(_) => false,
        },
{
    if ctx.unknown_flags.len() != 0 || ctx.full || ctx.force {
        return Err(ArgError::UnsupportedOptions);
    }
    if ctx.positionals.len() == 0 {
        return Err(ArgError::MissingKeyword);
    }
    if ctx.positionals.len() > 1 {
        return Err(ArgError::TooManyArguments);
    }
    Ok(ctx.positionals[0].clone())
}

/// `store` takes only `--verbose` and at most one MIME type; returns the
/// MIME type to store under.
pub fn store_args(ctx: &ArgContext) -> (r: Result<String, ArgError>)
    ensures
        match r {
            Ok(m) => ctx.unknown_flags@.len() == 0 && !ctx.raw && !ctx.full && !ctx.force
                && ctx.positionals@.len() <= 1 && m@ == mime_argument(ctx.positionals@),
            Err(ArgError::UnsupportedOptions) => ctx.unknown_flags@.len() != 0 || ctx.raw || ctx.full || ctx.force,
            Err(ArgError::TooManyArguments) => !(ctx.unknown_flags@.len() != 0 || ctx.raw || ctx.full || ctx.force)
                && ctx.positionals@.len() > 1,
            Err(_) => false,
        },
{
    if ctx.unknown_flags.len() != 0 || ctx.raw || ctx.full || ctx.force {
        return Err(ArgError::UnsupportedOptions);
    }
    if ctx.positionals.len() > 1 {
        return Err(ArgError::TooManyArguments);
    }
    Ok(first_or_default(&ctx.positionals))
}

/// Title of the search results.
pub fn search_title(query: &str, hits: usize) -> (t: String)
    ensures
        t@ == "search: '"@ + query@ + "' ("@ + decimal(hits as nat) + " hits)"@,
{
    let mut t = String::new();
    push_str(&mut t, "search: '");
    push_str(&mut t, query);
    push_str(&mut t, "' (");
    push_decimal(&mut t, hits as u64);
    push_str(&mut t, " hits)");
    assert(t@ =~= "search: '"@ + query@ + "' ("@ + decimal(hits as nat) + " hits)"@);
    t
}

} // verus!
