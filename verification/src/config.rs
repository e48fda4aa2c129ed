//! The parameters of one search run and how they are taken from an argument list.

use vstd::prelude::*;

verus! {

/// Why the parameters of a run could not be assembled.
#[derive(Debug, Clone, Copy, PartialEq, Eq, Structural)]
pub enum ConfigError {
    /// Fewer than three entries were supplied (program name, query, file path).
    InsufficientArguments,
}

impl ConfigError {
    /// The diagnostic shown to the user for this error.
    pub fn message(&self) -> (text: &'static str)
        ensures
            text@ == "Not enough arguments."@,
    {
        match self {
            ConfigError::InsufficientArguments => "Not enough arguments.",
        }
    }
}

/// The parameters of one run: what to look for, where, and whether letter case matters.
pub struct Config {
    pub query: String,
    pub file_path: String,
    pub ignore_case: bool,
}

/// The mathematical value of a [`Config`].
pub struct ConfigView {
    pub query: Seq<char>,
    pub file_path: Seq<char>,
    pub ignore_case: bool,
}

impl View for Config {
    type V = ConfigView;

    open spec fn view(&self) -> ConfigView {
        ConfigView {
            query: self.query@,
            file_path: self.file_path@,
            ignore_case: self.ignore_case,
        }
    }
}

/// What [`Config::new`] makes of an argument list and the case toggle.
///
/// The first entry is the program's name and is not read; the second is the
/// query and the third the file path, both taken verbatim (either may be
/// empty). Entries after the third are ignored.
pub open spec fn resolve(args: Seq<Seq<char>>, ignore_case: bool) -> Result<
    ConfigView,
    ConfigError,
> {
    if args.len() < 3 {
        Err(ConfigError::InsufficientArguments)
    } else {
        Ok(ConfigView { query: args[1], file_path: args[2], ignore_case })
    }
}

/// The texts of an argument list.
pub open spec fn arg_texts(args: Seq<String>) -> Seq<Seq<char>> {
    args.map_values(|a: String| a@)
}

/// The mathematical value of what [`Config::new`] returns.
pub open spec fn outcome_view(outcome: Result<Config, ConfigError>) -> Result<
    ConfigView,
    ConfigError,
> {
    match outcome {
        Ok(config) => Ok(config@),
        Err(e) => Err(e),
    }
}

impl Config {
    /// Assembles the parameters of a run from the program's argument list and
    /// the case toggle; `ignore_case` is true when the toggle is present.
    ///
    /// The only validation is the number of arguments: nothing is required of
    /// the query or the path themselves.
    pub fn new(args: &[String], ignore_case: bool) -> (outcome: Result<Config, ConfigError>)
        ensures
            outcome_view(outcome) == resolve(arg_texts(args@), ignore_case),
            args@.len() < 3 ==> outcome == Err::<Config, ConfigError>(
                ConfigError::InsufficientArguments,
            ),
            args@.len() >= 3 ==> outcome is Ok && outcome->Ok_0.query@ == args@[1]@
                && outcome->Ok_0.file_path@ == args@[2]@ && outcome->Ok_0.ignore_case
                == ignore_case,
    {
        if args.len() < 3 {
            return Err(ConfigError::InsufficientArguments);
        }
        let query = args[1].clone();
        let file_path = args[2].clone();
        Ok(Config { query, file_path, ignore_case })
    }
}

} // verus!
