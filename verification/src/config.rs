//! The configuration of one search run, built from the arguments of an
//! invocation.

use vstd::prelude::*;

verus! {

/// One of the two arguments that an invocation must give.
#[derive(Clone, Copy, Debug, PartialEq, Eq, Structural)]
pub enum Argument {
    Query,
    Filename,
}

impl Argument {
    /// The argument's name as a text.
    pub open spec fn spec_name(self) -> Seq<char> {
        match self {
            Argument::Query => "query"@,
            Argument::Filename => "filename"@,
        }
    }

    /// The argument's name: `query` or `filename`.
    pub fn name(&self) -> (name: &'static str)
        ensures
            name@ == self.spec_name(),
    {
        match self {
            Argument::Query => "query",
            Argument::Filename => "filename",
        }
    }
}

/// Why no configuration could be built.
#[derive(Clone, Copy, Debug, PartialEq, Eq, Structural)]
pub enum ConfigError {
    /// The invocation does not give this argument.
    MissingArgument(Argument),
}

impl ConfigError {
    /// The error as a sentence.
    pub open spec fn spec_message(self) -> Seq<char> {
        match self {
            ConfigError::MissingArgument(Argument::Query) => "Missing query argument"@,
            ConfigError::MissingArgument(Argument::Filename) => "Missing filename argument"@,
        }
    }

    /// The error as a sentence for the user.
    pub fn message(&self) -> (text: &'static str)
        ensures
            text@ == self.spec_message(),
    {
        match self {
            ConfigError::MissingArgument(Argument::Query) => "Missing query argument",
            ConfigError::MissingArgument(Argument::Filename) => "Missing filename argument",
        }
    }
}

/// What a `Config` holds.
pub struct ConfigView {
    pub query: Seq<char>,
    pub filename: Seq<char>,
    pub case_sensitive: bool,
}

/// The parameters of one search run: what to look for, in which file, and
/// whether letter case counts. A `Config` does not change once it is built.
#[derive(Debug)]
pub struct Config {
    query: String,
    filename: String,
    case_sensitive: bool,
}

impl View for Config {
    type V = ConfigView;

    closed spec fn view(&self) -> ConfigView {
        ConfigView {
            query: self.query@,
            filename: self.filename@,
            case_sensitive: self.case_sensitive,
        }
    }
}

impl Config {
    /// Builds the configuration from the tokens of an invocation and the
    /// case-insensitivity switch.
    ///
    /// The first token is the program's name and is passed over. The second
    /// is the query and the third the file name, each taken as it stands;
    /// an empty query is taken too. Tokens after the third are ignored.
    /// Case counts unless `case_insensitive` is set.
    pub fn from(args: &[String], case_insensitive: bool) -> (built: Result<Config, ConfigError>)
        ensures
            args@.len() <= 1 ==> built is Err && built->Err_0 == ConfigError::MissingArgument(
                Argument::Query,
            ),
            args@.len() == 2 ==> built is Err && built->Err_0 == ConfigError::MissingArgument(
                Argument::Filename,
            ),
            args@.len() >= 3 ==> built is Ok && built->Ok_0@ == (ConfigView {
                query: args@[1]@,
                filename: args@[2]@,
                case_sensitive: !case_insensitive,
            }),
    {
        if args.len() < 2 {
            return Err(ConfigError::MissingArgument(Argument::Query));
        }
        if args.len() < 3 {
            return Err(ConfigError::MissingArgument(Argument::Filename));
        }
        Ok(Config::new(args[1].as_str(), args[2].as_str(), !case_insensitive))
    }

    /// A configuration with these three values.
    pub fn new(query: &str, filename: &str, case_sensitive: bool) -> (config: Config)
        ensures
            config@ == (ConfigView { query: query@, filename: filename@, case_sensitive }),
    {
        Config { query: query.to_owned(), filename: filename.to_owned(), case_sensitive }
    }

    /// The text to look for.
    pub fn query(&self) -> (query: &str)
        ensures
            query@ == self@.query,
    {
        self.query.as_str()
    }

    /// The path of the file to search.
    pub fn filename(&self) -> (filename: &str)
        ensures
            filename@ == self@.filename,
    {
        self.filename.as_str()
    }

    /// Whether letter case counts in the search.
    pub fn case_sensitive(&self) -> (case_sensitive: bool)
        ensures
            case_sensitive == self@.case_sensitive,
    {
        self.case_sensitive
    }
}

} // verus!
