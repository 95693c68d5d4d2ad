//! Search parameters, validated once before any file is read.

use crate::pattern::{
    compiled_by_new, regex_accepts, regex_as_str, regex_compile, regex_is_match, regex_source,
};
use crate::text::{contains_text, lowercase, str_contains, str_to_lowercase};
use regex::Regex;
use vstd::prelude::*;
use vstd::string::*;

verus! {

/// Why a search could not be configured.
#[derive(Debug, Clone, Copy, PartialEq, Eq, Structural)]
pub enum ConfigError {
    /// The keyword is empty.
    InvalidArgument,
    /// The root does not exist or is not a directory.
    PathNotFound,
    /// Regex mode is on and the keyword is not a valid regular expression.
    InvalidPattern,
}

impl ConfigError {
    /// The message that a failed invocation shows for this error.
    pub open spec fn message_text(self) -> Seq<char> {
        match self {
            ConfigError::InvalidArgument => "the keyword must not be empty"@,
            ConfigError::PathNotFound => "the root is not an existing directory"@,
            ConfigError::InvalidPattern => "the keyword is not a valid regular expression"@,
        }
    }

    /// The message that a failed invocation shows for this error.
    pub fn message(&self) -> (m: &'static str)
        ensures
            m@ == self.message_text(),
    {
        match self {
            ConfigError::InvalidArgument => "the keyword must not be empty",
            ConfigError::PathNotFound => "the root is not an existing directory",
            ConfigError::InvalidPattern => "the keyword is not a valid regular expression",
        }
    }
}

/// The parameters of a search as a mathematical value.
pub struct ConfigView {
    pub keyword: Seq<char>,
    pub root: Seq<char>,
    pub ignore_case: bool,
    pub regex_mode: bool,
}

impl ConfigView {
    /// Whether a line satisfies the matcher that these parameters select.
    ///
    /// In regex mode the expression is applied to the line as it stands and
    /// the case flag plays no part. Otherwise the keyword must be a
    /// contiguous part of the line, after lowercasing both when the case
    /// flag is set.
    pub open spec fn accepts(self, line: Seq<char>) -> bool {
        if self.regex_mode {
            regex_accepts(self.keyword, line)
        } else if self.ignore_case {
            contains_text(lowercase(line), lowercase(self.keyword))
        } else {
            contains_text(line, self.keyword)
        }
    }
}

/// Validated, immutable search parameters.
pub struct Configuration {
    keyword: String,
    root: String,
    ignore_case: bool,
    regex_mode: bool,
    /// What a literal search looks for: the keyword, lowercased when case
    /// is ignored.
    needle: String,
    /// The compiled keyword, in regex mode.
    compiled: Option<Regex>,
}

impl View for Configuration {
    type V = ConfigView;

    closed spec fn view(&self) -> ConfigView {
        ConfigView {
            keyword: self.keyword@,
            root: self.root@,
            ignore_case: self.ignore_case,
            regex_mode: self.regex_mode,
        }
    }
}

impl Configuration {
    #[verifier::type_invariant]
    spec fn well_formed(self) -> bool {
        &&& self.keyword@.len() > 0
        &&& !self.regex_mode ==> self.needle@ == if self.ignore_case {
            lowercase(self.keyword@)
        } else {
            self.keyword@
        }
        &&& self.regex_mode <==> self.compiled is Some
        &&& self.compiled matches Some(re) ==> regex_source(re) == self.keyword@
            && compiled_by_new(re)
    }

    /// Parameters for a literal search.
    ///
    /// Fails with `InvalidArgument` on an empty keyword, else with
    /// `PathNotFound` when the root is not an existing directory.
    pub fn literal(keyword: &str, root: &str, root_is_dir: bool, ignore_case: bool) -> (r: Result<
        Configuration,
        ConfigError,
    >)
        ensures
            keyword@.len() == 0 ==> r == Err::<Configuration, ConfigError>(
                ConfigError::InvalidArgument,
            ),
            keyword@.len() > 0 && !root_is_dir ==> r == Err::<Configuration, ConfigError>(
                ConfigError::PathNotFound,
            ),
            keyword@.len() > 0 && root_is_dir ==> r is Ok && r->Ok_0@ == (ConfigView {
                keyword: keyword@,
                root: root@,
                ignore_case,
                regex_mode: false,
            }),
    {
        if keyword.is_empty() {
            return Err(ConfigError::InvalidArgument);
        }
        if !root_is_dir {
            return Err(ConfigError::PathNotFound);
        }
        let needle = if ignore_case {
            str_to_lowercase(keyword)
        } else {
            keyword.to_owned()
        };
        Ok(
            Configuration {
                keyword: keyword.to_owned(),
                root: root.to_owned(),
                ignore_case,
                regex_mode: false,
                needle,
                compiled: None,
            },
        )
    }

    /// Parameters for a regex search, from the outcome of compiling the
    /// keyword with `Regex::new`. The keyword of the configuration is the
    /// pattern text that the compiled expression was built from.
    ///
    /// Fails with `PathNotFound` when the root is not an existing directory,
    /// else with `InvalidPattern` when compilation failed, else with
    /// `InvalidArgument` when the pattern text is empty.
    pub fn from_compiled(
        compiled: Result<Regex, regex::Error>,
        root: &str,
        root_is_dir: bool,
        ignore_case: bool,
    ) -> (r: Result<Configuration, ConfigError>)
        requires
            compiled matches Ok(re) ==> compiled_by_new(re),
        ensures
            !root_is_dir ==> r == Err::<Configuration, ConfigError>(ConfigError::PathNotFound),
            root_is_dir && compiled is Err ==> r == Err::<Configuration, ConfigError>(
                ConfigError::InvalidPattern,
            ),
            root_is_dir && compiled is Ok && regex_source(compiled->Ok_0).len() == 0 ==> r
                == Err::<Configuration, ConfigError>(ConfigError::InvalidArgument),
            root_is_dir && compiled is Ok && regex_source(compiled->Ok_0).len() > 0 ==> r is Ok
                && r->Ok_0@ == (ConfigView {
                keyword: regex_source(compiled->Ok_0),
                root: root@,
                ignore_case,
                regex_mode: true,
            }),
    {
        if !root_is_dir {
            return Err(ConfigError::PathNotFound);
        }
        match compiled {
            Err(_) => Err(ConfigError::InvalidPattern),
            Ok(re) => {
                let keyword = regex_as_str(&re).to_owned();
                if keyword.as_str().is_empty() {
                    return Err(ConfigError::InvalidArgument);
                }
                Ok(
                    Configuration {
                        keyword,
                        root: root.to_owned(),
                        ignore_case,
                        regex_mode: true,
                        needle: String::new(),
                        compiled: Some(re),
                    },
                )
            },
        }
    }

    /// Validates raw parameters.
    ///
    /// An empty keyword is `InvalidArgument`; otherwise a root that is not an
    /// existing directory is `PathNotFound`. In literal mode every other
    /// input succeeds. In regex mode the keyword is compiled once, here, and
    /// the outcome is a configuration for exactly the given parameters or
    /// `InvalidPattern`.
    pub fn validate(
        keyword: &str,
        root: &str,
        root_is_dir: bool,
        ignore_case: bool,
        regex_mode: bool,
    ) -> (r: Result<Configuration, ConfigError>)
        ensures
            keyword@.len() == 0 ==> r == Err::<Configuration, ConfigError>(
                ConfigError::InvalidArgument,
            ),
            keyword@.len() > 0 && !root_is_dir ==> r == Err::<Configuration, ConfigError>(
                ConfigError::PathNotFound,
            ),
            keyword@.len() > 0 && root_is_dir && !regex_mode ==> r is Ok,
            keyword@.len() > 0 && root_is_dir && regex_mode ==> r is Ok || r == Err::<
                Configuration,
                ConfigError,
            >(ConfigError::InvalidPattern),
            r matches Ok(cfg) ==> cfg@ == (ConfigView {
                keyword: keyword@,
                root: root@,
                ignore_case,
                regex_mode,
            }),
    {
        if keyword.is_empty() {
            return Err(ConfigError::InvalidArgument);
        }
        if !root_is_dir {
            return Err(ConfigError::PathNotFound);
        }
        if regex_mode {
            Configuration::from_compiled(regex_compile(keyword), root, root_is_dir, ignore_case)
        } else {
            Configuration::literal(keyword, root, root_is_dir, ignore_case)
        }
    }

    /// The keyword as supplied; it is never empty.
    pub fn keyword(&self) -> (k: &str)
        ensures
            k@ == self@.keyword,
            k@.len() > 0,
    {
        proof {
            use_type_invariant(self);
        }
        self.keyword.as_str()
    }

    /// The root of the search.
    pub fn root(&self) -> (p: &str)
        ensures
            p@ == self@.root,
    {
        self.root.as_str()
    }

    /// Whether literal matching ignores case.
    pub fn ignore_case(&self) -> (b: bool)
        ensures
            b == self@.ignore_case,
    {
        self.ignore_case
    }

    /// Whether the keyword is a regular expression.
    pub fn regex_mode(&self) -> (b: bool)
        ensures
            b == self@.regex_mode,
    {
        self.regex_mode
    }

    /// Decides whether a line matches.
    pub fn matches(&self, line: &str) -> (m: bool)
        ensures
            m == self@.accepts(line@),
    {
        proof {
            use_type_invariant(self);
        }
        match &self.compiled {
            Some(re) => regex_is_match(re, line),
            None => {
                if self.ignore_case {
                    let folded = str_to_lowercase(line);
                    str_contains(folded.as_str(), self.needle.as_str())
                } else {
                    str_contains(line, self.needle.as_str())
                }
            },
        }
    }
}

} // verus!
