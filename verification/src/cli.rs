//! The configuration of a run, and what is compiled from it before the first
//! record is read.

use crate::error::ConfigError;
use crate::pattern::regex_compiles;
use crate::pattern::Matcher;
use crate::rewrite::Substitute;
use vstd::prelude::*;
use vstd::utf8::encode_utf8;

verus! {

/// The options of a run.
pub struct Args {
    /// Where the records come from; standard input where no path is given.
    pub input: Option<String>,
    /// Where the report goes; standard output where no path is given.
    pub output: Option<String>,
    /// Skip counting and emit each distinct record once, in input order.
    pub unique: bool,
    /// Only records that this pattern matches are retained.
    pub include_pattern: Option<String>,
    /// Records that this pattern matches are dropped.
    pub exclude_pattern: Option<String>,
    /// Substitutions, as pattern and replacement in turn.
    pub substitute: Vec<String>,
    /// Entries counted less often than this are left out of the report.
    pub min: Option<usize>,
    /// Entries counted more often than this are left out of the report.
    pub max: Option<usize>,
    /// Sort from the largest to the smallest.
    pub descending: bool,
    /// Leave the entries in the order the table gives them.
    pub skip_sorting: bool,
    /// Sort by key instead of by count.
    pub sort_by_name: bool,
    /// Show only the last k entries one by one, and the rest as one row.
    pub last_k: Option<usize>,
}

/// What compiling an optional pattern gives: nothing for no pattern, a
/// matcher of the pattern where the engine accepts it, else the engine's
/// refusal.
pub open spec fn compiled(
    pattern: Option<String>,
    r: Result<Option<Matcher>, ConfigError>,
) -> bool {
    match pattern {
        None => r matches Ok(None),
        Some(p) => {
            &&& r is Ok <==> regex_compiles(p@)
            &&& r matches Ok(found) ==> found matches Some(m) && m.pattern() == p@
            &&& r matches Err(e) ==> e is InvalidPattern
        },
    }
}

/// Every pattern of the pairs in `args` before pair `n` is one that the
/// engine accepts.
pub open spec fn patterns_compile(args: Seq<String>, n: int) -> bool {
    forall|i: int| 0 <= i < n ==> regex_compiles(#[trigger] args[2 * i]@)
}

/// `rules` are the first `n` pairs of `args`, compiled.
pub open spec fn pairs_compiled(args: Seq<String>, rules: Seq<(Matcher, &[u8])>, n: int) -> bool {
    &&& rules.len() == n
    &&& forall|i: int|
        0 <= i < n ==> (#[trigger] rules[i]).0.pattern() == args[2 * i]@ && rules[i].1@
            == encode_utf8(args[2 * i + 1]@)
}

/// The options of `args` that exclude each other and are both set: a top-k
/// report with a bound on the counts or without sorting, or a descending
/// order without sorting.
pub open spec fn conflicting(args: Args) -> bool {
    ||| args.skip_sorting && args.descending
    ||| args.last_k is Some && (args.min is Some || args.max is Some || args.skip_sorting)
}

fn compile_optional(pattern: &Option<String>) -> (r: Result<Option<Matcher>, ConfigError>)
    ensures
        compiled(*pattern, r),
{
    match pattern {
        Some(p) => match Matcher::new(p.as_str()) {
            Ok(m) => Ok(Some(m)),
            Err(e) => Err(e),
        },
        None => Ok(None),
    }
}

impl Args {
    /// Refuses options that exclude each other.
    pub fn validate(&self) -> (r: Result<(), ConfigError>)
        ensures
            r is Err <==> conflicting(*self),
            r matches Err(e) ==> e is ConflictingOptions,
    {
        if self.skip_sorting && self.descending {
            return Err(ConfigError::ConflictingOptions);
        }
        if self.last_k.is_some() && (self.min.is_some() || self.max.is_some()
            || self.skip_sorting) {
            return Err(ConfigError::ConflictingOptions);
        }
        Ok(())
    }

    /// The matcher of the include pattern, if one was given.
    pub fn include_regex(&self) -> (r: Result<Option<Matcher>, ConfigError>)
        ensures
            compiled(self.include_pattern, r),
    {
        compile_optional(&self.include_pattern)
    }

    /// The matcher of the exclude pattern, if one was given.
    pub fn exclude_regex(&self) -> (r: Result<Option<Matcher>, ConfigError>)
        ensures
            compiled(self.exclude_pattern, r),
    {
        compile_optional(&self.exclude_pattern)
    }

    /// The number of entries that a top-k report shows one by one; zero
    /// where no top-k report was asked for.
    pub fn last_k(&self) -> (k: usize)
        ensures
            k == match self.last_k {
                Some(n) => n,
                None => 0,
            },
    {
        match self.last_k {
            Some(n) => n,
            None => 0,
        }
    }

    /// The substitutions, compiled pair by pair.
    ///
    /// An odd number of arguments is refused; no arguments give no
    /// substitutions; otherwise each pair gives one substitution, in order,
    /// unless the engine refuses one of the patterns.
    pub fn substitutes(&self) -> (r: Result<Option<Vec<Substitute<'_>>>, ConfigError>)
        ensures
            match r {
                Ok(None) => self.substitute@.len() == 0,
                Ok(Some(rules)) => {
                    &&& self.substitute@.len() > 0
                    &&& self.substitute@.len() % 2 == 0
                    &&& patterns_compile(self.substitute@, self.substitute@.len() as int / 2)
                    &&& pairs_compiled(self.substitute@, rules@, self.substitute@.len() as int / 2)
                },
                Err(ConfigError::UnpairedSubstitution) => self.substitute@.len() % 2 != 0,
                Err(ConfigError::InvalidPattern(_)) => {
                    &&& self.substitute@.len() % 2 == 0
                    &&& !patterns_compile(self.substitute@, self.substitute@.len() as int / 2)
                },
                Err(ConfigError::ConflictingOptions) => false,
            },
    {
        let n = self.substitute.len();
        if n % 2 != 0 {
            return Err(ConfigError::UnpairedSubstitution);
        }
        if n == 0 {
            return Ok(None);
        }
        let mut rules: Vec<Substitute<'_>> = Vec::new();
        let mut i: usize = 0;
        while i < n / 2
            invariant
                n == self.substitute@.len(),
                n % 2 == 0,
                0 <= i <= n / 2,
                patterns_compile(self.substitute@, i as int),
                pairs_compiled(self.substitute@, rules@, i as int),
            decreases n / 2 - i,
        {
            match Matcher::new(self.substitute[2 * i].as_str()) {
                Ok(m) => {
                    let replacement = self.substitute[2 * i + 1].as_str().as_bytes();
                    rules.push((m, replacement));
                },
                Err(e) => {
                    return Err(e);
                },
            }
            i += 1;
        }
        Ok(Some(rules))
    }
}

} // verus!
