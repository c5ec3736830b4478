use crate::text::{str_eq, string_from_chars};
use vstd::prelude::*;

verus! {

/// A review rule of a project, as the rules API reports it.
#[derive(Debug, Clone)]
pub struct AutoReviewRule {
    pub id: String,
    pub title: String,
    pub description: String,
    pub level: String,
    pub created_at: String,
}

/// The rules of one project in a rules response.
#[derive(Debug, Clone)]
pub struct RuleProject {
    pub review_rules: Vec<AutoReviewRule>,
}

/// How severe a pattern's findings are.
#[derive(Debug, Clone, Copy, PartialEq, Eq, Structural)]
pub enum PatternLevel {
    Off,
    Warn,
    Error,
}

/// A level name that is not one of `none`, `warn`, `error`.
#[derive(Debug, Clone)]
pub struct InvalidLevel {
    pub given: String,
}

/// Why no rules could be taken from a rules response.
#[derive(Debug, Clone, Copy, PartialEq, Eq, Structural)]
pub enum RulesError {
    NoProjectFound,
}

/// The level that a name denotes, if it denotes one.
pub open spec fn level_named(s: Seq<char>) -> Option<PatternLevel> {
    if s == seq!['n', 'o', 'n', 'e'] {
        Some(PatternLevel::Off)
    } else if s == seq!['w', 'a', 'r', 'n'] {
        Some(PatternLevel::Warn)
    } else if s == seq!['e', 'r', 'r', 'o', 'r'] {
        Some(PatternLevel::Error)
    } else {
        None
    }
}

/// The number that stands for a level: 0, 2 and 3.
pub open spec fn level_number(level: PatternLevel) -> u8 {
    match level {
        PatternLevel::Off => 0,
        PatternLevel::Warn => 2,
        PatternLevel::Error => 3,
    }
}

impl PatternLevel {
    /// Reads a level name: `none`, `warn` or `error`.
    pub fn parse(s: &str) -> (r: Result<PatternLevel, InvalidLevel>)
        ensures
            level_named(s@) is Some ==> r == Ok::<PatternLevel, InvalidLevel>(
                level_named(s@).unwrap(),
            ),
            level_named(s@) is None ==> (r matches Err(e) && e.given@ == s@),
    {
        let none = "none";
        let warn = "warn";
        let error = "error";
        proof {
            reveal_strlit("none");
            reveal_strlit("warn");
            reveal_strlit("error");
            assert(none@ =~= seq!['n', 'o', 'n', 'e']);
            assert(warn@ =~= seq!['w', 'a', 'r', 'n']);
            assert(error@ =~= seq!['e', 'r', 'r', 'o', 'r']);
        }
        if str_eq(s, none) {
            Ok(PatternLevel::Off)
        } else if str_eq(s, warn) {
            Ok(PatternLevel::Warn)
        } else if str_eq(s, error) {
            Ok(PatternLevel::Error)
        } else {
            Err(InvalidLevel { given: s.to_owned() })
        }
    }

    /// The number that stands for the level.
    pub fn number(&self) -> (n: u8)
        ensures
            n == level_number(*self),
    {
        match self {
            PatternLevel::Off => 0,
            PatternLevel::Warn => 2,
            PatternLevel::Error => 3,
        }
    }
}

impl std::str::FromStr for PatternLevel {
    type Err = InvalidLevel;

    fn from_str(s: &str) -> (r: Result<PatternLevel, InvalidLevel>)
        ensures
            level_named(s@) is Some ==> r == Ok::<PatternLevel, InvalidLevel>(
                level_named(s@).unwrap(),
            ),
            level_named(s@) is None ==> (r matches Err(e) && e.given@ == s@),
    {
        PatternLevel::parse(s)
    }
}

/// The text of an invalid-level error: `'<name>' is not a valid level`.
pub open spec fn invalid_level_message(given: Seq<char>) -> Seq<char> {
    seq!['\''] + given + seq![
        '\'',
        ' ',
        'i',
        's',
        ' ',
        'n',
        'o',
        't',
        ' ',
        'a',
        ' ',
        'v',
        'a',
        'l',
        'i',
        'd',
        ' ',
        'l',
        'e',
        'v',
        'e',
        'l',
    ]
}

impl InvalidLevel {
    /// The message the error is reported with.
    pub fn message(&self) -> (m: String)
        ensures
            m@ == invalid_level_message(self.given@),
    {
        let quote = ['\''];
        let mut m = string_from_chars(&quote);
        m.append(self.given.as_str());
        let tail = "' is not a valid level";
        proof {
            reveal_strlit("' is not a valid level");
        }
        m.append(tail);
        m
    }
}

/// The rules of the first project of a response, or `NoProjectFound` when the
/// response lists no project.
pub fn rules_from_projects(projects: Vec<RuleProject>) -> (r: Result<Vec<AutoReviewRule>, RulesError>)
    ensures
        projects@.len() == 0 ==> r == Err::<Vec<AutoReviewRule>, RulesError>(
            RulesError::NoProjectFound,
        ),
        projects@.len() > 0 ==> (r matches Ok(rules) && rules@ == projects@[0].review_rules@),
{
    let mut projects = projects;
    if projects.len() == 0 {
        return Err(RulesError::NoProjectFound);
    }
    let first = projects.swap_remove(0);
    Ok(first.review_rules)
}

/// The endpoint of the GraphQL API under `api_url`: `<api_url>/graphql`.
pub fn graphql_url(api_url: &str) -> (url: String)
    ensures
        url@ == api_url@ + seq!['/', 'g', 'r', 'a', 'p', 'h', 'q', 'l'],
{
    let mut url = api_url.to_owned();
    let path = "/graphql";
    proof {
        reveal_strlit("/graphql");
    }
    url.append(path);
    url
}

} // verus!
