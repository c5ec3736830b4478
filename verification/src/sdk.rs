use crate::node_builder::{build_node, node_in_bounds, node_outcome, result_outcome, AstNodePattern, Grammar, NodeError};
use crate::text::starts_with;
use vstd::prelude::*;

verus! {

/// A variable that a snippet refers to by name, resolved when the pattern runs.
#[derive(Clone, Debug)]
pub struct DynamicVariable {
    pub name: String,
}

/// Why the stateless compiler refused a variable.
#[derive(Clone, Copy, Debug, PartialEq, Eq, Structural)]
pub enum StatelessError {
    /// Global variables need the scopes that only the full compiler keeps.
    GlobalVariablesUnsupported,
    /// `$match` needs the scopes that only the full compiler keeps.
    MatchVariableUnsupported,
}

/// The message a stateless compiler error is reported with.
pub open spec fn stateless_error_message(e: StatelessError) -> Seq<char> {
    match e {
        StatelessError::GlobalVariablesUnsupported => "Global variables are not supported in stateless mode"@,
        StatelessError::MatchVariableUnsupported => "The $match variable is not supported in the stateless SDK"@,
    }
}

impl StatelessError {
    /// The message the error is reported with.
    pub fn message(&self) -> (m: String)
        ensures
            m@ == stateless_error_message(*self),
    {
        match self {
            StatelessError::GlobalVariablesUnsupported => {
                "Global variables are not supported in stateless mode".to_owned()
            },
            StatelessError::MatchVariableUnsupported => {
                "The $match variable is not supported in the stateless SDK".to_owned()
            },
        }
    }
}

/// The name starts with `$GLOBAL_`.
pub open spec fn is_dollar_global(name: Seq<char>) -> bool {
    name.len() >= 8 && name.take(8) == seq!['$', 'G', 'L', 'O', 'B', 'A', 'L', '_']
}

/// Compiles snippets and node patterns without keeping variable scopes: every
/// variable is dynamic.
pub struct StatelessCompilerContext {
    pub grammar: Grammar,
}

impl StatelessCompilerContext {
    pub fn new(grammar: Grammar) -> (c: Self)
        ensures
            c.grammar == grammar,
    {
        StatelessCompilerContext { grammar }
    }

    /// Builds the pattern for a node of kind `name` with the given fields.
    pub fn node<P>(&self, name: &str, fields: Vec<(String, P)>) -> (r: Result<AstNodePattern<P>, NodeError>)
        requires
            node_in_bounds(self.grammar, name@),
        ensures
            result_outcome(r) == node_outcome(self.grammar, name@, fields@),
    {
        build_node(&self.grammar, name, fields)
    }

    /// A snippet variable: dynamic, by name; `$GLOBAL_` names are refused.
    pub fn register_variable(&mut self, name: &str) -> (r: Result<DynamicVariable, StatelessError>)
        ensures
            final(self).grammar == old(self).grammar,
            is_dollar_global(name@) ==> r == Err::<DynamicVariable, StatelessError>(
                StatelessError::GlobalVariablesUnsupported,
            ),
            !is_dollar_global(name@) ==> (r matches Ok(v) && v.name@ == name@),
    {
        let prefix = "$GLOBAL_";
        proof {
            reveal_strlit("$GLOBAL_");
            assert(prefix@ =~= seq!['$', 'G', 'L', 'O', 'B', 'A', 'L', '_']);
        }
        if starts_with(name, prefix) {
            Err(StatelessError::GlobalVariablesUnsupported)
        } else {
            Ok(DynamicVariable { name: name.to_owned() })
        }
    }

    /// The `$match` variable: refused, as it needs scopes.
    pub fn register_match_variable(&mut self) -> (r: Result<DynamicVariable, StatelessError>)
        ensures
            final(self).grammar == old(self).grammar,
            r == Err::<DynamicVariable, StatelessError>(StatelessError::MatchVariableUnsupported),
    {
        Err(StatelessError::MatchVariableUnsupported)
    }
}

/// A pattern built up before it is compiled, so that it can be compiled for
/// any language later.
#[derive(Debug)]
pub enum UncompiledPattern {
    Contains { contains: Box<UncompiledPattern> },
    Snippet { text: String },
}

/// Builds uncompiled patterns for host languages.
#[derive(Debug)]
pub struct UncompiledPatternBuilder {
    pub pattern: UncompiledPattern,
}

impl UncompiledPatternBuilder {
    /// A builder for the code snippet `text`.
    pub fn new_snippet(text: String) -> (b: Self)
        ensures
            b.pattern == (UncompiledPattern::Snippet { text }),
    {
        UncompiledPatternBuilder { pattern: UncompiledPattern::Snippet { text } }
    }
}

} // verus!
