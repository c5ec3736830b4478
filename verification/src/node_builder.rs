use crate::text::{starts_with, str_eq};
use vstd::prelude::*;

verus! {

/// The field that holds a comment's content in a comment node pattern.
pub const COMMENT_CONTENT_FIELD_ID: u16 = 10000;

/// A field of a node type: its id, its name, and whether it holds a list.
#[derive(Clone, Debug)]
pub struct FieldInfo {
    pub id: u16,
    pub name: String,
    pub multiple: bool,
}

/// What building a node pattern reads of a language's grammar: the ids of the
/// named node kinds, the ids of the field names, the fields of each node type
/// (indexed by id), and the kinds that are comments.
#[derive(Clone, Debug)]
pub struct Grammar {
    pub node_kinds: Vec<(String, u16)>,
    pub field_ids: Vec<(String, u16)>,
    pub node_types: Vec<Vec<FieldInfo>>,
    pub comment_sorts: Vec<u16>,
}

/// A node pattern: the node kind and, for each given field, its id, whether it
/// holds a list, and the pattern for it.
#[derive(Debug)]
pub struct AstNodePattern<P> {
    pub sort: u16,
    pub args: Vec<(u16, bool, P)>,
}

/// Why a node pattern could not be built.
#[derive(Clone, Debug)]
pub enum NodeError {
    /// No named node kind has this name.
    InvalidNodeType { name: String },
    /// A comment node takes at most one field.
    CommentTooManyFields,
    /// No field has this name; the node kind and its valid fields are given.
    InvalidField { field: String, node: String, valid_fields: Vec<String> },
    /// The field exists but the node kind does not have it.
    FieldNotFound { field: String, node: String },
    /// Two given fields are the same field.
    DuplicateField,
}

/// The id that the first entry named `name` of `table` gives, if any.
pub open spec fn lookup_id(table: Seq<(String, u16)>, name: Seq<char>) -> Option<u16>
    decreases table.len(),
{
    if table.len() == 0 {
        None
    } else if table[0].0@ == name {
        Some(table[0].1)
    } else {
        lookup_id(table.drop_first(), name)
    }
}

/// The characters of each string.
pub open spec fn string_views(s: Seq<String>) -> Seq<Seq<char>> {
    s.map_values(|f: String| f@)
}

/// The names of the fields.
pub open spec fn field_name_views(s: Seq<FieldInfo>) -> Seq<Seq<char>> {
    s.map_values(|f: FieldInfo| f.name@)
}

/// The index of the first field of `fields` with id `id`, if any.
pub open spec fn find_field(fields: Seq<FieldInfo>, id: u16) -> Option<int>
    decreases fields.len(),
{
    if fields.len() == 0 {
        None
    } else if fields[0].id == id {
        Some(0)
    } else {
        match find_field(fields.drop_first(), id) {
            Some(i) => Some(i + 1),
            None => None,
        }
    }
}

/// The index of the first given field named `content`, if any.
pub open spec fn content_field<P>(fields: Seq<(String, P)>) -> Option<int>
    decreases fields.len(),
{
    if fields.len() == 0 {
        None
    } else if fields[0].0@ == seq!['c', 'o', 'n', 't', 'e', 'n', 't'] {
        Some(0)
    } else {
        match content_field(fields.drop_first()) {
            Some(i) => Some(i + 1),
            None => None,
        }
    }
}

/// Two arguments name the same field.
pub open spec fn has_duplicate_field<P>(args: Seq<(u16, bool, P)>) -> bool {
    exists|i: int, j: int| 0 <= i < j < args.len() && (#[trigger] args[i]).0 == (#[trigger] args[j]).0
}

/// The result of building a node, as views: the sort and the arguments, or
/// the error's kind (each kind carries what it reports).
pub enum NodeOutcome<P> {
    Built(u16, Seq<(u16, bool, P)>),
    InvalidNodeType(Seq<char>),
    CommentTooManyFields,
    InvalidField(Seq<char>, Seq<char>, Seq<Seq<char>>),
    FieldNotFound(Seq<char>, Seq<char>),
    DuplicateField,
}

/// The arguments for `fields` of the node type `node_fields`, or the error for
/// the first field that fails.
pub open spec fn field_args<P>(
    g: Grammar,
    node_name: Seq<char>,
    node_fields: Seq<FieldInfo>,
    fields: Seq<(String, P)>,
) -> NodeOutcome<P>
    decreases fields.len(),
{
    if fields.len() == 0 {
        NodeOutcome::Built(0, Seq::empty())
    } else {
        let rest = fields.drop_last();
        match field_args(g, node_name, node_fields, rest) {
            NodeOutcome::Built(_, args) => {
                let (name, pattern) = fields.last();
                match lookup_id(g.field_ids@, name@) {
                    None => NodeOutcome::InvalidField(
                        name@,
                        node_name,
                        field_name_views(node_fields),
                    ),
                    Some(id) => match find_field(node_fields, id) {
                        None => NodeOutcome::FieldNotFound(name@, node_name),
                        Some(k) => NodeOutcome::Built(
                            0,
                            args.push((id, node_fields[k].multiple, pattern)),
                        ),
                    },
                }
            },
            other => other,
        }
    }
}

/// What building the node pattern `name` with `fields` gives.
/// An unknown kind is an error. A comment takes at most one field and keeps
/// only one named `content`. Any other kind resolves every field, in order,
/// and rejects a field given twice.
pub open spec fn node_outcome<P>(g: Grammar, name: Seq<char>, fields: Seq<(String, P)>) -> NodeOutcome<
    P,
> {
    match lookup_id(g.node_kinds@, name) {
        None => NodeOutcome::InvalidNodeType(name),
        Some(sort) => if sort == 0 {
            NodeOutcome::InvalidNodeType(name)
        } else if g.comment_sorts@.contains(sort) {
            if fields.len() > 1 {
                NodeOutcome::CommentTooManyFields
            } else {
                match content_field(fields) {
                    Some(k) => NodeOutcome::Built(
                        sort,
                        seq![(COMMENT_CONTENT_FIELD_ID, false, fields[k].1)],
                    ),
                    None => NodeOutcome::Built(sort, Seq::empty()),
                }
            }
        } else {
            match field_args(g, name, g.node_types@[sort as int]@, fields) {
                NodeOutcome::Built(_, args) => if has_duplicate_field(args) {
                    NodeOutcome::DuplicateField
                } else {
                    NodeOutcome::Built(sort, args)
                },
                other => other,
            }
        },
    }
}

/// Building does not index past the grammar's node types.
pub open spec fn node_in_bounds(g: Grammar, name: Seq<char>) -> bool {
    match lookup_id(g.node_kinds@, name) {
        Some(sort) => sort != 0 && !g.comment_sorts@.contains(sort) ==> sort < g.node_types@.len(),
        None => true,
    }
}

/// The outcome that a result stands for.
pub open spec fn result_outcome<P>(r: Result<AstNodePattern<P>, NodeError>) -> NodeOutcome<P> {
    match r {
        Ok(n) => NodeOutcome::Built(n.sort, n.args@),
        Err(NodeError::InvalidNodeType { name }) => NodeOutcome::InvalidNodeType(name@),
        Err(NodeError::CommentTooManyFields) => NodeOutcome::CommentTooManyFields,
        Err(NodeError::InvalidField { field, node, valid_fields }) => NodeOutcome::InvalidField(
            field@,
            node@,
            string_views(valid_fields@),
        ),
        Err(NodeError::FieldNotFound { field, node }) => NodeOutcome::FieldNotFound(field@, node@),
        Err(NodeError::DuplicateField) => NodeOutcome::DuplicateField,
    }
}

fn lookup_id_exec(table: &Vec<(String, u16)>, name: &str) -> (r: Option<u16>)
    ensures
        r == lookup_id(table@, name@),
{
    let mut i: usize = 0;
    assert(table@.skip(0) == table@);
    while i < table.len()
        invariant
            0 <= i <= table@.len(),
            lookup_id(table@, name@) == lookup_id(table@.skip(i as int), name@),
        decreases table@.len() - i,
    {
        assert(table@.skip(i as int)[0] == table@[i as int]);
        assert(table@.skip(i as int).drop_first() == table@.skip(i + 1));
        if str_eq(table[i].0.as_str(), name) {
            return Some(table[i].1);
        }
        i = i + 1;
    }
    None
}

fn find_field_exec(fields: &Vec<FieldInfo>, id: u16) -> (r: Option<usize>)
    ensures
        match r {
            Some(k) => find_field(fields@, id) == Some(k as int) && k < fields@.len(),
            None => find_field(fields@, id) is None,
        },
{
    let mut i: usize = 0;
    while i < fields.len()
        invariant
            0 <= i <= fields@.len(),
            forall|j: int| 0 <= j < i ==> (#[trigger] fields@[j]).id != id,
        decreases fields@.len() - i,
    {
        if fields[i].id == id {
            proof {
                lemma_find_field_first(fields@, id, i as int);
            }
            return Some(i);
        }
        i = i + 1;
    }
    proof {
        lemma_find_field_none(fields@, id);
    }
    None
}

proof fn lemma_find_field_first(fields: Seq<FieldInfo>, id: u16, i: int)
    requires
        0 <= i < fields.len(),
        fields[i].id == id,
        forall|j: int| 0 <= j < i ==> (#[trigger] fields[j]).id != id,
    ensures
        find_field(fields, id) == Some(i),
    decreases i,
{
    if i > 0 {
        let rest = fields.drop_first();
        assert forall|j: int| 0 <= j < i - 1 implies (#[trigger] rest[j]).id != id by {
            assert(rest[j] == fields[j + 1]);
        }
        lemma_find_field_first(rest, id, i - 1);
    }
}

proof fn lemma_find_field_none(fields: Seq<FieldInfo>, id: u16)
    requires
        forall|j: int| 0 <= j < fields.len() ==> (#[trigger] fields[j]).id != id,
    ensures
        find_field(fields, id) is None,
    decreases fields.len(),
{
    if fields.len() > 0 {
        let rest = fields.drop_first();
        assert forall|j: int| 0 <= j < rest.len() implies (#[trigger] rest[j]).id != id by {
            assert(rest[j] == fields[j + 1]);
        }
        lemma_find_field_none(rest, id);
    }
}

fn field_names(fields: &Vec<FieldInfo>) -> (r: Vec<String>)
    ensures
        string_views(r@) == field_name_views(fields@),
{
    let mut r: Vec<String> = Vec::new();
    let mut i: usize = 0;
    while i < fields.len()
        invariant
            0 <= i <= fields@.len(),
            r@.len() == i,
            string_views(r@) == field_name_views(fields@.take(i as int)),
        decreases fields@.len() - i,
    {
        let ghost before = r@;
        let name = fields[i].name.clone();
        assert(name@ == fields@[i as int].name@);
        r.push(name);
        assert forall|j: int| 0 <= j < i + 1 implies #[trigger] r@[j]@ == fields@.take(i + 1)[j].name@ by {
            if j < i {
                assert(r@[j] == before[j]);
                assert(string_views(before)[j] == field_name_views(fields@.take(i as int))[j]);
            }
        }
        assert(string_views(r@) =~= field_name_views(fields@.take(i + 1)));
        i = i + 1;
    }
    assert(fields@.take(fields@.len() as int) == fields@);
    r
}

fn has_duplicate_exec<P>(args: &Vec<(u16, bool, P)>) -> (r: bool)
    ensures
        r == has_duplicate_field(args@),
{
    let n = args.len();
    let mut i: usize = 0;
    while i < n
        invariant
            n == args@.len(),
            0 <= i <= n,
            forall|a: int, b: int| 0 <= a < b < n && a < i ==> (#[trigger] args@[a]).0 != (#[trigger] args@[b]).0,
        decreases n - i,
    {
        let mut j: usize = i + 1;
        while j < n
            invariant
                n == args@.len(),
                i < n,
                i + 1 <= j <= n,
                forall|b: int| i < b < j ==> args@[i as int].0 != (#[trigger] args@[b]).0,
            decreases n - j,
        {
            if args[i].0 == args[j].0 {
                assert(args@[i as int].0 == args@[j as int].0);
                return true;
            }
            j = j + 1;
        }
        i = i + 1;
    }
    false
}

/// Builds the pattern for a node of kind `name` with the given fields.
pub fn build_node<P>(grammar: &Grammar, name: &str, fields: Vec<(String, P)>) -> (r: Result<
    AstNodePattern<P>,
    NodeError,
>)
    requires
        node_in_bounds(*grammar, name@),
    ensures
        result_outcome(r) == node_outcome(*grammar, name@, fields@),
{
    let sort = match lookup_id_exec(&grammar.node_kinds, name) {
        Some(sort) => sort,
        None => {
            return Err(NodeError::InvalidNodeType { name: name.to_owned() });
        },
    };
    if sort == 0 {
        return Err(NodeError::InvalidNodeType { name: name.to_owned() });
    }
    let mut is_comment = false;
    let mut c: usize = 0;
    while c < grammar.comment_sorts.len()
        invariant
            0 <= c <= grammar.comment_sorts@.len(),
            is_comment == grammar.comment_sorts@.take(c as int).contains(sort),
        decreases grammar.comment_sorts@.len() - c,
    {
        proof {
            let t = grammar.comment_sorts@.take(c + 1);
            assert(t == grammar.comment_sorts@.take(c as int).push(grammar.comment_sorts@[c as int]));
            if t.contains(sort) {
                let k = choose|k: int| 0 <= k < t.len() && t[k] == sort;
                if k < c {
                    assert(grammar.comment_sorts@.take(c as int)[k] == sort);
                }
            }
            if grammar.comment_sorts@.take(c as int).contains(sort) {
                let k = choose|k: int| 0 <= k < c && grammar.comment_sorts@.take(c as int)[k] == sort;
                assert(t[k] == sort);
            }
            if grammar.comment_sorts@[c as int] == sort {
                assert(t[c as int] == sort);
            }
        }
        if grammar.comment_sorts[c] == sort {
            is_comment = true;
        }
        c = c + 1;
    }
    assert(grammar.comment_sorts@.take(grammar.comment_sorts@.len() as int) == grammar.comment_sorts@);
    let mut given = fields;
    if is_comment {
        if given.len() > 1 {
            return Err(NodeError::CommentTooManyFields);
        }
        let mut args: Vec<(u16, bool, P)> = Vec::new();
        if given.len() == 1 {
            let content = "content";
            proof {
                reveal_strlit("content");
                assert(content@ =~= seq!['c', 'o', 'n', 't', 'e', 'n', 't']);
            }
            let is_content = str_eq(given[0].0.as_str(), content);
            let ghost f = given@;
            assert(is_content <==> f[0].0@ == seq!['c', 'o', 'n', 't', 'e', 'n', 't']);
            assert(content_field(f) == (if is_content { Some(0int) } else { None::<int> })) by {
                assert(f.drop_first().len() == 0);
                assert(content_field(f.drop_first()) is None);
            }
            if is_content {
                let (_, pattern) = given.remove(0);
                args.push((COMMENT_CONTENT_FIELD_ID, false, pattern));
                assert(args@ =~= seq![(COMMENT_CONTENT_FIELD_ID, false, f[0].1)]);
            }
        }
        return Ok(AstNodePattern { sort, args });
    }
    let node_fields = &grammar.node_types[sort as usize];
    let ghost all = given@;
    let ghost g = *grammar;
    let mut args: Vec<(u16, bool, P)> = Vec::new();
    let mut k: usize = 0;
    let count = given.len();
    let mut rest = given;
    while rest.len() > 0
        invariant
            g == *grammar,
            all == fields@,
            all.len() == count,
            lookup_id(g.node_kinds@, name@) == Some(sort),
            sort != 0,
            !g.comment_sorts@.contains(sort),
            sort < g.node_types@.len(),
            node_fields@ == g.node_types@[sort as int]@,
            k + rest@.len() == all.len(),
            rest@ == all.skip(k as int),
            field_args(g, name@, node_fields@, all.take(k as int)) == NodeOutcome::Built(0, args@),
        decreases rest@.len(),
    {
        let (field_name, pattern) = rest.remove(0);
        let ghost entry = all[k as int];
        assert(all.take(k + 1).drop_last() == all.take(k as int));
        assert(all.take(k + 1).last() == entry);
        assert(rest@ == all.skip(k + 1));
        let field_id = match lookup_id_exec(&grammar.field_ids, field_name.as_str()) {
            Some(id) => id,
            None => {
                proof {
                    assert(entry.0 == field_name);
                    assert(field_args(g, name@, node_fields@, all.take(k + 1)) is InvalidField);
                    lemma_field_args_error_persists(g, name@, node_fields@, all, k as int + 1);
                    assert(node_outcome(g, name@, all) == field_args(g, name@, node_fields@, all));
                }
                let err = NodeError::InvalidField {
                    field: field_name,
                    node: name.to_owned(),
                    valid_fields: field_names(node_fields),
                };
                return Err(err);
            },
        };
        let index = match find_field_exec(node_fields, field_id) {
            Some(index) => index,
            None => {
                proof {
                    lemma_field_args_error_persists(g, name@, node_fields@, all, k as int + 1);
                }
                return Err(NodeError::FieldNotFound { field: field_name, node: name.to_owned() });
            },
        };
        args.push((field_id, node_fields[index].multiple, pattern));
        k = k + 1;
    }
    assert(all.take(k as int) == all);
    if has_duplicate_exec(&args) {
        return Err(NodeError::DuplicateField);
    }
    Ok(AstNodePattern { sort, args })
}

/// Once a field fails, the outcome for every longer prefix is that failure.
proof fn lemma_field_args_error_persists<P>(
    g: Grammar,
    node_name: Seq<char>,
    node_fields: Seq<FieldInfo>,
    all: Seq<(String, P)>,
    k: int,
)
    requires
        0 < k <= all.len(),
        !(field_args(g, node_name, node_fields, all.take(k)) is Built),
    ensures
        field_args(g, node_name, node_fields, all) == field_args(g, node_name, node_fields, all.take(k)),
    decreases all.len() - k,
{
    if k < all.len() {
        assert(all.take(k + 1).drop_last() == all.take(k));
        lemma_field_args_error_persists(g, node_name, node_fields, all, k + 1);
    } else {
        assert(all.take(k) == all);
    }
}


/// The strings joined with `sep` between each two.
pub open spec fn join_views(s: Seq<Seq<char>>, sep: Seq<char>) -> Seq<char>
    decreases s.len(),
{
    if s.len() == 0 {
        Seq::empty()
    } else if s.len() == 1 {
        s[0]
    } else {
        join_views(s.drop_last(), sep) + sep + s.last()
    }
}

/// Joins the strings with `sep` between each two.
pub fn join_strings(parts: &Vec<String>, sep: &str) -> (r: String)
    ensures
        r@ == join_views(string_views(parts@), sep@),
{
    let mut r = String::new();
    let mut i: usize = 0;
    while i < parts.len()
        invariant
            0 <= i <= parts@.len(),
            r@ == join_views(string_views(parts@.take(i as int)), sep@),
        decreases parts@.len() - i,
    {
        let ghost before = r@;
        if i > 0 {
            r.append(sep);
        }
        r.append(parts[i].as_str());
        proof {
            let t = string_views(parts@.take(i + 1));
            assert(t.drop_last() =~= string_views(parts@.take(i as int)));
            assert(t.last() == parts@[i as int]@);
            if i == 0 {
                assert(r@ =~= t[0]);
            }
        }
        i = i + 1;
    }
    assert(parts@.take(parts@.len() as int) =~= parts@);
    r
}

/// The message a node error is reported with.
pub open spec fn node_error_message(e: NodeError) -> Seq<char> {
    match e {
        NodeError::InvalidNodeType { name } => "invalid node type: "@ + name@,
        NodeError::CommentTooManyFields => "comment node cannot have more than one field"@,
        NodeError::InvalidField { field, node, valid_fields } => {
            let names = join_views(string_views(valid_fields@), ", "@);
            if names.len() == 0 {
                "invalid field `"@ + field@ + "` for AST node `"@ + node@ + "`. `"@ + node@
                    + "` does not expose any fields."@
            } else {
                "invalid field `"@ + field@ + "` for AST node `"@ + node@ + "`, valid fields are: "@
                    + names
            }
        },
        NodeError::FieldNotFound { field, node } => "field "@ + field@ + " not found in node type "@
            + node@,
        NodeError::DuplicateField => "duplicate field in node"@,
    }
}

impl NodeError {
    /// The message the error is reported with.
    pub fn message(&self) -> (m: String)
        ensures
            m@ == node_error_message(*self),
    {
        match self {
            NodeError::InvalidNodeType { name } => {
                let mut m = "invalid node type: ".to_owned();
                m.append(name.as_str());
                m
            },
            NodeError::CommentTooManyFields => "comment node cannot have more than one field".to_owned(),
            NodeError::InvalidField { field, node, valid_fields } => {
                let names = join_strings(valid_fields, ", ");
                let mut m = "invalid field `".to_owned();
                m.append(field.as_str());
                m.append("` for AST node `");
                m.append(node.as_str());
                if names.as_str().unicode_len() == 0 {
                    m.append("`. `");
                    m.append(node.as_str());
                    m.append("` does not expose any fields.");
                } else {
                    m.append("`, valid fields are: ");
                    m.append(names.as_str());
                }
                m
            },
            NodeError::FieldNotFound { field, node } => {
                let mut m = "field ".to_owned();
                m.append(field.as_str());
                m.append(" not found in node type ");
                m.append(node.as_str());
                m
            },
            NodeError::DuplicateField => "duplicate field in node".to_owned(),
        }
    }
}

} // verus!
