use crate::node_builder::FieldInfo;
use crate::smart_insert::{byte_slice, slice_ok, text_between};
use vstd::utf8::decode_utf8;
use vstd::prelude::*;
use vstd::string::StringSliceAdditionalSpecFns;

verus! {

/// A row and column in a source file, both counted from zero.
#[derive(Clone, Copy, Debug, PartialEq, Eq)]
pub struct Position {
    pub row: u32,
    pub column: u32,
}

/// A syntax tree node as the JSON conversion reads it: its kind (name and id),
/// whether it is an error node, its byte offsets and positions, and its children.
#[derive(Debug)]
pub struct SyntaxNode {
    pub kind: String,
    pub kind_id: u16,
    pub is_error: bool,
    pub start_byte: u32,
    pub end_byte: u32,
    pub start_position: Position,
    pub end_position: Position,
    pub children: Vec<SyntaxChildNode>,
}

/// A child of a syntax node, with the field it fills, if any.
#[derive(Debug)]
pub struct SyntaxChildNode {
    pub field_id: Option<u16>,
    pub node: SyntaxNode,
}

/// A JSON value.
#[derive(Debug)]
pub enum JsonValue {
    String(String),
    Number(u64),
    Array(Vec<JsonValue>),
    Object(Vec<(String, JsonValue)>),
}

/// What a JSON value holds.
pub enum JsonView {
    String(Seq<char>),
    Number(nat),
    Array(Seq<JsonView>),
    Object(Seq<(Seq<char>, JsonView)>),
}

broadcast use vstd::std_specs::vec::axiom_vec_index_decreases;

pub open spec fn json_view(v: JsonValue) -> JsonView
    decreases v,
{
    match v {
        JsonValue::String(s) => JsonView::String(s@),
        JsonValue::Number(n) => JsonView::Number(n as nat),
        JsonValue::Array(items) => JsonView::Array(
            Seq::new(
                items@.len(),
                |i: int|
                    if 0 <= i < items@.len() {
                        json_view(items[i])
                    } else {
                        JsonView::Number(0)
                    },
            ),
        ),
        JsonValue::Object(entries) => JsonView::Object(
            Seq::new(
                entries@.len(),
                |i: int|
                    if 0 <= i < entries@.len() {
                        (entries[i].0@, json_view(entries[i].1))
                    } else {
                        (Seq::empty(), JsonView::Number(0))
                    },
            ),
        ),
    }
}

/// The views of a list of JSON values.
pub open spec fn json_views(s: Seq<JsonValue>) -> Seq<JsonView> {
    Seq::new(s.len(), |i: int| json_view(s[i]))
}

/// The first index of `key` in an object's entries.
pub open spec fn key_index(obj: Seq<(Seq<char>, JsonView)>, key: Seq<char>, i: int) -> Option<int>
    decreases obj.len() - i,
{
    if i < 0 || i >= obj.len() {
        None
    } else if obj[i].0 == key {
        Some(i)
    } else {
        key_index(obj, key, i + 1)
    }
}

/// An object's entries after setting `key` to `value`: the entry for `key`
/// is replaced in place, or a new entry is added at the end.
pub open spec fn object_set(obj: Seq<(Seq<char>, JsonView)>, key: Seq<char>, value: JsonView) -> Seq<
    (Seq<char>, JsonView),
> {
    match key_index(obj, key, 0) {
        Some(i) => obj.update(i, (key, value)),
        None => obj.push((key, value)),
    }
}

/// The JSON views of the children (from index `i` on) that fill field `id`.
pub open spec fn select_field(
    field_ids: Seq<Option<u16>>,
    child_json: Seq<JsonView>,
    id: u16,
    i: int,
) -> Seq<JsonView>
    decreases field_ids.len() - i,
{
    if i < 0 || i >= field_ids.len() {
        Seq::empty()
    } else {
        let rest = select_field(field_ids, child_json, id, i + 1);
        if field_ids[i] == Some(id) {
            seq![child_json[i]] + rest
        } else {
            rest
        }
    }
}

/// Some field of `fields` has the id `field_id` names.
pub open spec fn in_some_field(fields: Seq<FieldInfo>, field_id: Option<u16>) -> bool {
    exists|k: int| 0 <= k < fields.len() && field_id == Some((#[trigger] fields[k]).id)
}

/// The JSON views of the children (from index `i` on) that fill none of `fields`.
pub open spec fn select_unprocessed(
    fields: Seq<FieldInfo>,
    field_ids: Seq<Option<u16>>,
    child_json: Seq<JsonView>,
    i: int,
) -> Seq<JsonView>
    decreases field_ids.len() - i,
{
    if i < 0 || i >= field_ids.len() {
        Seq::empty()
    } else {
        let rest = select_unprocessed(fields, field_ids, child_json, i + 1);
        if !in_some_field(fields, field_ids[i]) {
            seq![child_json[i]] + rest
        } else {
            rest
        }
    }
}

/// The object after adding each field (from index `k` on) that has children:
/// a list field as an array, any other as its one child.
pub open spec fn add_fields(
    obj: Seq<(Seq<char>, JsonView)>,
    fields: Seq<FieldInfo>,
    field_ids: Seq<Option<u16>>,
    child_json: Seq<JsonView>,
    k: int,
) -> Seq<(Seq<char>, JsonView)>
    decreases fields.len() - k,
{
    if k < 0 || k >= fields.len() {
        obj
    } else {
        let f = fields[k];
        let kids = select_field(field_ids, child_json, f.id, 0);
        let next = if kids.len() == 0 {
            obj
        } else if f.multiple {
            object_set(obj, f.name@, JsonView::Array(kids))
        } else {
            object_set(obj, f.name@, kids[0])
        };
        add_fields(next, fields, field_ids, child_json, k + 1)
    }
}

/// The fields of a node: none for an error node, else those of its kind.
pub open spec fn fields_of(n: SyntaxNode, node_types: Seq<Vec<FieldInfo>>) -> Seq<FieldInfo> {
    if n.is_error {
        Seq::empty()
    } else {
        node_types[n.kind_id as int]@
    }
}

/// The field ids of a node's children.
pub open spec fn child_field_ids(n: SyntaxNode) -> Seq<Option<u16>> {
    Seq::new(n.children@.len(), |i: int| n.children@[i].field_id)
}

pub open spec fn position_json(p: Position) -> JsonView {
    JsonView::Object(
        seq![
            (seq!['l', 'i', 'n', 'e'], JsonView::Number(p.row as nat + 1)),
            (seq!['c', 'o', 'l', 'u', 'm', 'n'], JsonView::Number(p.column as nat + 1)),
        ],
    )
}

pub open spec fn key_sort() -> Seq<char> {
    seq!['S', 'O', 'R', 'T']
}

pub open spec fn key_range() -> Seq<char> {
    seq!['R', 'A', 'N', 'G', 'E']
}

pub open spec fn key_text() -> Seq<char> {
    seq!['T', 'E', 'X', 'T']
}

pub open spec fn key_children() -> Seq<char> {
    seq!['C', 'H', 'I', 'L', 'D', 'R', 'E', 'N']
}

/// The JSON of a syntax node, given the JSON of each of its children: its
/// kind under `SORT`, its one-based start and end under `RANGE`, its text under
/// `TEXT` when its kind has no fields, each field that has children under the
/// field's name (an array for list fields), and the children in no field
/// under `CHILDREN`.
pub open spec fn node_json_with(
    n: SyntaxNode,
    node_types: Seq<Vec<FieldInfo>>,
    src: Seq<u8>,
    child_json: Seq<JsonView>,
) -> JsonView {
    let fields = fields_of(n, node_types);
    let range = JsonView::Object(
        seq![
            (seq!['s', 't', 'a', 'r', 't'], position_json(n.start_position)),
            (seq!['e', 'n', 'd'], position_json(n.end_position)),
        ],
    );
    let obj0 = object_set(
        object_set(Seq::empty(), key_sort(), JsonView::String(n.kind@)),
        key_range(),
        range,
    );
    let obj1 = if fields.len() == 0 {
        object_set(
            obj0,
            key_text(),
            JsonView::String(text_between(src, n.start_byte as int, n.end_byte as int)),
        )
    } else {
        obj0
    };
    let obj2 = add_fields(obj1, fields, child_field_ids(n), child_json, 0);
    let unprocessed = select_unprocessed(fields, child_field_ids(n), child_json, 0);
    let obj3 = if unprocessed.len() > 0 {
        object_set(obj2, key_children(), JsonView::Array(unprocessed))
    } else {
        obj2
    };
    JsonView::Object(obj3)
}

/// The JSON of each child of `n`.
pub open spec fn children_json(n: SyntaxNode, node_types: Seq<Vec<FieldInfo>>, src: Seq<u8>) -> Seq<
    JsonView,
>
    decreases n, 0nat,
{
    Seq::new(
        n.children@.len(),
        |i: int|
            if 0 <= i < n.children@.len() {
                node_json(n.children[i].node, node_types, src)
            } else {
                JsonView::Number(0)
            },
    )
}

/// The JSON of a syntax node (see `node_json_with`), its children converted
/// the same way.
pub open spec fn node_json(n: SyntaxNode, node_types: Seq<Vec<FieldInfo>>, src: Seq<u8>) -> JsonView
    decreases n, 1nat,
{
    node_json_with(n, node_types, src, children_json(n, node_types, src))
}

/// How many children (from index `i` on) fill field `id`.
pub open spec fn count_in_field(field_ids: Seq<Option<u16>>, id: u16, i: int) -> nat
    decreases field_ids.len() - i,
{
    if i < 0 || i >= field_ids.len() {
        0
    } else {
        (if field_ids[i] == Some(id) {
            1nat
        } else {
            0nat
        }) + count_in_field(field_ids, id, i + 1)
    }
}

/// Bytes `[a, b)` of `src` are in range and, where not empty, valid UTF-8 on
/// their own: both ends on character boundaries.
pub open spec fn text_cut_ok(src: Seq<u8>, a: int, b: int) -> bool {
    &&& 0 <= a <= b <= src.len()
    &&& a < b ==> slice_ok(src, a, b)
}

/// The conversion does not panic on `n`: the kind has an entry in the node
/// types, the text of a node without fields can be cut out of the source, a
/// single-valued field has at most one child, and the same holds of every child.
pub open spec fn json_ok(n: SyntaxNode, node_types: Seq<Vec<FieldInfo>>, src: Seq<u8>) -> bool
    decreases n,
{
    &&& (!n.is_error ==> n.kind_id < node_types.len())
    &&& (fields_of(n, node_types).len() == 0 ==> text_cut_ok(src, n.start_byte as int, n.end_byte as int))
    &&& forall|k: int|
        0 <= k < fields_of(n, node_types).len() && !(#[trigger] fields_of(n, node_types)[k]).multiple
            ==> count_in_field(child_field_ids(n), fields_of(n, node_types)[k].id, 0) <= 1
    &&& forall|i: int| 0 <= i < n.children@.len() ==> json_ok(#[trigger] n.children[i].node, node_types, src)
}

/// The entries of an object, as views.
pub open spec fn entries_views(s: Seq<(String, JsonValue)>) -> Seq<(Seq<char>, JsonView)> {
    Seq::new(s.len(), |i: int| (s[i].0@, json_view(s[i].1)))
}

proof fn lemma_select_field_len(field_ids: Seq<Option<u16>>, child_json: Seq<JsonView>, id: u16, i: int)
    ensures
        select_field(field_ids, child_json, id, i).len() == count_in_field(field_ids, id, i),
    decreases field_ids.len() - i,
{
    if !(i < 0 || i >= field_ids.len()) {
        lemma_select_field_len(field_ids, child_json, id, i + 1);
    }
}

proof fn lemma_object_view(entries: Vec<(String, JsonValue)>)
    ensures
        json_view(JsonValue::Object(entries)) == JsonView::Object(entries_views(entries@)),
{
    let v = json_view(JsonValue::Object(entries));
    if let JsonView::Object(x) = v {
        assert(x =~= entries_views(entries@));
    }
}

proof fn lemma_array_view(items: Vec<JsonValue>)
    ensures
        json_view(JsonValue::Array(items)) == JsonView::Array(json_views(items@)),
{
    let v = json_view(JsonValue::Array(items));
    if let JsonView::Array(x) = v {
        assert(x =~= json_views(items@));
    }
}

fn text_json(s: &str) -> (r: JsonValue)
    ensures
        json_view(r) == JsonView::String(s@),
{
    JsonValue::String(s.to_owned())
}

fn position_to_json(p: Position) -> (r: JsonValue)
    ensures
        json_view(r) == position_json(p),
{
    let mut entries: Vec<(String, JsonValue)> = Vec::new();
    let line = "line";
    let column = "column";
    proof {
        reveal_strlit("line");
        reveal_strlit("column");
        assert(line@ =~= seq!['l', 'i', 'n', 'e']);
        assert(column@ =~= seq!['c', 'o', 'l', 'u', 'm', 'n']);
    }
    entries.push((line.to_owned(), JsonValue::Number(p.row as u64 + 1)));
    entries.push((column.to_owned(), JsonValue::Number(p.column as u64 + 1)));
    let r = JsonValue::Object(entries);
    proof {
        lemma_object_view(entries);
    }
    assert(entries_views(entries@) =~= seq![
        (seq!['l', 'i', 'n', 'e'], JsonView::Number(p.row as nat + 1)),
        (seq!['c', 'o', 'l', 'u', 'm', 'n'], JsonView::Number(p.column as nat + 1)),
    ]);
    assert(json_view(r) == JsonView::Object(entries_views(entries@)));
    r
}

/// Sets `key` to `value` in an object's entries.
fn object_set_exec(obj: &mut Vec<(String, JsonValue)>, key: String, value: JsonValue)
    ensures
        entries_views(final(obj)@) == object_set(entries_views(old(obj)@), key@, json_view(value)),
{
    let ghost before = entries_views(obj@);
    let ghost orig = obj@;
    let ghost val = json_view(value);
    let ghost kv = (key, value);
    let mut i: usize = 0;
    assert(key_index(before, key@, 0) == key_index(before, key@, 0));
    while i < obj.len()
        invariant
            before == entries_views(obj@),
            orig == obj@,
            orig == old(obj)@,
            0 <= i <= obj@.len(),
            key_index(before, key@, 0) == key_index(before, key@, i as int),
        decreases obj@.len() - i,
    {
        if crate::text::str_eq(obj[i].0.as_str(), key.as_str()) {
            let ghost k = key@;
            let ghost kv = (key, value);
            let ghost val = json_view(value);
            obj[i] = (key, value);
            assert(obj@ =~= orig.update(i as int, kv));
            assert(entries_views(obj@) =~= before.update(i as int, (k, val)));
            return;
        }
        i = i + 1;
    }
    let ghost k = key@;
    obj.push((key, value));
    assert(entries_views(obj@) =~= before.push((k, val)));
}

fn lit_string(s: &str) -> (r: String)
    ensures
        r@ == s@,
{
    s.to_owned()
}

/// Converts a syntax node to JSON: its kind under `SORT`, its one-based start
/// and end under `RANGE`, its text under `TEXT` when its kind has no fields,
/// each field that has children under the field's name (an array for list
/// fields), and the children in no field under `CHILDREN`. `node_types` gives
/// the fields of each node kind, by kind id.
pub fn tree_sitter_node_to_json(
    node: &SyntaxNode,
    source: &str,
    node_types: &Vec<Vec<FieldInfo>>,
) -> (r: JsonValue)
    requires
        json_ok(*node, node_types@, source.spec_bytes()),
    ensures
        json_view(r) == node_json(*node, node_types@, source.spec_bytes()),
    decreases node,
{
    let ghost src = source.spec_bytes();
    let ghost ids = child_field_ids(*node);
    let ghost child_json = children_json(*node, node_types@, src);
    let empty: Vec<FieldInfo> = Vec::new();
    let node_fields: &Vec<FieldInfo> = if node.is_error {
        &empty
    } else {
        &node_types[node.kind_id as usize]
    };
    assert(node_fields@ == fields_of(*node, node_types@));
    let mut obj: Vec<(String, JsonValue)> = Vec::new();
    let key_sort_s = "SORT";
    let key_range_s = "RANGE";
    let key_text_s = "TEXT";
    let key_children_s = "CHILDREN";
    let start_s = "start";
    let end_s = "end";
    proof {
        reveal_strlit("SORT");
        reveal_strlit("RANGE");
        reveal_strlit("TEXT");
        reveal_strlit("CHILDREN");
        reveal_strlit("start");
        reveal_strlit("end");
        assert(key_sort_s@ =~= key_sort());
        assert(key_range_s@ =~= key_range());
        assert(key_text_s@ =~= key_text());
        assert(key_children_s@ =~= key_children());
        assert(start_s@ =~= seq!['s', 't', 'a', 'r', 't']);
        assert(end_s@ =~= seq!['e', 'n', 'd']);
    }
    assert(entries_views(obj@) =~= Seq::<(Seq<char>, JsonView)>::empty());
    object_set_exec(&mut obj, lit_string(key_sort_s), JsonValue::String(node.kind.clone()));
    let mut range_entries: Vec<(String, JsonValue)> = Vec::new();
    range_entries.push((lit_string(start_s), position_to_json(node.start_position)));
    range_entries.push((lit_string(end_s), position_to_json(node.end_position)));
    let range = JsonValue::Object(range_entries);
    proof {
        lemma_object_view(range_entries);
    }
    assert(json_view(range) == JsonView::Object(
        seq![
            (seq!['s', 't', 'a', 'r', 't'], position_json(node.start_position)),
            (seq!['e', 'n', 'd'], position_json(node.end_position)),
        ],
    )) by {
        assert(entries_views(range_entries@) =~= seq![
            (seq!['s', 't', 'a', 'r', 't'], position_json(node.start_position)),
            (seq!['e', 'n', 'd'], position_json(node.end_position)),
        ]);
    }
    object_set_exec(&mut obj, lit_string(key_range_s), range);
    if node_fields.len() == 0 {
        if node.start_byte < node.end_byte {
            let text = byte_slice(source, node.start_byte as usize, node.end_byte as usize);
            object_set_exec(&mut obj, lit_string(key_text_s), text_json(text));
        } else {
            let text = "";
            proof {
                reveal_strlit("");
                assert(src.subrange(node.start_byte as int, node.end_byte as int) =~= Seq::<u8>::empty());
                assert(decode_utf8(Seq::<u8>::empty()) =~= Seq::<char>::empty());
                assert(text@ =~= Seq::<char>::empty());
                assert(text@ == text_between(src, node.start_byte as int, node.end_byte as int));
            }
            object_set_exec(&mut obj, lit_string(key_text_s), text_json(text));
        }
    }
    let ghost obj1 = entries_views(obj@);
    assert(obj1 == ({
        let range = JsonView::Object(
            seq![
                (seq!['s', 't', 'a', 'r', 't'], position_json(node.start_position)),
                (seq!['e', 'n', 'd'], position_json(node.end_position)),
            ],
        );
        let obj0 = object_set(
            object_set(Seq::empty(), key_sort(), JsonView::String(node.kind@)),
            key_range(),
            range,
        );
        if fields_of(*node, node_types@).len() == 0 {
            object_set(
                obj0,
                key_text(),
                JsonView::String(text_between(src, node.start_byte as int, node.end_byte as int)),
            )
        } else {
            obj0
        }
    }));
    let mut k: usize = 0;
    while k < node_fields.len()
        invariant
            json_ok(*node, node_types@, src),
            src == source.spec_bytes(),
            ids == child_field_ids(*node),
            node_fields@ == fields_of(*node, node_types@),
            child_json == children_json(*node, node_types@, src),
            0 <= k <= node_fields@.len(),
            add_fields(entries_views(obj@), node_fields@, ids, child_json, k as int) == add_fields(
                obj1,
                node_fields@,
                ids,
                child_json,
                0,
            ),
        decreases node_fields@.len() - k,
    {
        let f = &node_fields[k];
        let mut kids: Vec<JsonValue> = Vec::new();
        let mut i: usize = 0;
        while i < node.children.len()
            invariant
                json_ok(*node, node_types@, src),
                src == source.spec_bytes(),
                ids == child_field_ids(*node),
                child_json == children_json(*node, node_types@, src),
                0 <= i <= node.children@.len(),
                json_views(kids@) + select_field(ids, child_json, f.id, i as int) == select_field(
                    ids,
                    child_json,
                    f.id,
                    0,
                ),
            decreases node.children@.len() - i,
        {
            let matches = match node.children[i].field_id {
                Some(id) => id == f.id,
                None => false,
            };
            assert(ids[i as int] == node.children@[i as int].field_id);
            if matches {
                assert(json_ok(node.children[i as int].node, node_types@, src));
                let child = tree_sitter_node_to_json(&node.children[i].node, source, node_types);
                let ghost before = kids@;
                kids.push(child);
                assert(json_views(kids@) =~= json_views(before).push(child_json[i as int]));
                assert(json_views(kids@) + select_field(ids, child_json, f.id, i + 1) =~= json_views(
                    before,
                ) + select_field(ids, child_json, f.id, i as int));
            }
            i = i + 1;
        }
        assert(select_field(ids, child_json, f.id, i as int) == Seq::<JsonView>::empty());
        assert(json_views(kids@) =~= select_field(ids, child_json, f.id, 0));
        if kids.len() > 0 {
            let value = if f.multiple {
                let v = JsonValue::Array(kids);
                proof {
                    lemma_array_view(kids);
                }
                v
            } else {
                proof {
                    lemma_select_field_len(ids, child_json, f.id, 0);
                    assert(node_fields@[k as int] == *f);
                }
                let v = kids.remove(0);
                v
            };
            object_set_exec(&mut obj, f.name.clone(), value);
        }
        k = k + 1;
    }
    assert(entries_views(obj@) == add_fields(obj1, node_fields@, ids, child_json, 0));
    let ghost obj2 = entries_views(obj@);
    let mut unprocessed: Vec<JsonValue> = Vec::new();
    let mut i: usize = 0;
    while i < node.children.len()
        invariant
            json_ok(*node, node_types@, src),
            src == source.spec_bytes(),
            ids == child_field_ids(*node),
            node_fields@ == fields_of(*node, node_types@),
            child_json == children_json(*node, node_types@, src),
            0 <= i <= node.children@.len(),
            json_views(unprocessed@) + select_unprocessed(node_fields@, ids, child_json, i as int)
                == select_unprocessed(node_fields@, ids, child_json, 0),
        decreases node.children@.len() - i,
    {
        let mut processed = false;
        let mut k: usize = 0;
        while k < node_fields.len()
            invariant
                0 <= k <= node_fields@.len(),
                i < node.children@.len(),
                processed == exists|j: int|
                    0 <= j < k && node.children@[i as int].field_id == Some(
                        (#[trigger] node_fields@[j]).id,
                    ),
            decreases node_fields@.len() - k,
        {
            let hit = match node.children[i].field_id {
                Some(id) => id == node_fields[k].id,
                None => false,
            };
            if hit {
                processed = true;
            }
            k = k + 1;
        }
        assert(ids[i as int] == node.children@[i as int].field_id);
        assert(processed == in_some_field(node_fields@, ids[i as int]));
        if !processed {
            assert(json_ok(node.children[i as int].node, node_types@, src));
            let child = tree_sitter_node_to_json(&node.children[i].node, source, node_types);
            let ghost before = unprocessed@;
            unprocessed.push(child);
            assert(json_views(unprocessed@) =~= json_views(before).push(child_json[i as int]));
            assert(json_views(unprocessed@) + select_unprocessed(node_fields@, ids, child_json, i + 1)
                =~= json_views(before) + select_unprocessed(node_fields@, ids, child_json, i as int));
        }
        i = i + 1;
    }
    assert(select_unprocessed(node_fields@, ids, child_json, i as int) == Seq::<JsonView>::empty());
    assert(json_views(unprocessed@) =~= select_unprocessed(node_fields@, ids, child_json, 0));
    if unprocessed.len() > 0 {
        let v = JsonValue::Array(unprocessed);
        proof {
            lemma_array_view(unprocessed);
        }
        object_set_exec(&mut obj, lit_string(key_children_s), v);
    }
    let r = JsonValue::Object(obj);
    proof {
        lemma_object_view(obj);
        assert(json_view(r) == node_json_with(*node, node_types@, src, child_json));
    }
    r
}


fn text_cut_ok_exec(source: &str, a: u32, b: u32) -> (r: bool)
    ensures
        r == text_cut_ok(source.spec_bytes(), a as int, b as int),
{
    let len = source.as_bytes().len();
    let a = a as usize;
    let b = b as usize;
    a <= b && b <= len && (a == b || (source.is_char_boundary(a) && source.is_char_boundary(b)))
}

/// At most one child of `node` fills field `id`.
fn at_most_one_in_field(node: &SyntaxNode, id: u16) -> (r: bool)
    ensures
        r == (count_in_field(child_field_ids(*node), id, 0) <= 1),
{
    let ghost ids = child_field_ids(*node);
    let n = node.children.len();
    let mut c: usize = 0;
    let mut i: usize = n;
    while i > 0
        invariant
            n == node.children@.len(),
            ids == child_field_ids(*node),
            0 <= i <= node.children@.len(),
            c == count_in_field(ids, id, i as int),
            c <= node.children@.len() - i,
        decreases i,
    {
        i = i - 1;
        assert(ids[i as int] == node.children@[i as int].field_id);
        let hit = match node.children[i].field_id {
            Some(f) => f == id,
            None => false,
        };
        if hit {
            c = c + 1;
        }
    }
    c <= 1
}

/// Whether `tree_sitter_node_to_json` can convert `node`: each kind has an
/// entry in `node_types`, the text of each node without fields can be cut
/// out of `source`, and no single-valued field has several children.
pub fn json_convertible(node: &SyntaxNode, source: &str, node_types: &Vec<Vec<FieldInfo>>) -> (r: bool)
    ensures
        r == json_ok(*node, node_types@, source.spec_bytes()),
    decreases node,
{
    let ghost src = source.spec_bytes();
    if !node.is_error && node.kind_id as usize >= node_types.len() {
        return false;
    }
    let empty: Vec<FieldInfo> = Vec::new();
    let node_fields: &Vec<FieldInfo> = if node.is_error {
        &empty
    } else {
        &node_types[node.kind_id as usize]
    };
    assert(node_fields@ == fields_of(*node, node_types@));
    if node_fields.len() == 0 && !text_cut_ok_exec(source, node.start_byte, node.end_byte) {
        return false;
    }
    let mut k: usize = 0;
    while k < node_fields.len()
        invariant
            node_fields@ == fields_of(*node, node_types@),
            0 <= k <= node_fields@.len(),
            forall|j: int|
                0 <= j < k && !(#[trigger] node_fields@[j]).multiple ==> count_in_field(
                    child_field_ids(*node),
                    node_fields@[j].id,
                    0,
                ) <= 1,
        decreases node_fields@.len() - k,
    {
        if !node_fields[k].multiple && !at_most_one_in_field(node, node_fields[k].id) {
            assert(fields_of(*node, node_types@)[k as int] == node_fields@[k as int]);
            return false;
        }
        k = k + 1;
    }
    let mut i: usize = 0;
    while i < node.children.len()
        invariant
            src == source.spec_bytes(),
            0 <= i <= node.children@.len(),
            forall|j: int| 0 <= j < i ==> json_ok(#[trigger] node.children[j].node, node_types@, src),
        decreases node.children@.len() - i,
    {
        if !json_convertible(&node.children[i].node, source, node_types) {
            assert(!json_ok(node.children[i as int].node, node_types@, src));
            return false;
        }
        i = i + 1;
    }
    true
}

/// The value under `key` in an object's entries: that of its first entry
/// with that key.
pub open spec fn obj_lookup(obj: Seq<(Seq<char>, JsonView)>, key: Seq<char>) -> Option<JsonView> {
    match key_index(obj, key, 0) {
        Some(i) => Some(obj[i].1),
        None => None,
    }
}

/// The value under `key` of a JSON object (`None` for any other value).
pub open spec fn json_get(v: JsonView, key: Seq<char>) -> Option<JsonView> {
    match v {
        JsonView::Object(obj) => obj_lookup(obj, key),
        _ => None,
    }
}

proof fn lemma_key_index(obj: Seq<(Seq<char>, JsonView)>, key: Seq<char>, i: int)
    requires
        0 <= i,
    ensures
        match key_index(obj, key, i) {
            Some(j) => i <= j < obj.len() && obj[j].0 == key && forall|m: int|
                i <= m < j ==> #[trigger] obj[m].0 != key,
            None => forall|m: int| i <= m < obj.len() ==> #[trigger] obj[m].0 != key,
        },
    decreases obj.len() - i,
{
    if i < obj.len() && obj[i].0 != key {
        lemma_key_index(obj, key, i + 1);
    }
}

proof fn lemma_key_index_first(obj: Seq<(Seq<char>, JsonView)>, key: Seq<char>, i: int, j: int)
    requires
        0 <= i <= j < obj.len(),
        obj[j].0 == key,
        forall|m: int| i <= m < j ==> #[trigger] obj[m].0 != key,
    ensures
        key_index(obj, key, i) == Some(j),
    decreases j - i,
{
    if i < j {
        lemma_key_index_first(obj, key, i + 1, j);
    }
}

proof fn lemma_key_index_none(obj: Seq<(Seq<char>, JsonView)>, key: Seq<char>, i: int)
    requires
        0 <= i,
        forall|m: int| i <= m < obj.len() ==> #[trigger] obj[m].0 != key,
    ensures
        key_index(obj, key, i) is None,
    decreases obj.len() - i,
{
    if i < obj.len() {
        lemma_key_index_none(obj, key, i + 1);
    }
}

/// Setting `key` makes it hold the value set; other keys keep their values.
proof fn lemma_object_set_lookup(
    obj: Seq<(Seq<char>, JsonView)>,
    key: Seq<char>,
    value: JsonView,
    other: Seq<char>,
)
    ensures
        obj_lookup(object_set(obj, key, value), key) == Some(value),
        other != key ==> obj_lookup(object_set(obj, key, value), other) == obj_lookup(obj, other),
{
    lemma_key_index(obj, key, 0);
    lemma_key_index(obj, other, 0);
    let o2 = object_set(obj, key, value);
    match key_index(obj, key, 0) {
        Some(j) => {
            assert forall|m: int| 0 <= m < j implies #[trigger] o2[m].0 != key by {
                assert(o2[m] == obj[m]);
            }
            lemma_key_index_first(o2, key, 0, j);
            if other != key {
                match key_index(obj, other, 0) {
                    Some(q) => {
                        assert forall|m: int| 0 <= m < q implies #[trigger] o2[m].0 != other by {
                            if m != j {
                                assert(o2[m] == obj[m]);
                            }
                        }
                        assert(q != j);
                        assert(o2[q] == obj[q]);
                        lemma_key_index_first(o2, other, 0, q);
                    },
                    None => {
                        assert forall|m: int| 0 <= m < o2.len() implies #[trigger] o2[m].0 != other by {
                            if m != j {
                                assert(o2[m] == obj[m]);
                            }
                        }
                        lemma_key_index_none(o2, other, 0);
                    },
                }
            }
        },
        None => {
            assert forall|m: int| 0 <= m < obj.len() implies #[trigger] o2[m].0 != key by {
                assert(o2[m] == obj[m]);
            }
            lemma_key_index_first(o2, key, 0, obj.len() as int);
            if other != key {
                match key_index(obj, other, 0) {
                    Some(q) => {
                        assert forall|m: int| 0 <= m < q implies #[trigger] o2[m].0 != other by {
                            assert(o2[m] == obj[m]);
                        }
                        assert(o2[q] == obj[q]);
                        lemma_key_index_first(o2, other, 0, q);
                    },
                    None => {
                        assert forall|m: int| 0 <= m < o2.len() implies #[trigger] o2[m].0 != other by {
                            if m < obj.len() {
                                assert(o2[m] == obj[m]);
                            }
                        }
                        lemma_key_index_none(o2, other, 0);
                    },
                }
            }
        },
    }
}

proof fn lemma_add_fields_keeps(
    obj: Seq<(Seq<char>, JsonView)>,
    fields: Seq<FieldInfo>,
    field_ids: Seq<Option<u16>>,
    child_json: Seq<JsonView>,
    k: int,
    key: Seq<char>,
)
    requires
        0 <= k,
        forall|m: int| k <= m < fields.len() ==> (#[trigger] fields[m]).name@ != key,
    ensures
        obj_lookup(add_fields(obj, fields, field_ids, child_json, k), key) == obj_lookup(obj, key),
    decreases fields.len() - k,
{
    if k < fields.len() {
        let f = fields[k];
        let kids = select_field(field_ids, child_json, f.id, 0);
        let next = if kids.len() == 0 {
            obj
        } else if f.multiple {
            object_set(obj, f.name@, JsonView::Array(kids))
        } else {
            object_set(obj, f.name@, kids[0])
        };
        if kids.len() > 0 {
            if f.multiple {
                lemma_object_set_lookup(obj, f.name@, JsonView::Array(kids), key);
            } else {
                lemma_object_set_lookup(obj, f.name@, kids[0], key);
            }
        }
        lemma_add_fields_keeps(next, fields, field_ids, child_json, k + 1, key);
    }
}

proof fn lemma_add_fields_list(
    obj: Seq<(Seq<char>, JsonView)>,
    fields: Seq<FieldInfo>,
    field_ids: Seq<Option<u16>>,
    child_json: Seq<JsonView>,
    k: int,
    k0: int,
)
    requires
        0 <= k <= k0 < fields.len(),
        fields[k0].multiple,
        select_field(field_ids, child_json, fields[k0].id, 0).len() > 0,
        forall|a: int, b: int|
            0 <= a < fields.len() && 0 <= b < fields.len() && a != b ==> (#[trigger] fields[a]).name@
                != (#[trigger] fields[b]).name@,
    ensures
        obj_lookup(add_fields(obj, fields, field_ids, child_json, k), fields[k0].name@) == Some(
            JsonView::Array(select_field(field_ids, child_json, fields[k0].id, 0)),
        ),
    decreases fields.len() - k,
{
    let f = fields[k];
    let kids = select_field(field_ids, child_json, f.id, 0);
    let next = if kids.len() == 0 {
        obj
    } else if f.multiple {
        object_set(obj, f.name@, JsonView::Array(kids))
    } else {
        object_set(obj, f.name@, kids[0])
    };
    if k < k0 {
        lemma_add_fields_list(next, fields, field_ids, child_json, k + 1, k0);
    } else {
        lemma_object_set_lookup(obj, f.name@, JsonView::Array(kids), f.name@);
        assert forall|m: int| k + 1 <= m < fields.len() implies (#[trigger] fields[m]).name@
            != fields[k0].name@ by {
            assert(fields[m].name@ != fields[k0].name@);
        }
        lemma_add_fields_keeps(next, fields, field_ids, child_json, k + 1, fields[k0].name@);
    }
}

/// The indices (from `i` on) of the children that fill field `id`, in order.
pub open spec fn field_positions(field_ids: Seq<Option<u16>>, id: u16, i: int) -> Seq<int>
    decreases field_ids.len() - i,
{
    if i < 0 || i >= field_ids.len() {
        Seq::empty()
    } else {
        let rest = field_positions(field_ids, id, i + 1);
        if field_ids[i] == Some(id) {
            seq![i] + rest
        } else {
            rest
        }
    }
}

proof fn lemma_field_positions(
    field_ids: Seq<Option<u16>>,
    child_json: Seq<JsonView>,
    id: u16,
    i: int,
)
    requires
        0 <= i,
    ensures
        ({
            let pos = field_positions(field_ids, id, i);
            let sel = select_field(field_ids, child_json, id, i);
            &&& sel.len() == pos.len()
            &&& forall|m: int| 0 <= m < pos.len() ==> sel[m] == child_json[#[trigger] pos[m]]
            &&& forall|m: int|
                0 <= m < pos.len() ==> i <= #[trigger] pos[m] < field_ids.len() && field_ids[pos[m]]
                    == Some(id)
            &&& forall|m1: int, m2: int| 0 <= m1 < m2 < pos.len() ==> #[trigger] pos[m1] < #[trigger] pos[m2]
            &&& forall|c: int|
                i <= c < field_ids.len() && #[trigger] field_ids[c] == Some(id) ==> pos.contains(c)
        }),
    decreases field_ids.len() - i,
{
    if i < field_ids.len() {
        lemma_field_positions(field_ids, child_json, id, i + 1);
        let rest = field_positions(field_ids, id, i + 1);
        let pos = field_positions(field_ids, id, i);
        if field_ids[i] == Some(id) {
            assert(pos == seq![i] + rest);
            assert forall|m: int| 0 <= m < pos.len() implies i <= #[trigger] pos[m] < field_ids.len()
                && field_ids[pos[m]] == Some(id) by {
                if m > 0 {
                    assert(pos[m] == rest[m - 1]);
                }
            }
            assert forall|m1: int, m2: int| 0 <= m1 < m2 < pos.len() implies #[trigger] pos[m1]
                < #[trigger] pos[m2] by {
                assert(pos[m2] == rest[m2 - 1]);
                if m1 > 0 {
                    assert(pos[m1] == rest[m1 - 1]);
                }
            }
            assert forall|c: int|
                i <= c < field_ids.len() && #[trigger] field_ids[c] == Some(id) implies pos.contains(c) by {
                if c == i {
                    assert(pos[0] == i);
                } else {
                    assert(rest.contains(c));
                    let m = choose|m: int| 0 <= m < rest.len() && rest[m] == c;
                    assert(pos[m + 1] == c);
                }
            }
            let sel = select_field(field_ids, child_json, id, i);
            let srest = select_field(field_ids, child_json, id, i + 1);
            assert(sel == seq![child_json[i]] + srest);
            assert forall|m: int| 0 <= m < pos.len() implies sel[m] == child_json[#[trigger] pos[m]] by {
                if m > 0 {
                    assert(pos[m] == rest[m - 1]);
                    assert(sel[m] == srest[m - 1]);
                }
            }
        } else {
            assert forall|c: int|
                i <= c < field_ids.len() && #[trigger] field_ids[c] == Some(id) implies pos.contains(c) by {
                assert(c != i);
            }
        }
    }
}

/// A list field that has children comes out as an array: for a field of the
/// node's kind that holds a list, the value under the field's name is a JSON
/// array with one element per child in that field -- the JSON of that child --
/// in the children's order, even when there is a single such child. (Field
/// names are taken to be distinct and other than `CHILDREN`.)
pub proof fn lemma_list_field_is_array(
    n: SyntaxNode,
    node_types: Seq<Vec<FieldInfo>>,
    src: Seq<u8>,
    k: int,
)
    requires
        0 <= k < fields_of(n, node_types).len(),
        fields_of(n, node_types)[k].multiple,
        exists|c: int|
            0 <= c < n.children@.len() && (#[trigger] n.children@[c]).field_id == Some(
                fields_of(n, node_types)[k].id,
            ),
        forall|a: int, b: int|
            0 <= a < fields_of(n, node_types).len() && 0 <= b < fields_of(n, node_types).len() && a
                != b ==> (#[trigger] fields_of(n, node_types)[a]).name@ != (#[trigger] fields_of(
                n,
                node_types,
            )[b]).name@,
        fields_of(n, node_types)[k].name@ != key_children(),
    ensures
        ({
            let f = fields_of(n, node_types)[k];
            let pos = field_positions(child_field_ids(n), f.id, 0);
            &&& forall|m: int|
                0 <= m < pos.len() ==> 0 <= #[trigger] pos[m] < n.children@.len()
                    && n.children@[pos[m]].field_id == Some(f.id)
            &&& forall|m1: int, m2: int| 0 <= m1 < m2 < pos.len() ==> #[trigger] pos[m1] < #[trigger] pos[m2]
            &&& forall|c: int|
                0 <= c < n.children@.len() && (#[trigger] n.children@[c]).field_id == Some(f.id)
                    ==> pos.contains(c)
            &&& json_get(node_json(n, node_types, src), f.name@) matches Some(JsonView::Array(a)) && a.len()
                == pos.len() && forall|m: int|
                0 <= m < pos.len() ==> a[m] == node_json(n.children@[#[trigger] pos[m]].node, node_types, src)
        }),
{
    let fields = fields_of(n, node_types);
    let f = fields[k];
    let ids = child_field_ids(n);
    let cj = children_json(n, node_types, src);
    lemma_field_positions(ids, cj, f.id, 0);
    let pos = field_positions(ids, f.id, 0);
    let c = choose|c: int| 0 <= c < n.children@.len() && (#[trigger] n.children@[c]).field_id == Some(f.id);
    assert(ids[c] == Some(f.id));
    assert(pos.contains(c));
    let sel = select_field(ids, cj, f.id, 0);
    assert(sel.len() > 0);
    assert forall|c2: int|
        0 <= c2 < n.children@.len() && (#[trigger] n.children@[c2]).field_id == Some(f.id) implies pos.contains(
        c2,
    ) by {
        assert(ids[c2] == Some(f.id));
    }
    let range = JsonView::Object(
        seq![
            (seq!['s', 't', 'a', 'r', 't'], position_json(n.start_position)),
            (seq!['e', 'n', 'd'], position_json(n.end_position)),
        ],
    );
    let obj0 = object_set(
        object_set(Seq::empty(), key_sort(), JsonView::String(n.kind@)),
        key_range(),
        range,
    );
    let obj1 = if fields.len() == 0 {
        object_set(
            obj0,
            key_text(),
            JsonView::String(text_between(src, n.start_byte as int, n.end_byte as int)),
        )
    } else {
        obj0
    };
    lemma_add_fields_list(obj1, fields, ids, cj, 0, k);
    let obj2 = add_fields(obj1, fields, ids, cj, 0);
    let unprocessed = select_unprocessed(fields, ids, cj, 0);
    if unprocessed.len() > 0 {
        lemma_object_set_lookup(obj2, key_children(), JsonView::Array(unprocessed), f.name@);
    }
    assert(node_json(n, node_types, src) == node_json_with(n, node_types, src, cj));
    assert forall|m: int| 0 <= m < pos.len() implies sel[m] == node_json(
        n.children@[#[trigger] pos[m]].node,
        node_types,
        src,
    ) by {
        assert(cj[pos[m]] == node_json(n.children[pos[m]].node, node_types, src));
    }
}

} // verus!
