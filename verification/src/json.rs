//! JSON documents as plain data.
//!
//! The text is read and written by `serde_json`; everything the engine then
//! looks up in a document is looked up in [`Json`], whose contracts speak of
//! the document's [`Tree`].
use vstd::prelude::*;

use crate::float::F64;
use crate::text::same_text;

verus! {

/// The document type of `serde_json`.
#[verifier::external_type_specification]
#[verifier::external_body]
pub struct ExValue(serde_json::Value);

/// A number: what fits `u64` or `i64` is an integer.
#[derive(Clone, Copy, Debug, PartialEq, Eq, Structural)]
pub enum Number {
    PosInt(u64),
    NegInt(i64),
    Float(F64),
}

/// A JSON document. An object keeps its fields in the order in which the
/// reader hands them out: sorted by key.
#[derive(Debug)]
pub enum Json {
    Null,
    Bool(bool),
    Number(Number),
    Text(String),
    Array(Vec<Json>),
    Object(Vec<(String, Json)>),
}

/// The mathematical content of a document.
pub enum Tree {
    Null,
    Bool(bool),
    Number(Number),
    Text(Seq<char>),
    Array(Seq<Tree>),
    Object(Seq<(Seq<char>, Tree)>),
}

pub open spec fn tree(j: Json) -> Tree
    decreases j,
{
    match j {
        Json::Null => Tree::Null,
        Json::Bool(b) => Tree::Bool(b),
        Json::Number(n) => Tree::Number(n),
        Json::Text(s) => Tree::Text(s@),
        Json::Array(v) => Tree::Array(
            Seq::new(v@.len(), |i: int| if 0 <= i < v@.len() { tree(v@[i]) } else { Tree::Null }),
        ),
        Json::Object(v) => Tree::Object(
            Seq::new(
                v@.len(),
                |i: int| if 0 <= i < v@.len() { (v@[i].0@, tree(v@[i].1)) } else { (Seq::empty(), Tree::Null) },
            ),
        ),
    }
}

impl View for Json {
    type V = Tree;

    open spec fn view(&self) -> Tree {
        tree(*self)
    }
}

/// The first field named `key`.
pub open spec fn find_field(fields: Seq<(Seq<char>, Tree)>, key: Seq<char>) -> Option<Tree>
    decreases fields.len(),
{
    if fields.len() == 0 {
        None
    } else if fields[0].0 == key {
        Some(fields[0].1)
    } else {
        find_field(fields.drop_first(), key)
    }
}

/// No name comes twice.
pub open spec fn distinct_names(fields: Seq<(Seq<char>, Tree)>) -> bool {
    forall|i: int, j: int| 0 <= i < j < fields.len() ==> (#[trigger] fields[i]).0 != (#[trigger] fields[j]).0
}

impl Number {
    /// The number as a double, nearest where it is an integer.
    pub open spec fn double(self) -> F64 {
        match self {
            Number::PosInt(n) => F64::spec_of_scaled(n as int, 0),
            Number::NegInt(n) => F64::spec_of_scaled(n as int, 0),
            Number::Float(f) => f,
        }
    }

    pub fn to_f64(&self) -> (r: F64)
        ensures
            r == self.double(),
    {
        match self {
            Number::PosInt(n) => F64::from_u64(*n),
            Number::NegInt(n) => F64::from_i64(*n),
            Number::Float(f) => *f,
        }
    }
}

impl Tree {
    /// The field of an object.
    pub open spec fn field(self, key: Seq<char>) -> Option<Tree> {
        match self {
            Tree::Object(fields) => find_field(fields, key),
            _ => None,
        }
    }

    /// The element of an array.
    pub open spec fn element(self, i: int) -> Option<Tree> {
        match self {
            Tree::Array(items) => if 0 <= i < items.len() {
                Some(items[i])
            } else {
                None
            },
            _ => None,
        }
    }

    pub open spec fn text(self) -> Option<Seq<char>> {
        match self {
            Tree::Text(s) => Some(s),
            _ => None,
        }
    }

    pub open spec fn flag(self) -> Option<bool> {
        match self {
            Tree::Bool(b) => Some(b),
            _ => None,
        }
    }

    /// A number that is an unsigned integer.
    pub open spec fn count(self) -> Option<u64> {
        match self {
            Tree::Number(Number::PosInt(n)) => Some(n),
            _ => None,
        }
    }

    pub open spec fn number(self) -> Option<F64> {
        match self {
            Tree::Number(n) => Some(n.double()),
            _ => None,
        }
    }

    pub open spec fn items(self) -> Option<Seq<Tree>> {
        match self {
            Tree::Array(v) => Some(v),
            _ => None,
        }
    }

    pub open spec fn fields(self) -> Option<Seq<(Seq<char>, Tree)>> {
        match self {
            Tree::Object(v) => Some(v),
            _ => None,
        }
    }
}

/// What an optional reference shows.
pub open spec fn shown(r: Option<&Json>) -> Option<Tree> {
    match r {
        Some(j) => Some(j@),
        None => None,
    }
}

impl Json {
    /// The field of an object.
    pub fn get(&self, key: &str) -> (r: Option<&Json>)
        ensures
            shown(r) == self@.field(key@),
    {
        if let Json::Object(v) = self {
            let ghost all = self@->Object_0;
            let mut i: usize = 0;
            proof {
                assert(all.skip(0) =~= all);
            }
            while i < v.len()
                invariant
                    i <= v@.len(),
                    *self == Json::Object(*v),
                    all == self@->Object_0,
                    all.len() == v@.len(),
                    find_field(all, key@) == find_field(all.skip(i as int), key@),
                decreases v@.len() - i,
            {
                let ghost rest = all.skip(i as int);
                proof {
                    assert(rest[0] == all[i as int]);
                    assert(rest.drop_first() =~= all.skip(i + 1));
                }
                if same_text(v[i].0.as_str(), key) {
                    return Some(&v[i].1);
                }
                i = i + 1;
            }
            None
        } else {
            None
        }
    }

    /// The element of an array.
    pub fn at(&self, i: usize) -> (r: Option<&Json>)
        ensures
            shown(r) == self@.element(i as int),
    {
        match self {
            Json::Array(v) => if i < v.len() {
                Some(&v[i])
            } else {
                None
            },
            _ => None,
        }
    }

    pub fn as_str(&self) -> (r: Option<&str>)
        ensures
            r is Some <==> self@.text() is Some,
            r matches Some(s) ==> s@ == self@.text()->0,
    {
        match self {
            Json::Text(s) => Some(s.as_str()),
            _ => None,
        }
    }

    pub fn as_bool(&self) -> (r: Option<bool>)
        ensures
            r == self@.flag(),
    {
        match self {
            Json::Bool(b) => Some(*b),
            _ => None,
        }
    }

    pub fn as_u64(&self) -> (r: Option<u64>)
        ensures
            r == self@.count(),
    {
        match self {
            Json::Number(Number::PosInt(n)) => Some(*n),
            _ => None,
        }
    }

    pub fn as_f64(&self) -> (r: Option<F64>)
        ensures
            r == self@.number(),
    {
        match self {
            Json::Number(n) => Some(n.to_f64()),
            _ => None,
        }
    }

    pub fn as_array(&self) -> (r: Option<&Vec<Json>>)
        ensures
            r is Some <==> self@.items() is Some,
            r matches Some(v) ==> self@.items()->0 == v@.map_values(|j: Json| j@),
    {
        match self {
            Json::Array(v) => {
                proof {
                    assert(self@->Array_0 =~= v@.map_values(|j: Json| j@));
                }
                Some(v)
            },
            _ => None,
        }
    }

    pub fn as_object(&self) -> (r: Option<&Vec<(String, Json)>>)
        ensures
            r is Some <==> self@.fields() is Some,
            r matches Some(v) ==> self@.fields()->0 == v@.map_values(|e: (String, Json)| (e.0@, e.1@)),
    {
        match self {
            Json::Object(v) => {
                proof {
                    assert(self@->Object_0 =~= v@.map_values(|e: (String, Json)| (e.0@, e.1@)));
                }
                Some(v)
            },
            _ => None,
        }
    }
}

// --- reading -----------------------------------------------------------------------

/// One level of a document, its parts still unread.
pub enum Node {
    Null,
    Bool(bool),
    Number(Number),
    Text(String),
    Array(Vec<serde_json::Value>),
    Object(Vec<(String, serde_json::Value)>),
}

/// What a `serde_json` document holds.
pub uninterp spec fn value_tree(v: serde_json::Value) -> Tree;

/// What `serde_json::from_str` reads from a text: the document, or the message
/// of its error.
pub uninterp spec fn parsed(text: Seq<char>) -> Result<Tree, Seq<char>>;

/// What `serde_json::from_slice` reads from bytes: the document, or the
/// message of its error.
pub uninterp spec fn parsed_bytes(bytes: Seq<u8>) -> Result<Tree, Seq<char>>;

/// What `serde_json::from_slice` reads from bytes that must hold an object:
/// its fields, sorted by key, or the message of its error.
pub uninterp spec fn parsed_fields(bytes: Seq<u8>) -> Result<Seq<(Seq<char>, Tree)>, Seq<char>>;

/// What a field holds.
pub open spec fn entry_tree(e: (String, serde_json::Value)) -> (Seq<char>, Tree) {
    (e.0@, value_tree(e.1))
}

/// What a level and its parts hold.
pub open spec fn node_tree(n: Node) -> Tree {
    match n {
        Node::Null => Tree::Null,
        Node::Bool(b) => Tree::Bool(b),
        Node::Number(n) => Tree::Number(n),
        Node::Text(s) => Tree::Text(s@),
        Node::Array(v) => Tree::Array(v@.map_values(|x: serde_json::Value| value_tree(x))),
        Node::Object(v) => Tree::Object(v@.map_values(|e: (String, serde_json::Value)| entry_tree(e))),
    }
}

/// Takes a `serde_json::Value` apart by its variants; a `serde_json::Number`
/// tells its own three apart by `as_u64`, `as_i64` and `as_f64`. The parts are
/// what the value holds; a `serde_json::Map` holds each name once.
#[verifier::external_body]
pub(crate) fn expose(v: serde_json::Value) -> (r: Node)
    ensures
        node_tree(r) == value_tree(v),
        r matches Node::Object(f) ==> distinct_names(f@.map_values(|e: (String, serde_json::Value)| entry_tree(e))),
{
    match v {
        serde_json::Value::Null => Node::Null,
        serde_json::Value::Bool(b) => Node::Bool(b),
        serde_json::Value::Number(n) => Node::Number(match (n.as_u64(), n.as_i64()) {
            (Some(u), _) => Number::PosInt(u),
            (None, Some(i)) => Number::NegInt(i),
            (None, None) => Number::Float(F64(n.as_f64().unwrap().to_bits())),
        }),
        serde_json::Value::String(s) => Node::Text(s),
        serde_json::Value::Array(a) => Node::Array(a),
        serde_json::Value::Object(m) => Node::Object(m.into_iter().collect()),
    }
}

/// `serde_json::from_str` into a `Value`: succeeds or fails as named by
/// `parsed`.
#[verifier::external_body]
fn read_text(text: &str) -> (r: Result<serde_json::Value, String>)
    ensures
        r is Ok <==> parsed(text@) is Ok,
        r matches Ok(v) ==> value_tree(v) == parsed(text@)->Ok_0,
        r matches Err(e) ==> e@ == parsed(text@)->Err_0,
{
    serde_json::from_str(text).map_err(|e: serde_json::Error| e.to_string())
}

/// `serde_json::from_slice` into a `Value`: succeeds or fails as named by
/// `parsed_bytes`.
#[verifier::external_body]
fn read_bytes(bytes: &[u8]) -> (r: Result<serde_json::Value, String>)
    ensures
        r is Ok <==> parsed_bytes(bytes@) is Ok,
        r matches Ok(v) ==> value_tree(v) == parsed_bytes(bytes@)->Ok_0,
        r matches Err(e) ==> e@ == parsed_bytes(bytes@)->Err_0,
{
    serde_json::from_slice(bytes).map_err(|e: serde_json::Error| e.to_string())
}

/// `serde_json::from_slice` into a map of fields: succeeds or fails as named
/// by `parsed_fields`. A map holds each name once.
#[verifier::external_body]
pub(crate) fn read_fields(bytes: &[u8]) -> (r: Result<Vec<(String, serde_json::Value)>, String>)
    ensures
        r is Ok <==> parsed_fields(bytes@) is Ok,
        r matches Ok(v) ==> v@.map_values(|e: (String, serde_json::Value)| entry_tree(e)) == parsed_fields(
            bytes@,
        )->Ok_0,
        r matches Ok(v) ==> distinct_names(v@.map_values(|e: (String, serde_json::Value)| entry_tree(e))),
        r matches Err(e) ==> e@ == parsed_fields(bytes@)->Err_0,
{
    serde_json::from_slice(bytes).map(|m: serde_json::Map<String, serde_json::Value>| m.into_iter().collect()).map_err(
        |e: serde_json::Error| e.to_string(),
    )
}

/// Reads a JSON text.
pub fn parse(text: &str) -> (r: Result<Json, String>)
    ensures
        r is Ok <==> parsed(text@) is Ok,
        r matches Ok(j) ==> j@ == parsed(text@)->Ok_0,
        r matches Err(e) ==> e@ == parsed(text@)->Err_0,
{
    match read_text(text) {
        Ok(v) => Ok(from_value(v)),
        Err(e) => Err(e),
    }
}

/// Reads JSON from bytes.
pub fn parse_bytes(bytes: &[u8]) -> (r: Result<Json, String>)
    ensures
        r is Ok <==> parsed_bytes(bytes@) is Ok,
        r matches Ok(j) ==> j@ == parsed_bytes(bytes@)->Ok_0,
        r matches Err(e) ==> e@ == parsed_bytes(bytes@)->Err_0,
{
    match read_bytes(bytes) {
        Ok(v) => Ok(from_value(v)),
        Err(e) => Err(e),
    }
}

/// Reads every level of a document.
fn from_value(v: serde_json::Value) -> (r: Json)
    ensures
        r@ == value_tree(v),
    decreases value_tree(v),
{
    match expose(v) {
        Node::Null => Json::Null,
        Node::Bool(b) => Json::Bool(b),
        Node::Number(n) => Json::Number(n),
        Node::Text(s) => Json::Text(s),
        Node::Array(a) => {
            let ghost all = a@;
            let mut out: Vec<Json> = Vec::new();
            for x in it: a
                invariant
                    it.seq() == all,
                    value_tree(v) == Tree::Array(all.map_values(|x: serde_json::Value| value_tree(x))),
                    out@.len() == it.index(),
                    forall|k: int| 0 <= k < out@.len() ==> (#[trigger] out@[k])@ == value_tree(all[k]),
            {
                assert(x == all[it.index()]);
                assert(value_tree(x) == all.map_values(|x: serde_json::Value| value_tree(x))[it.index()]);
                proof {
                    let s = value_tree(v)->Array_0;
                    assert(decreases_to!(value_tree(v) => s));
                    assert(decreases_to!(s => s[it.index()]));
                }
                out.push(from_value(x));
            }
            assert(tree(Json::Array(out)) == value_tree(v)) by {
                assert(tree(Json::Array(out))->Array_0 =~= all.map_values(|x: serde_json::Value| value_tree(x)));
            }
            Json::Array(out)
        },
        Node::Object(a) => {
            let ghost all = a@;
            let ghost entry = |e: (String, serde_json::Value)| entry_tree(e);
            let mut out: Vec<(String, Json)> = Vec::new();
            for x in it: a
                invariant
                    it.seq() == all,
                    entry == (|e: (String, serde_json::Value)| entry_tree(e)),
                    value_tree(v) == Tree::Object(all.map_values(entry)),
                    out@.len() == it.index(),
                    forall|k: int| 0 <= k < out@.len() ==> (#[trigger] out@[k]).0@ == all[k].0@
                        && out@[k].1@ == value_tree(all[k].1),
            {
                assert(x == all[it.index()]);
                proof {
                    let s = value_tree(v)->Object_0;
                    assert(s[it.index()] == entry(x));
                    assert(decreases_to!(value_tree(v) => s));
                    assert(decreases_to!(s => s[it.index()]));
                    assert(decreases_to!(s[it.index()] => s[it.index()].1));
                }
                let (k, w) = x;
                out.push((k, from_value(w)));
            }
            assert(tree(Json::Object(out)) == value_tree(v)) by {
                assert(tree(Json::Object(out))->Object_0 =~= all.map_values(entry));
            }
            Json::Object(out)
        },
    }
}


// --- writing -----------------------------------------------------------------------

/// Fields by name; where a name comes twice, the later one counts.
pub open spec fn by_name(fields: Seq<(Seq<char>, Tree)>) -> Map<Seq<char>, Tree>
    decreases fields.len(),
{
    if fields.len() == 0 {
        Map::empty()
    } else {
        by_name(fields.drop_last()).insert(fields.last().0, fields.last().1)
    }
}

/// A string, an unsigned integer or a list of unsigned integers.
pub open spec fn is_plain(t: Tree) -> bool {
    match t {
        Tree::Text(_) => true,
        Tree::Number(Number::PosInt(_)) => true,
        Tree::Array(v) => forall|i: int| 0 <= i < v.len() ==> (#[trigger] v[i]).count() is Some,
        _ => false,
    }
}

/// An object of objects of plain values.
pub open spec fn is_record_table(fields: Seq<(Seq<char>, Tree)>) -> bool {
    forall|i: int|
        0 <= i < fields.len() ==> (#[trigger] fields[i]).1.fields() is Some && forall|k: int|
            0 <= k < fields[i].1.fields()->0.len() ==> is_plain((#[trigger] fields[i].1.fields()->0[k]).1)
}

/// The bytes that `serde_json::to_vec` writes for a document.
pub uninterp spec fn written(t: Tree) -> Seq<u8>;

/// `serde_json::Value::from` a string.
#[verifier::external_body]
fn text_value(s: String) -> (r: serde_json::Value)
    ensures
        value_tree(r) == Tree::Text(s@),
{
    serde_json::Value::from(s)
}

/// `serde_json::Value::from` a list of unsigned integers.
#[verifier::external_body]
fn counts_value(v: Vec<u64>) -> (r: serde_json::Value)
    ensures
        value_tree(r) == Tree::Array(v@.map_values(|n: u64| Tree::Number(Number::PosInt(n)))),
{
    serde_json::Value::from(v)
}

/// `serde_json::Value::Object` of a `serde_json::Map` collected from fields:
/// the map holds each name once, with its last value.
#[verifier::external_body]
fn object_value(v: Vec<(String, serde_json::Value)>) -> (r: serde_json::Value)
    ensures
        value_tree(r) is Object,
        distinct_names(value_tree(r)->Object_0),
        by_name(value_tree(r)->Object_0) == by_name(
            v@.map_values(|e: (String, serde_json::Value)| entry_tree(e)),
        ),
{
    serde_json::Value::Object(v.into_iter().collect())
}

/// `serde_json::to_vec`, which writes something for every document. What it
/// writes for a table of records reads back, by `serde_json::from_slice` into
/// a map, as the same table.
#[verifier::external_body]
fn value_bytes(v: &serde_json::Value) -> (r: Vec<u8>)
    ensures
        r@ == written(value_tree(*v)),
        r@.len() > 0,
        value_tree(*v) is Object && is_record_table(value_tree(*v)->Object_0) ==> parsed_fields(r@) is Ok
            && parsed_fields(r@)->Ok_0 == value_tree(*v)->Object_0,
{
    serde_json::to_vec(v).unwrap()
}

/// Where names are distinct, looking a field up by name finds it.
pub proof fn found_by_name(fields: Seq<(Seq<char>, Tree)>, key: Seq<char>)
    requires
        distinct_names(fields),
    ensures
        by_name(fields).contains_key(key) <==> find_field(fields, key) is Some,
        by_name(fields).contains_key(key) ==> find_field(fields, key) == Some(by_name(fields)[key]),
        by_name(fields).contains_key(key) <==> exists|i: int| 0 <= i < fields.len() && (#[trigger] fields[i]).0 == key,
        forall|i: int|
            0 <= i < fields.len() && (#[trigger] fields[i]).0 == key ==> find_field(fields, key) == Some(fields[i].1),
    decreases fields.len(),
{
    if fields.len() > 0 {
        let init = fields.drop_last();
        let last = fields.last();
        assert forall|i: int, j: int| 0 <= i < j < init.len() implies (#[trigger] init[i]).0 != (#[trigger] init[j]).0 by {
            assert(fields[i].0 != fields[j].0);
        }
        found_by_name(init, key);
        lemma_find_in_push(init, last, key);
        assert(init.push(last) =~= fields);
        if last.0 == key {
            assert(fields[fields.len() - 1].0 == key);
            assert forall|i: int| 0 <= i < init.len() implies (#[trigger] init[i]).0 != key by {
                assert(fields[i].0 != fields[fields.len() - 1].0);
            }
        }
        if exists|i: int| 0 <= i < init.len() && (#[trigger] init[i]).0 == key {
            let i = choose|i: int| 0 <= i < init.len() && (#[trigger] init[i]).0 == key;
            assert(fields[i].0 == key);
        }
        assert forall|i: int| 0 <= i < fields.len() && (#[trigger] fields[i]).0 == key implies find_field(fields, key)
            == Some(fields[i].1) by {
            if i < init.len() {
                assert(init[i].0 == key);
            }
        }
        if exists|i: int| 0 <= i < fields.len() && (#[trigger] fields[i]).0 == key {
            let i = choose|i: int| 0 <= i < fields.len() && (#[trigger] fields[i]).0 == key;
            if i < init.len() {
                assert(init[i].0 == key);
            }
        }
    }
}

/// A field appended is found where no earlier one has its name.
proof fn lemma_find_in_push(fields: Seq<(Seq<char>, Tree)>, last: (Seq<char>, Tree), key: Seq<char>)
    ensures
        find_field(fields.push(last), key) == (match find_field(fields, key) {
            Some(t) => Some(t),
            None => if last.0 == key {
                Some(last.1)
            } else {
                None
            },
        }),
    decreases fields.len(),
{
    let all = fields.push(last);
    if fields.len() == 0 {
        assert(all.drop_first() =~= Seq::empty());
    } else {
        assert(all[0] == fields[0]);
        assert(all.drop_first() =~= fields.drop_first().push(last));
        lemma_find_in_push(fields.drop_first(), last, key);
    }
}

/// One tensor of a header: name, type name, shape and offsets.
pub struct Record {
    pub name: String,
    pub dtype: String,
    pub shape: Vec<u64>,
    pub offsets: Vec<u64>,
}

pub open spec fn counts_tree(v: Seq<u64>) -> Tree {
    Tree::Array(v.map_values(|n: u64| Tree::Number(Number::PosInt(n))))
}

/// The fields of one record.
pub open spec fn record_fields(r: Record) -> Seq<(Seq<char>, Tree)> {
    seq![
        ("dtype"@, Tree::Text(r.dtype@)),
        ("shape"@, counts_tree(r.shape@)),
        ("data_offsets"@, counts_tree(r.offsets@)),
    ]
}

/// A tree that holds the fields of a record.
pub open spec fn is_record(t: Tree, r: Record) -> bool {
    &&& t is Object
    &&& distinct_names(t->Object_0)
    &&& by_name(t->Object_0) == by_name(record_fields(r))
}

/// A table that holds each of the records under its name, the last of that
/// name, and nothing else.
pub open spec fn is_table(fields: Seq<(Seq<char>, Tree)>, records: Seq<Record>) -> bool {
    &&& distinct_names(fields)
    &&& forall|i: int|
        0 <= i < records.len() && (forall|j: int| i < j < records.len() ==> (#[trigger] records[j]).name@ != records[i].name@)
            ==> find_field(fields, (#[trigger] records[i]).name@) is Some && is_record(
            find_field(fields, records[i].name@)->0,
            records[i],
        )
    &&& forall|k: int|
        0 <= k < fields.len() ==> exists|i: int| 0 <= i < records.len() && (#[trigger] fields[k]).0 == (#[trigger] records[i]).name@
}

/// `i` is the last place of a name.
spec fn is_last(fields: Seq<(Seq<char>, Tree)>, key: Seq<char>, i: int) -> bool {
    &&& 0 <= i < fields.len()
    &&& fields[i].0 == key
    &&& forall|j: int| i < j < fields.len() ==> (#[trigger] fields[j]).0 != key
}

/// By name, the last entry of a name counts.
proof fn lemma_last_counts(fields: Seq<(Seq<char>, Tree)>, key: Seq<char>)
    ensures
        by_name(fields).contains_key(key) ==> exists|i: int| #[trigger] is_last(fields, key, i),
        forall|i: int| #[trigger]
            is_last(fields, key, i) ==> by_name(fields).contains_key(key) && by_name(fields)[key] == fields[i].1,
    decreases fields.len(),
{
    if fields.len() > 0 {
        let init = fields.drop_last();
        let end = fields.len() - 1;
        lemma_last_counts(init, key);
        if fields[end].0 == key {
            assert(is_last(fields, key, end));
        } else if by_name(init).contains_key(key) {
            let i = choose|i: int| #[trigger] is_last(init, key, i);
            assert forall|j: int| i < j < fields.len() implies (#[trigger] fields[j]).0 != key by {
                if j < end {
                    assert(init[j].0 != key);
                }
            }
            assert(is_last(fields, key, i));
        }
        assert forall|i: int| #[trigger] is_last(fields, key, i) implies by_name(fields).contains_key(key) && by_name(
            fields,
        )[key] == fields[i].1 by {
            if i < end {
                assert(fields[end].0 != key);
                assert forall|j: int| i < j < init.len() implies (#[trigger] init[j]).0 != key by {
                    assert(fields[j].0 != key);
                }
                assert(is_last(init, key, i));
            }
        }
    }
}

/// What a record holds is plain.
proof fn lemma_record_is_plain(t: Tree, r: Record, k: int)
    requires
        is_record(t, r),
        0 <= k < t->Object_0.len(),
    ensures
        is_plain(t->Object_0[k].1),
{
    let inner = t->Object_0;
    let rf = record_fields(r);
    let key = inner[k].0;
    found_by_name(inner, key);
    lemma_last_counts(rf, key);
    assert(by_name(inner).contains_key(key));
    let i = choose|i: int| #[trigger] is_last(rf, key, i);
    assert(i == 0 || i == 1 || i == 2);
}

/// The names of a record's fields differ.
pub proof fn record_fields_differ()
    ensures
        "dtype"@ != "shape"@,
        "dtype"@ != "data_offsets"@,
        "shape"@ != "data_offsets"@,
{
    reveal_strlit("dtype");
    reveal_strlit("shape");
    reveal_strlit("data_offsets");
    assert("dtype"@[0] == 'd' && "shape"@[0] == 's');
    assert("dtype"@.len() == 5 && "data_offsets"@.len() == 12);
}

/// What a record says of itself.
pub proof fn record_says(t: Tree, r: Record)
    requires
        is_record(t, r),
    ensures
        t.field("dtype"@) == Some(Tree::Text(r.dtype@)),
        t.field("shape"@) == Some(counts_tree(r.shape@)),
        t.field("data_offsets"@) == Some(counts_tree(r.offsets@)),
{
    record_fields_differ();
    let inner = t->Object_0;
    let rf = record_fields(r);
    assert(rf[0].0 == "dtype"@ && rf[1].0 == "shape"@ && rf[2].0 == "data_offsets"@);
    found_by_name(inner, "dtype"@);
    found_by_name(inner, "shape"@);
    found_by_name(inner, "data_offsets"@);
    lemma_last_counts(rf, "dtype"@);
    lemma_last_counts(rf, "shape"@);
    lemma_last_counts(rf, "data_offsets"@);
    assert(is_last(rf, "dtype"@, 0));
    assert(is_last(rf, "shape"@, 1));
    assert(is_last(rf, "data_offsets"@, 2));
}

/// Write a table of records as JSON. What is written reads back as that table.
pub fn write_table(records: Vec<Record>) -> (r: Vec<u8>)
    ensures
        parsed_fields(r@) is Ok,
        is_table(parsed_fields(r@)->Ok_0, records@),
        r@ == written(Tree::Object(parsed_fields(r@)->Ok_0)),
        r@.len() > 0,
{
    let ghost all = records@;
    let mut entries: Vec<(String, serde_json::Value)> = Vec::new();
    for rec in it: records
        invariant
            it.seq() == all,
            entries@.len() == it.index(),
            forall|k: int|
                0 <= k < entries@.len() ==> (#[trigger] entries@[k]).0@ == all[k].name@ && is_record(
                    value_tree(entries@[k].1),
                    all[k],
                ),
    {
        let ghost whole = rec;
        let Record { name, dtype, shape, offsets } = rec;
        let mut inner: Vec<(String, serde_json::Value)> = Vec::new();
        inner.push(("dtype".to_owned(), text_value(dtype)));
        inner.push(("shape".to_owned(), counts_value(shape)));
        inner.push(("data_offsets".to_owned(), counts_value(offsets)));
        proof {
            assert(inner@.map_values(|e: (String, serde_json::Value)| entry_tree(e)) =~= record_fields(whole));
        }
        entries.push((name, object_value(inner)));
    }
    let ghost trees = entries@.map_values(|e: (String, serde_json::Value)| entry_tree(e));
    let table = object_value(entries);
    let r = value_bytes(&table);
    proof {
        let fields = value_tree(table)->Object_0;
        assert forall|k: int| 0 <= k < fields.len() implies exists|i: int|
            0 <= i < all.len() && (#[trigger] fields[k]).0 == (#[trigger] all[i]).name@ && is_record(fields[k].1, all[i]) by {
            let key = fields[k].0;
            found_by_name(fields, key);
            lemma_last_counts(trees, key);
            assert(by_name(fields).contains_key(key));
            let i = choose|i: int| #[trigger] is_last(trees, key, i);
            assert(entries@[i].0@ == all[i].name@);
        }
        assert forall|i: int|
            0 <= i < all.len() && (forall|j: int| i < j < all.len() ==> (#[trigger] all[j]).name@ != all[i].name@)
            implies find_field(fields, (#[trigger] all[i]).name@) is Some && is_record(
            find_field(fields, all[i].name@)->0,
            all[i],
        ) by {
            let key = all[i].name@;
            found_by_name(fields, key);
            lemma_last_counts(trees, key);
            assert(trees[i].0 == key) by {
                assert(entries@[i].0@ == all[i].name@);
            }
            assert forall|j: int| i < j < trees.len() implies (#[trigger] trees[j]).0 != key by {
                assert(entries@[j].0@ == all[j].name@);
            }
            assert(is_last(trees, key, i));
        }
        assert(is_record_table(fields)) by {
            assert forall|k: int| 0 <= k < fields.len() implies (#[trigger] fields[k]).1.fields() is Some && forall|m: int|
                0 <= m < fields[k].1.fields()->0.len() ==> is_plain((#[trigger] fields[k].1.fields()->0[m]).1) by {
                let i = choose|i: int|
                    0 <= i < all.len() && (#[trigger] fields[k]).0 == (#[trigger] all[i]).name@ && is_record(fields[k].1, all[i]);
                assert forall|m: int| 0 <= m < fields[k].1.fields()->0.len() implies is_plain(
                    (#[trigger] fields[k].1.fields()->0[m]).1,
                ) by {
                    lemma_record_is_plain(fields[k].1, all[i], m);
                }
            }
        }
    }
    r
}

} // verus!
