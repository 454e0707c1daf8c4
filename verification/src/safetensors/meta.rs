//! What a header says of one tensor, and what is wrong where it says something
//! else.
use serde::de::Unexpected;
use vstd::prelude::*;
use vstd::string::*;

use super::TensorMeta;
use crate::json::{expose, Node, Tree};
use crate::text::{decimal, joined, same_text};

verus! {

// --- one value -----------------------------------------------------------------------------------

/// The message of `serde_json::from_value` where a value is no `String`.
pub uninterp spec fn no_text(t: Tree) -> Seq<char>;

/// The message of `serde_json::from_value` where a value is no `Vec<usize>`.
pub uninterp spec fn no_sizes(t: Tree) -> Seq<char>;

/// The message of `serde_json::from_value` where a value is no `[usize; 2]`.
pub uninterp spec fn no_pair(t: Tree) -> Seq<char>;

/// The message of `serde_json::Error::invalid_type` for a value and what was
/// expected in its place.
pub uninterp spec fn mistyped(t: Tree, expected: Seq<char>) -> Seq<char>;

/// `serde_json::from_value` into a `String`: a string is its text, anything
/// else an error with the message named by `no_text`.
#[verifier::external_body]
fn text_of(v: serde_json::Value) -> (r: Result<String, String>)
    ensures
        r is Ok <==> crate::json::value_tree(v) is Text,
        r matches Ok(s) ==> crate::json::value_tree(v) == Tree::Text(s@),
        r matches Err(e) ==> e@ == no_text(crate::json::value_tree(v)),
{
    serde_json::from_value(v).map_err(|e: serde_json::Error| e.to_string())
}

/// `serde_json::from_value` into a `Vec<usize>`: an array of unsigned integers
/// that fit is their list, anything else an error with the message named by
/// `no_sizes`.
#[verifier::external_body]
fn sizes_in(v: serde_json::Value) -> (r: Result<Vec<usize>, String>)
    ensures
        r is Ok <==> super::sizes_of(crate::json::value_tree(v)) is Some,
        r matches Ok(s) ==> super::sizes_of(crate::json::value_tree(v)) == Some(s@),
        r matches Err(e) ==> e@ == no_sizes(crate::json::value_tree(v)),
{
    serde_json::from_value(v).map_err(|e: serde_json::Error| e.to_string())
}

/// `serde_json::from_value` into a `[usize; 2]`: an array of two unsigned
/// integers that fit is the two, anything else an error with the message named
/// by `no_pair`.
#[verifier::external_body]
fn pair_in(v: serde_json::Value) -> (r: Result<[usize; 2], String>)
    ensures
        r is Ok <==> is_pair(crate::json::value_tree(v)),
        r matches Ok(p) ==> super::sizes_of(crate::json::value_tree(v)) == Some(p@),
        r matches Err(e) ==> e@ == no_pair(crate::json::value_tree(v)),
{
    serde_json::from_value(v).map_err(|e: serde_json::Error| e.to_string())
}

/// `serde_json::Error::invalid_type` of a value: its message, as named by
/// `mistyped`.
#[verifier::external_body]
fn wrong_type(v: &serde_json::Value, expected: &str) -> (r: String)
    ensures
        r@ == mistyped(crate::json::value_tree(*v), expected@),
{
    let found = match v {
        serde_json::Value::Null => Unexpected::Unit,
        serde_json::Value::Bool(b) => Unexpected::Bool(*b),
        serde_json::Value::Number(n) => match (n.as_u64(), n.as_i64()) {
            (Some(u), _) => Unexpected::Unsigned(u),
            (None, Some(i)) => Unexpected::Signed(i),
            (None, None) => Unexpected::Float(n.as_f64().unwrap()),
        },
        serde_json::Value::String(s) => Unexpected::Str(s),
        serde_json::Value::Array(_) => Unexpected::Seq,
        serde_json::Value::Object(_) => Unexpected::Map,
    };
    <serde_json::Error as serde::de::Error>::invalid_type(found, &expected).to_string()
}

/// Two sizes.
pub open spec fn is_pair(t: Tree) -> bool {
    super::sizes_of(t) matches Some(s) && s.len() == 2
}

// --- what is wrong -------------------------------------------------------------------------------

/// What is wrong with a field of a description, if anything.
pub open spec fn field_error(name: Seq<char>, t: Tree) -> Option<Seq<char>> {
    if name == "dtype"@ && !(t is Text) {
        Some(no_text(t))
    } else if name == "shape"@ && super::sizes_of(t) is None {
        Some(no_sizes(t))
    } else if name == "data_offsets"@ && !is_pair(t) {
        Some(no_pair(t))
    } else {
        None
    }
}

/// What is wrong with the first bad one of the first `n` fields.
pub open spec fn first_error(fields: Seq<(Seq<char>, Tree)>, n: nat) -> Option<Seq<char>>
    decreases n,
{
    if n == 0 {
        None
    } else {
        match first_error(fields, (n - 1) as nat) {
            Some(e) => Some(e),
            None => field_error(fields[n - 1].0, fields[n - 1].1),
        }
    }
}

pub open spec fn missing(name: Seq<char>) -> Seq<char> {
    "missing field `"@ + name + "`"@
}

/// What is missing of an object whose fields are good.
pub open spec fn missing_error(t: Tree) -> Seq<char> {
    if t.field("dtype"@) is None {
        missing("dtype"@)
    } else if t.field("shape"@) is None {
        missing("shape"@)
    } else {
        missing("data_offsets"@)
    }
}

pub open spec fn wrong_length(n: nat, expected: Seq<char>) -> Seq<char> {
    "invalid length "@ + crate::text::decimal_text(n) + ", expected "@ + expected
}

/// What is wrong with a list of values: the first bad one, or how many there
/// are.
pub open spec fn list_error(v: Seq<Tree>) -> Seq<char> {
    if v.len() > 0 && !(v[0] is Text) {
        no_text(v[0])
    } else if v.len() > 1 && super::sizes_of(v[1]) is None {
        no_sizes(v[1])
    } else if v.len() > 2 && !is_pair(v[2]) {
        no_pair(v[2])
    } else if v.len() < 3 {
        wrong_length(v.len(), "struct TensorMeta with 3 elements"@)
    } else {
        wrong_length(v.len(), "fewer elements in array"@)
    }
}

/// What is wrong with a document that is no description.
pub open spec fn meta_error(t: Tree) -> Seq<char> {
    match t {
        Tree::Object(fields) => match first_error(fields, fields.len()) {
            Some(e) => e,
            None => missing_error(t),
        },
        Tree::Array(v) => list_error(v),
        _ => mistyped(t, "struct TensorMeta"@),
    }
}

// --- reading -------------------------------------------------------------------------------------

/// A bad field is told before those that come after it.
proof fn lemma_error_stays(fields: Seq<(Seq<char>, Tree)>, m: nat, n: nat)
    requires
        m <= n,
        first_error(fields, m) is Some,
    ensures
        first_error(fields, n) == first_error(fields, m),
    decreases n,
{
    if m < n {
        lemma_error_stays(fields, m, (n - 1) as nat);
    }
}

fn told_missing(name: &str) -> (r: String)
    ensures
        r@ == missing(name@),
{
    let mut e = joined("missing field `", name);
    e.append("`");
    e
}

fn told_length(n: usize, expected: &str) -> (r: String)
    ensures
        r@ == wrong_length(n as nat, expected@),
{
    let mut e = joined("invalid length ", decimal(n as u64).as_str());
    e.append(", expected ");
    e.append(expected);
    e
}

/// Whether a reading of a description, or the error told, is right.
pub open spec fn reads(t: Tree, r: Result<TensorMeta, String>) -> bool {
    match r {
        Ok(m) => super::meta_of(t) == Some(m@),
        Err(e) => super::meta_of(t) is None && e@ == meta_error(t),
    }
}

fn read_fields_of(list: Vec<(String, serde_json::Value)>, Ghost(t): Ghost<Tree>) -> (r: Result<TensorMeta, String>)
    requires
        t == Tree::Object(list@.map_values(|e: (String, serde_json::Value)| crate::json::entry_tree(e))),
        crate::json::distinct_names(t->Object_0),
    ensures
        reads(t, r),
{
    let ghost all = list@;
    let ghost fields = t->Object_0;
    let mut dtype: Option<String> = None;
    let mut shape: Option<Vec<usize>> = None;
    let mut offsets: Option<[usize; 2]> = None;
    proof {
        lemma_names_differ();
        crate::json::found_by_name(fields, "dtype"@);
        crate::json::found_by_name(fields, "shape"@);
        crate::json::found_by_name(fields, "data_offsets"@);
    }
    for x in it: list
        invariant
            it.seq() == all,
            fields == all.map_values(|e: (String, serde_json::Value)| crate::json::entry_tree(e)),
            t == Tree::Object(fields),
            "dtype"@ != "shape"@,
            "dtype"@ != "data_offsets"@,
            "shape"@ != "data_offsets"@,
            forall|i: int|
                0 <= i < fields.len() && (#[trigger] fields[i]).0 == "dtype"@ ==> t.field("dtype"@) == Some(fields[i].1),
            forall|i: int|
                0 <= i < fields.len() && (#[trigger] fields[i]).0 == "shape"@ ==> t.field("shape"@) == Some(fields[i].1),
            forall|i: int|
                0 <= i < fields.len() && (#[trigger] fields[i]).0 == "data_offsets"@ ==> t.field("data_offsets"@) == Some(
                    fields[i].1,
                ),
            first_error(fields, it.index() as nat) is None,
            match dtype {
                Some(d) => t.field("dtype"@) == Some(Tree::Text(d@)),
                None => forall|i: int| 0 <= i < it.index() ==> (#[trigger] fields[i]).0 != "dtype"@,
            },
            match shape {
                Some(s) => t.field("shape"@) is Some && super::sizes_of(t.field("shape"@)->0) == Some(s@),
                None => forall|i: int| 0 <= i < it.index() ==> (#[trigger] fields[i]).0 != "shape"@,
            },
            match offsets {
                Some(p) => t.field("data_offsets"@) is Some && super::sizes_of(t.field("data_offsets"@)->0) == Some(p@),
                None => forall|i: int| 0 <= i < it.index() ==> (#[trigger] fields[i]).0 != "data_offsets"@,
            },
    {
        let ghost k = it.index() as nat;
        proof {
            assert(x == all[k as int]);
            assert(fields[k as int] == crate::json::entry_tree(x));
            if first_error(fields, k + 1) is Some {
                lemma_error_stays(fields, k + 1, fields.len());
            }
        }
        let (name, value) = x;
        if same_text(name.as_str(), "dtype") {
            match text_of(value) {
                Ok(s) => {
                    dtype = Some(s);
                },
                Err(e) => {
                    return Err(e);
                },
            }
        } else if same_text(name.as_str(), "shape") {
            match sizes_in(value) {
                Ok(s) => {
                    shape = Some(s);
                },
                Err(e) => {
                    return Err(e);
                },
            }
        } else if same_text(name.as_str(), "data_offsets") {
            match pair_in(value) {
                Ok(p) => {
                    offsets = Some(p);
                },
                Err(e) => {
                    return Err(e);
                },
            }
        }
    }
    let dtype = match dtype {
        Some(d) => d,
        None => {
            return Err(told_missing("dtype"));
        },
    };
    let shape = match shape {
        Some(s) => s,
        None => {
            return Err(told_missing("shape"));
        },
    };
    match offsets {
        Some(data_offsets) => Ok(TensorMeta { dtype, shape, data_offsets }),
        None => Err(told_missing("data_offsets")),
    }
}

proof fn lemma_names_differ()
    ensures
        "dtype"@ != "shape"@,
        "dtype"@ != "data_offsets"@,
        "shape"@ != "data_offsets"@,
{
    reveal_strlit("dtype");
    reveal_strlit("shape");
    reveal_strlit("data_offsets");
    assert("dtype"@[0] == 'd' && "shape"@[0] == 's');
    assert("dtype"@.len() == 5 && "data_offsets"@.len() == 12 && "shape"@.len() == 5);
}

fn read_list(list: Vec<serde_json::Value>, Ghost(t): Ghost<Tree>) -> (r: Result<TensorMeta, String>)
    requires
        t == Tree::Array(list@.map_values(|x: serde_json::Value| crate::json::value_tree(x))),
    ensures
        reads(t, r),
{
    let ghost v = t->Array_0;
    let ghost all = list@;
    let n: usize = list.len();
    let mut rest = list;
    proof {
        assert(v.len() == n);
        assert(forall|i: int| 0 <= i < n ==> v[i] == crate::json::value_tree(#[trigger] all[i]));
    }
    if n == 0 {
        return Err(told_length(0, "struct TensorMeta with 3 elements"));
    }
    let first = rest.remove(0);
    let dtype = match text_of(first) {
        Ok(s) => s,
        Err(e) => {
            return Err(e);
        },
    };
    if n == 1 {
        return Err(told_length(1, "struct TensorMeta with 3 elements"));
    }
    let second = rest.remove(0);
    proof {
        assert(second == all[1]);
    }
    let shape = match sizes_in(second) {
        Ok(s) => s,
        Err(e) => {
            return Err(e);
        },
    };
    if n == 2 {
        return Err(told_length(2, "struct TensorMeta with 3 elements"));
    }
    let third = rest.remove(0);
    proof {
        assert(third == all[2]);
    }
    let data_offsets = match pair_in(third) {
        Ok(p) => p,
        Err(e) => {
            return Err(e);
        },
    };
    if n > 3 {
        return Err(told_length(n, "fewer elements in array"));
    }
    Ok(TensorMeta { dtype, shape, data_offsets })
}

/// Read a tensor's description, or tell what is wrong with it.
pub(crate) fn read_meta(v: serde_json::Value) -> (r: Result<TensorMeta, String>)
    ensures
        reads(crate::json::value_tree(v), r),
{
    let ghost t = crate::json::value_tree(v);
    let told = wrong_type(&v, "struct TensorMeta");
    match expose(v) {
        Node::Object(list) => read_fields_of(list, Ghost(t)),
        Node::Array(list) => read_list(list, Ghost(t)),
        _ => Err(told),
    }
}

} // verus!
