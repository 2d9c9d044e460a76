//! JSON documents, as the trees that servers and registries answer with.
use vstd::prelude::*;

use crate::seqs::{first_match, lemma_first_index_is};
use crate::text::same;

verus! {

/// A JSON document.
///
/// A number carries what can be read of it: the unsigned integer it is, if it
/// is one, and the bits of the double nearest to it.
#[derive(Debug)]
pub enum Json {
    Null,
    Bool(bool),
    Number { unsigned: Option<u64>, double: Option<u64> },
    Text(String),
    Array(Vec<Json>),
    Object(Vec<(String, Json)>),
}

/// A JSON document, in texts.
pub enum Tree {
    Null,
    Bool(bool),
    Number { unsigned: Option<u64>, double: Option<u64> },
    Text(Seq<char>),
    Array(Seq<Tree>),
    Object(Seq<(Seq<char>, Tree)>),
}

/// The document a value holds.
pub open spec fn tree(j: Json) -> Tree
    decreases j,
{
    match j {
        Json::Null => Tree::Null,
        Json::Bool(b) => Tree::Bool(b),
        Json::Number { unsigned, double } => Tree::Number { unsigned, double },
        Json::Text(s) => Tree::Text(s@),
        Json::Array(v) => Tree::Array(
            Seq::new(
                v@.len(),
                |i: int|
                    if 0 <= i < v@.len() {
                        tree(v@[i])
                    } else {
                        Tree::Null
                    },
            ),
        ),
        Json::Object(v) => Tree::Object(
            Seq::new(
                v@.len(),
                |i: int|
                    if 0 <= i < v@.len() {
                        (v@[i].0@, tree(v@[i].1))
                    } else {
                        (Seq::empty(), Tree::Null)
                    },
            ),
        ),
    }
}

/// A parsed document, as `serde_json` holds it.
#[verifier::external_type_specification]
#[verifier::external_body]
pub struct ExValue(serde_json::Value);

/// What a parsed document holds, all the way down. An object's entries stand
/// in the order `serde_json` keeps them.
pub uninterp spec fn contents(v: serde_json::Value) -> Tree;

/// What `serde_json::from_str` makes of a text when a [`serde_json::Value`] is
/// asked for: the document, or what it says is wrong with the text.
pub uninterp spec fn document(text: Seq<char>) -> Result<Tree, Seq<char>>;

/// One level of a parsed document.
pub enum Node {
    Null,
    Bool(bool),
    Number { unsigned: Option<u64>, double: Option<u64> },
    Text(String),
    Array(Vec<serde_json::Value>),
    Object(Vec<(String, serde_json::Value)>),
}

/// What one level and the documents under it hold.
pub open spec fn node_tree(n: Node) -> Tree {
    match n {
        Node::Null => Tree::Null,
        Node::Bool(b) => Tree::Bool(b),
        Node::Number { unsigned, double } => Tree::Number { unsigned, double },
        Node::Text(s) => Tree::Text(s@),
        Node::Array(v) => Tree::Array(v@.map_values(|x: serde_json::Value| contents(x))),
        Node::Object(v) => Tree::Object(
            v@.map_values(|e: (String, serde_json::Value)| (e.0@, contents(e.1))),
        ),
    }
}

/// `serde_json::from_str` for a [`serde_json::Value`]. What comes back depends
/// on the text alone, an error by its message.
#[verifier::external_body]
fn parse_value(text: &str) -> (r: Result<serde_json::Value, String>)
    ensures
        match r {
            Ok(v) => document(text@) == Ok::<Tree, Seq<char>>(contents(v)),
            Err(e) => document(text@) == Err::<Tree, Seq<char>>(e@),
        },
{
    match serde_json::from_str::<serde_json::Value>(text) {
        Ok(v) => Ok(v),
        Err(e) => Err(e.to_string()),
    }
}

/// Takes a [`serde_json::Value`] apart by its variant; a number by
/// `Number::as_u64` and `Number::as_f64`, an object by walking its `Map`.
#[verifier::external_body]
fn open_value(v: serde_json::Value) -> (n: Node)
    ensures
        node_tree(n) == contents(v),
{
    match v {
        serde_json::Value::Null => Node::Null,
        serde_json::Value::Bool(b) => Node::Bool(b),
        serde_json::Value::Number(n) => Node::Number {
            unsigned: n.as_u64(),
            double: n.as_f64().map(|x| x.to_bits()),
        },
        serde_json::Value::String(s) => Node::Text(s),
        serde_json::Value::Array(a) => Node::Array(a),
        serde_json::Value::Object(m) => Node::Object(m.into_iter().collect()),
    }
}

impl Json {
    /// The document a parsed value holds.
    fn from_value(v: serde_json::Value) -> (j: Json)
        ensures
            tree(j) == contents(v),
        decreases contents(v),
    {
        let ghost whole = contents(v);
        match open_value(v) {
            Node::Null => Json::Null,
            Node::Bool(b) => Json::Bool(b),
            Node::Number { unsigned, double } => Json::Number { unsigned, double },
            Node::Text(s) => Json::Text(s),
            Node::Array(items) => {
                let ghost all = items@;
                let mut rest = items;
                let mut out: Vec<Json> = Vec::new();
                let ghost mut i: int = 0;
                while rest.len() > 0
                    invariant
                        0 <= i <= all.len(),
                        rest@ == all.skip(i),
                        whole == contents(v),
                        whole == Tree::Array(all.map_values(|x: serde_json::Value| contents(x))),
                        out@.len() == i,
                        forall|k: int| 0 <= k < i ==> tree(#[trigger] out@[k]) == contents(all[k]),
                    decreases rest.len(),
                {
                    let x = rest.remove(0);
                    proof {
                        assert(x == all[i]);
                        assert(rest@ =~= all.skip(i + 1));
                        assert(whole->Array_0[i] == contents(x));
                        assert(decreases_to!(whole => whole->Array_0[i]));
                    }
                    out.push(Json::from_value(x));
                    proof {
                        i = i + 1;
                    }
                }
                let j = Json::Array(out);
                proof {
                    assert(tree(j)->Array_0 =~= whole->Array_0);
                }
                j
            },
            Node::Object(entries) => {
                let ghost all = entries@;
                let mut rest = entries;
                let mut out: Vec<(String, Json)> = Vec::new();
                let ghost mut i: int = 0;
                while rest.len() > 0
                    invariant
                        0 <= i <= all.len(),
                        rest@ == all.skip(i),
                        whole == contents(v),
                        whole == Tree::Object(
                            all.map_values(
                                |e: (String, serde_json::Value)| (e.0@, contents(e.1)),
                            ),
                        ),
                        out@.len() == i,
                        forall|k: int|
                            0 <= k < i ==> (#[trigger] out@[k]).0@ == all[k].0@ && tree(out@[k].1)
                                == contents(all[k].1),
                    decreases rest.len(),
                {
                    let (key, x) = rest.remove(0);
                    proof {
                        assert((key, x) == all[i]);
                        assert(rest@ =~= all.skip(i + 1));
                        assert(whole->Object_0[i].1 == contents(x));
                        assert(decreases_to!(whole => whole->Object_0[i].1));
                    }
                    out.push((key, Json::from_value(x)));
                    proof {
                        i = i + 1;
                    }
                }
                let j = Json::Object(out);
                proof {
                    assert(tree(j)->Object_0 =~= whole->Object_0);
                }
                j
            },
        }
    }

    /// Reads a document, or says what is wrong with the text.
    pub fn read(text: &str) -> (r: Result<Json, String>)
        ensures
            match r {
                Ok(j) => document(text@) == Ok::<Tree, Seq<char>>(tree(j)),
                Err(e) => document(text@) == Err::<Tree, Seq<char>>(e@),
            },
    {
        match parse_value(text) {
            Ok(v) => Ok(Json::from_value(v)),
            Err(e) => Err(e),
        }
    }
}

/// Whether an entry stands under `key`.
pub open spec fn under(e: (Seq<char>, Tree), key: Seq<char>) -> bool {
    e.0 == key
}

/// The value under a key, where there is an object and it has one.
pub open spec fn field(t: Tree, key: Seq<char>) -> Option<Tree> {
    match t {
        Tree::Object(entries) => match first_match(entries, |e: (Seq<char>, Tree)| under(e, key)) {
            Some(e) => Some(e.1),
            None => None,
        },
        _ => None,
    }
}

/// The value under a key of something that may not be there.
pub open spec fn then_field(t: Option<Tree>, key: Seq<char>) -> Option<Tree> {
    match t {
        Some(x) => field(x, key),
        None => None,
    }
}

pub open spec fn as_text(t: Option<Tree>) -> Option<Seq<char>> {
    match t {
        Some(Tree::Text(s)) => Some(s),
        _ => None,
    }
}

pub open spec fn as_unsigned(t: Option<Tree>) -> Option<u64> {
    match t {
        Some(Tree::Number { unsigned, .. }) => unsigned,
        _ => None,
    }
}

pub open spec fn as_double(t: Option<Tree>) -> Option<u64> {
    match t {
        Some(Tree::Number { double, .. }) => double,
        _ => None,
    }
}

pub open spec fn as_flag(t: Option<Tree>) -> Option<bool> {
    match t {
        Some(Tree::Bool(b)) => Some(b),
        _ => None,
    }
}

pub open spec fn as_items(t: Option<Tree>) -> Option<Seq<Tree>> {
    match t {
        Some(Tree::Array(v)) => Some(v),
        _ => None,
    }
}

/// What an optional value holds.
pub open spec fn opt_tree(j: Option<&Json>) -> Option<Tree> {
    match j {
        Some(x) => Some(tree(*x)),
        None => None,
    }
}

/// What a list of values holds.
pub open spec fn trees(v: Seq<Json>) -> Seq<Tree> {
    v.map_values(|j: Json| tree(j))
}

impl Json {
    pub fn get<'a>(&'a self, key: &str) -> (r: Option<&'a Json>)
        ensures
            opt_tree(r) == field(tree(*self), key@),
    {
        match self {
            Json::Object(entries) => {
                let ghost all = tree(*self)->Object_0;
                let ghost want = key@;
                let ghost p = |e: (Seq<char>, Tree)| under(e, want);
                let mut i: usize = 0;
                while i < entries.len()
                    invariant
                        i <= entries@.len(),
                        *self == Json::Object(*entries),
                        all == tree(*self)->Object_0,
                        want == key@,
                        p == (|e: (Seq<char>, Tree)| under(e, want)),
                        forall|k: int| 0 <= k < i ==> !p(#[trigger] all[k]),
                    decreases entries.len() - i,
                {
                    proof {
                        assert(all[i as int] == (entries@[i as int].0@, tree(
                            entries@[i as int].1,
                        )));
                    }
                    if same(entries[i].0.as_str(), key) {
                        proof {
                            lemma_first_index_is(all, p, i as int);
                        }
                        return Some(&entries[i].1);
                    }
                    i += 1;
                }
                proof {
                    lemma_first_index_is(all, p, all.len() as int);
                }
                None
            },
            _ => None,
        }
    }
}

/// The value under a key of something that may not be there.
pub fn dig<'a>(j: Option<&'a Json>, key: &str) -> (r: Option<&'a Json>)
    ensures
        opt_tree(r) == then_field(opt_tree(j), key@),
{
    match j {
        Some(x) => x.get(key),
        None => None,
    }
}

pub fn text_of(j: Option<&Json>) -> (r: Option<String>)
    ensures
        crate::text::opt_text(r) == as_text(opt_tree(j)),
{
    match j {
        Some(Json::Text(s)) => Some(s.clone()),
        _ => None,
    }
}

pub fn unsigned_of(j: Option<&Json>) -> (r: Option<u64>)
    ensures
        r == as_unsigned(opt_tree(j)),
{
    match j {
        Some(Json::Number { unsigned, .. }) => *unsigned,
        _ => None,
    }
}

pub fn double_of(j: Option<&Json>) -> (r: Option<u64>)
    ensures
        r == as_double(opt_tree(j)),
{
    match j {
        Some(Json::Number { double, .. }) => *double,
        _ => None,
    }
}

pub fn flag_of(j: Option<&Json>) -> (r: Option<bool>)
    ensures
        r == as_flag(opt_tree(j)),
{
    match j {
        Some(Json::Bool(b)) => Some(*b),
        _ => None,
    }
}

pub fn items_of<'a>(j: Option<&'a Json>) -> (r: Option<&'a Vec<Json>>)
    ensures
        match r {
            Some(v) => as_items(opt_tree(j)) == Some(trees(v@)),
            None => as_items(opt_tree(j)) is None,
        },
{
    match j {
        Some(x) => match x {
            Json::Array(v) => {
                proof {
                    assert(tree(*x)->Array_0 =~= trees(v@));
                }
                Some(v)
            },
            _ => None,
        },
        None => None,
    }
}

/// A whole number, as a document that is being built holds it.
pub open spec fn plain_number(n: u64) -> Tree {
    Tree::Number { unsigned: Some(n), double: None }
}

/// A text, or nothing.
pub open spec fn text_or_null(s: Option<Seq<char>>) -> Tree {
    match s {
        Some(t) => Tree::Text(t),
        None => Tree::Null,
    }
}

/// A whole number, or nothing.
pub open spec fn number_or_null(n: Option<u64>) -> Tree {
    match n {
        Some(v) => plain_number(v),
        None => Tree::Null,
    }
}

} // verus!
