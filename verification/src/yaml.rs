//! YAML documents, as far as a model registry needs them.
use vstd::prelude::*;

use crate::seqs::{first_match, lemma_first_index_is};
use crate::text::same;

verus! {

/// A YAML document. What is neither text nor made of parts is not told apart.
#[derive(Debug)]
pub enum Yaml {
    Text(String),
    Items(Vec<Yaml>),
    Fields(Vec<(Yaml, Yaml)>),
    Tagged(Box<Yaml>),
    Other,
}

/// A YAML document, in texts.
pub enum Shape {
    Text(Seq<char>),
    Items(Seq<Shape>),
    Fields(Seq<(Shape, Shape)>),
    Tagged(Box<Shape>),
    Other,
}

/// The document a value holds.
pub open spec fn shape(y: Yaml) -> Shape
    decreases y,
{
    match y {
        Yaml::Text(s) => Shape::Text(s@),
        Yaml::Items(v) => Shape::Items(
            Seq::new(
                v@.len(),
                |i: int|
                    if 0 <= i < v@.len() {
                        shape(v@[i])
                    } else {
                        Shape::Other
                    },
            ),
        ),
        Yaml::Fields(v) => Shape::Fields(
            Seq::new(
                v@.len(),
                |i: int|
                    if 0 <= i < v@.len() {
                        (shape(v@[i].0), shape(v@[i].1))
                    } else {
                        (Shape::Other, Shape::Other)
                    },
            ),
        ),
        Yaml::Tagged(b) => Shape::Tagged(Box::new(shape(*b))),
        Yaml::Other => Shape::Other,
    }
}

/// A parsed document, as `serde_yaml` holds it.
#[verifier::external_type_specification]
#[verifier::external_body]
pub struct ExYamlValue(serde_yaml::Value);

/// What a parsed document holds, all the way down, with nulls, booleans and
/// numbers not told apart. A mapping's entries stand in the order `serde_yaml`
/// keeps them.
pub uninterp spec fn held(v: serde_yaml::Value) -> Shape;

/// What `serde_yaml::from_str` makes of a text when a [`serde_yaml::Value`] is
/// asked for, where it makes anything of it.
pub uninterp spec fn yaml_document(text: Seq<char>) -> Option<Shape>;

/// One level of a parsed document.
pub enum Level {
    Text(String),
    Items(Vec<serde_yaml::Value>),
    Fields(Vec<(serde_yaml::Value, serde_yaml::Value)>),
    Tagged(serde_yaml::Value),
    Other,
}

/// What one level and the documents under it hold.
pub open spec fn level_shape(l: Level) -> Shape {
    match l {
        Level::Text(s) => Shape::Text(s@),
        Level::Items(v) => Shape::Items(v@.map_values(|x: serde_yaml::Value| held(x))),
        Level::Fields(v) => Shape::Fields(
            v@.map_values(
                |e: (serde_yaml::Value, serde_yaml::Value)| (held(e.0), held(e.1)),
            ),
        ),
        Level::Tagged(v) => Shape::Tagged(Box::new(held(v))),
        Level::Other => Shape::Other,
    }
}

/// `serde_yaml::from_str` for a [`serde_yaml::Value`]. What comes back depends
/// on the text alone.
#[verifier::external_body]
fn parse_yaml(text: &str) -> (r: Option<serde_yaml::Value>)
    ensures
        match r {
            Some(v) => yaml_document(text@) == Some(held(v)),
            None => yaml_document(text@) is None,
        },
{
    serde_yaml::from_str::<serde_yaml::Value>(text).ok()
}

/// Takes a [`serde_yaml::Value`] apart by its variant, a mapping by walking it.
#[verifier::external_body]
fn open_yaml(v: serde_yaml::Value) -> (l: Level)
    ensures
        level_shape(l) == held(v),
{
    match v {
        serde_yaml::Value::Null => Level::Other,
        serde_yaml::Value::Bool(_) => Level::Other,
        serde_yaml::Value::Number(_) => Level::Other,
        serde_yaml::Value::String(s) => Level::Text(s),
        serde_yaml::Value::Sequence(s) => Level::Items(s),
        serde_yaml::Value::Mapping(m) => Level::Fields(m.into_iter().collect()),
        serde_yaml::Value::Tagged(t) => Level::Tagged(t.value),
    }
}

/// The document under any tags.
pub open spec fn untagged(s: Shape) -> Shape
    decreases s,
{
    match s {
        Shape::Tagged(b) => untagged(*b),
        _ => s,
    }
}

/// Whether an entry stands under a key. A tagged key is another key.
pub open spec fn keyed(e: (Shape, Shape), key: Seq<char>) -> bool {
    e.0 matches Shape::Text(k) && k == key
}

/// The value under a key, where there is a mapping and it has one.
pub open spec fn entry(s: Shape, key: Seq<char>) -> Option<Shape> {
    match untagged(s) {
        Shape::Fields(entries) => match first_match(
            entries,
            |e: (Shape, Shape)| keyed(e, key),
        ) {
            Some(e) => Some(e.1),
            None => None,
        },
        _ => None,
    }
}

/// The text a value is, where it is one.
pub open spec fn word(s: Option<Shape>) -> Option<Seq<char>> {
    match s {
        Some(x) => match untagged(x) {
            Shape::Text(t) => Some(t),
            _ => None,
        },
        None => None,
    }
}

/// The items a value has, where it is a sequence.
pub open spec fn items(s: Option<Shape>) -> Option<Seq<Shape>> {
    match s {
        Some(x) => match untagged(x) {
            Shape::Items(v) => Some(v),
            _ => None,
        },
        None => None,
    }
}

pub open spec fn opt_shape(y: Option<&Yaml>) -> Option<Shape> {
    match y {
        Some(x) => Some(shape(*x)),
        None => None,
    }
}

pub open spec fn shapes(v: Seq<Yaml>) -> Seq<Shape> {
    v.map_values(|y: Yaml| shape(y))
}

impl Yaml {
    /// The document a parsed value holds.
    fn from_value(v: serde_yaml::Value) -> (y: Yaml)
        ensures
            shape(y) == held(v),
        decreases held(v),
    {
        let ghost whole = held(v);
        match open_yaml(v) {
            Level::Text(s) => Yaml::Text(s),
            Level::Other => Yaml::Other,
            Level::Tagged(inner) => {
                proof {
                    assert(whole == Shape::Tagged(Box::new(held(inner))));
                    assert(decreases_to!(whole => *whole->Tagged_0));
                }
                Yaml::Tagged(Box::new(Yaml::from_value(inner)))
            },
            Level::Items(found) => {
                let ghost all = found@;
                let mut rest = found;
                let mut out: Vec<Yaml> = Vec::new();
                let ghost mut i: int = 0;
                while rest.len() > 0
                    invariant
                        0 <= i <= all.len(),
                        rest@ == all.skip(i),
                        whole == held(v),
                        whole == Shape::Items(all.map_values(|x: serde_yaml::Value| held(x))),
                        out@.len() == i,
                        forall|k: int| 0 <= k < i ==> shape(#[trigger] out@[k]) == held(all[k]),
                    decreases rest.len(),
                {
                    let x = rest.remove(0);
                    proof {
                        assert(x == all[i]);
                        assert(rest@ =~= all.skip(i + 1));
                        assert(whole->Items_0[i] == held(x));
                        assert(decreases_to!(whole => whole->Items_0[i]));
                    }
                    out.push(Yaml::from_value(x));
                    proof {
                        i = i + 1;
                    }
                }
                let y = Yaml::Items(out);
                proof {
                    assert(shape(y)->Items_0 =~= whole->Items_0);
                }
                y
            },
            Level::Fields(found) => {
                let ghost all = found@;
                let mut rest = found;
                let mut out: Vec<(Yaml, Yaml)> = Vec::new();
                let ghost mut i: int = 0;
                while rest.len() > 0
                    invariant
                        0 <= i <= all.len(),
                        rest@ == all.skip(i),
                        whole == held(v),
                        whole == Shape::Fields(
                            all.map_values(
                                |e: (serde_yaml::Value, serde_yaml::Value)| (held(e.0), held(e.1)),
                            ),
                        ),
                        out@.len() == i,
                        forall|k: int|
                            0 <= k < i ==> shape((#[trigger] out@[k]).0) == held(all[k].0) && shape(
                                out@[k].1,
                            ) == held(all[k].1),
                    decreases rest.len(),
                {
                    let (key, x) = rest.remove(0);
                    proof {
                        assert((key, x) == all[i]);
                        assert(rest@ =~= all.skip(i + 1));
                        assert(whole->Fields_0[i] == (held(key), held(x)));
                        assert(decreases_to!(whole => whole->Fields_0[i].0));
                        assert(decreases_to!(whole => whole->Fields_0[i].1));
                    }
                    out.push((Yaml::from_value(key), Yaml::from_value(x)));
                    proof {
                        i = i + 1;
                    }
                }
                let y = Yaml::Fields(out);
                proof {
                    assert(shape(y)->Fields_0 =~= whole->Fields_0);
                }
                y
            },
        }
    }

    /// Reads a document, where the text is one.
    pub fn read(text: &str) -> (r: Option<Yaml>)
        ensures
            match r {
                Some(y) => yaml_document(text@) == Some(shape(y)),
                None => yaml_document(text@) is None,
            },
    {
        match parse_yaml(text) {
            Some(v) => Some(Yaml::from_value(v)),
            None => None,
        }
    }

    fn untag<'a>(&'a self) -> (r: &'a Yaml)
        ensures
            shape(*r) == untagged(shape(*self)),
            !(*r is Tagged),
        decreases *self,
    {
        match self {
            Yaml::Tagged(b) => b.untag(),
            _ => self,
        }
    }

    /// The value under a key, where there is a mapping and it has one.
    pub fn get<'a>(&'a self, key: &str) -> (r: Option<&'a Yaml>)
        ensures
            opt_shape(r) == entry(shape(*self), key@),
    {
        let bare = self.untag();
        match bare {
            Yaml::Fields(entries) => {
                let ghost all = shape(*bare)->Fields_0;
                let ghost want = key@;
                let ghost p = |e: (Shape, Shape)| keyed(e, want);
                let mut i: usize = 0;
                while i < entries.len()
                    invariant
                        i <= entries@.len(),
                        *bare == Yaml::Fields(*entries),
                        all == shape(*bare)->Fields_0,
                        shape(*bare) == untagged(shape(*self)),
                        want == key@,
                        p == (|e: (Shape, Shape)| keyed(e, want)),
                        forall|k: int| 0 <= k < i ==> !p(#[trigger] all[k]),
                    decreases entries.len() - i,
                {
                    proof {
                        assert(all[i as int] == (
                            shape(entries@[i as int].0),
                            shape(entries@[i as int].1),
                        ));
                    }
                    if let Yaml::Text(k) = &entries[i].0 {
                        if same(k.as_str(), key) {
                            proof {
                                lemma_first_index_is(all, p, i as int);
                            }
                            return Some(&entries[i].1);
                        }
                    }
                    i += 1;
                }
                proof {
                    lemma_first_index_is(all, p, i as int);
                }
                None
            },
            _ => None,
        }
    }

    /// The text this is, where it is one.
    pub fn as_str<'a>(&'a self) -> (r: Option<&'a String>)
        ensures
            match r {
                Some(s) => word(Some(shape(*self))) == Some(s@),
                None => word(Some(shape(*self))) is None,
            },
    {
        match self.untag() {
            Yaml::Text(s) => Some(s),
            _ => None,
        }
    }

    /// The items this has, where it is a sequence.
    pub fn as_sequence<'a>(&'a self) -> (r: Option<&'a Vec<Yaml>>)
        ensures
            match r {
                Some(v) => items(Some(shape(*self))) == Some(shapes(v@)),
                None => items(Some(shape(*self))) is None,
            },
    {
        let bare = self.untag();
        match bare {
            Yaml::Items(v) => {
                proof {
                    assert(shape(*bare)->Items_0 =~= shapes(v@));
                }
                Some(v)
            },
            _ => None,
        }
    }
}

} // verus!
