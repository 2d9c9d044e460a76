//! JSON documents that are written out.
use vstd::prelude::*;

use crate::json::{contents, plain_number, Tree};
use crate::text::text_lt;

verus! {

/// A document to be written: what a report holds, and no other number than a
/// whole one.
#[derive(Debug)]
pub enum Doc {
    Null,
    Flag(bool),
    Whole(u64),
    Text(String),
    List(Vec<Doc>),
    Fields(Vec<(String, Doc)>),
}

/// A value put under a key, among entries in the order of their keys: it takes
/// the place of the one that is there.
pub open spec fn keyed_in(s: Seq<(Seq<char>, Tree)>, k: Seq<char>, v: Tree) -> Seq<
    (Seq<char>, Tree),
>
    decreases s.len(),
{
    if s.len() == 0 {
        seq![(k, v)]
    } else if s.last().0 == k {
        s.drop_last().push((k, v))
    } else if text_lt(s.last().0, k) {
        s.push((k, v))
    } else {
        keyed_in(s.drop_last(), k, v).push(s.last())
    }
}

/// Entries in the order of their keys, the last under each key.
pub open spec fn in_order(s: Seq<(Seq<char>, Tree)>) -> Seq<(Seq<char>, Tree)>
    decreases s.len(),
{
    if s.len() == 0 {
        s
    } else {
        keyed_in(in_order(s.drop_last()), s.last().0, s.last().1)
    }
}

/// What a document holds, its fields in the order they are written in.
pub open spec fn sheet(d: Doc) -> Tree
    decreases d, 0nat,
{
    match d {
        Doc::Null => Tree::Null,
        Doc::Flag(b) => Tree::Bool(b),
        Doc::Whole(n) => plain_number(n),
        Doc::Text(s) => Tree::Text(s@),
        Doc::List(v) => Tree::Array(listed(v@, v@.len())),
        Doc::Fields(v) => Tree::Object(ordered(v@, v@.len())),
    }
}

/// What the first `n` of a list hold.
pub open spec fn listed(v: Seq<Doc>, n: nat) -> Seq<Tree>
    decreases v, n,
{
    if n == 0 || n > v.len() {
        Seq::empty()
    } else {
        listed(v, (n - 1) as nat).push(sheet(v[n - 1]))
    }
}

/// What the first `n` fields hold, in the order of their keys.
pub open spec fn ordered(v: Seq<(String, Doc)>, n: nat) -> Seq<(Seq<char>, Tree)>
    decreases v, n,
{
    if n == 0 || n > v.len() {
        Seq::empty()
    } else {
        keyed_in(ordered(v, (n - 1) as nat), v[n - 1].0@, sheet(v[n - 1].1))
    }
}

/// A tree with of each number only the unsigned integer it is.
pub open spec fn drawn(t: Tree) -> Tree
    decreases t,
{
    match t {
        Tree::Number { unsigned, .. } => Tree::Number { unsigned, double: None },
        Tree::Array(v) => Tree::Array(
            Seq::new(
                v.len(),
                |i: int|
                    if 0 <= i < v.len() {
                        drawn(v[i])
                    } else {
                        Tree::Null
                    },
            ),
        ),
        Tree::Object(v) => Tree::Object(
            Seq::new(
                v.len(),
                |i: int|
                    if 0 <= i < v.len() {
                        (v[i].0, drawn(v[i].1))
                    } else {
                        (Seq::empty(), Tree::Null)
                    },
            ),
        ),
        _ => t,
    }
}

/// Ordering entries makes up none.
pub proof fn lemma_in_order_members(s: Seq<(Seq<char>, Tree)>, e: (Seq<char>, Tree))
    requires
        in_order(s).contains(e),
    ensures
        s.contains(e),
    decreases s.len(),
{
    if s.len() > 0 {
        let before = in_order(s.drop_last());
        lemma_keyed_in_members(before, s.last().0, s.last().1, e);
        if before.contains(e) {
            lemma_in_order_members(s.drop_last(), e);
            let i = s.drop_last().index_of(e);
            assert(s[i] == e);
        } else {
            assert(s[s.len() - 1] == e);
        }
    }
}

proof fn lemma_keyed_in_members(
    s: Seq<(Seq<char>, Tree)>,
    k: Seq<char>,
    v: Tree,
    e: (Seq<char>, Tree),
)
    requires
        keyed_in(s, k, v).contains(e),
    ensures
        s.contains(e) || e == (k, v),
    decreases s.len(),
{
    let all = keyed_in(s, k, v);
    let i = all.index_of(e);
    if s.len() > 0 && s.last().0 != k && !text_lt(s.last().0, k) {
        let front = keyed_in(s.drop_last(), k, v);
        if i < front.len() {
            assert(front[i] == e);
            lemma_keyed_in_members(s.drop_last(), k, v, e);
            if s.drop_last().contains(e) {
                let j = s.drop_last().index_of(e);
                assert(s[j] == e);
            }
        } else {
            assert(s[s.len() - 1] == e);
        }
    } else if s.len() > 0 && i < s.len() && e != (k, v) {
        assert(s[i] == e);
    }
}

/// Whether every number of a tree is an unsigned integer.
pub open spec fn counts_only(t: Tree) -> bool
    decreases t,
{
    match t {
        Tree::Number { unsigned, .. } => unsigned is Some,
        Tree::Array(v) => forall|i: int| 0 <= i < v.len() ==> counts_only(#[trigger] v[i]),
        Tree::Object(v) => forall|i: int| 0 <= i < v.len() ==> counts_only((#[trigger] v[i]).1),
        _ => true,
    }
}

/// One level of a value that is being put together.
pub enum Part {
    Null,
    Flag(bool),
    Whole(u64),
    Text(String),
    List(Vec<serde_json::Value>),
    Fields(Vec<(String, serde_json::Value)>),
}

/// What one level and the values under it hold, fields in order.
pub open spec fn part_tree(p: Part) -> Tree {
    match p {
        Part::Null => Tree::Null,
        Part::Flag(b) => Tree::Bool(b),
        Part::Whole(n) => plain_number(n),
        Part::Text(s) => Tree::Text(s@),
        Part::List(v) => Tree::Array(v@.map_values(|x: serde_json::Value| drawn(contents(x)))),
        Part::Fields(v) => Tree::Object(in_order(drawn_fields(v@))),
    }
}

/// What fields that are put together hold, in the order they were given.
pub open spec fn drawn_fields(v: Seq<(String, serde_json::Value)>) -> Seq<(Seq<char>, Tree)> {
    v.map_values(|e: (String, serde_json::Value)| (e.0@, drawn(contents(e.1))))
}

/// Puts a [`serde_json::Value`] together by its variants. An object's entries
/// are collected into its `Map`, which keeps them in the order of their keys,
/// the last under each key. Of a number it is stated only which unsigned
/// integer it is.
#[verifier::external_body]
fn close_value(p: Part) -> (v: serde_json::Value)
    ensures
        drawn(contents(v)) == part_tree(p),
{
    match p {
        Part::Null => serde_json::Value::Null,
        Part::Flag(b) => serde_json::Value::Bool(b),
        Part::Whole(n) => serde_json::Value::from(n),
        Part::Text(s) => serde_json::Value::String(s),
        Part::List(v) => serde_json::Value::Array(v),
        Part::Fields(v) => serde_json::Value::Object(v.into_iter().collect()),
    }
}

/// What `serde_json::to_string` writes of a value all of whose numbers are
/// unsigned integers.
pub uninterp spec fn compact(t: Tree) -> Seq<char>;

/// What `serde_json::to_string_pretty` writes of a value all of whose numbers
/// are unsigned integers.
pub uninterp spec fn indented(t: Tree) -> Seq<char>;

/// `serde_json::to_string` of a [`serde_json::Value`], which does not fail.
/// What it writes is one line: a line break inside a text is escaped.
#[verifier::external_body]
fn write_compact(v: &serde_json::Value) -> (r: String)
    requires
        counts_only(drawn(contents(*v))),
    ensures
        r@ == compact(drawn(contents(*v))),
        !r@.contains('\n'),
{
    serde_json::to_string(v).unwrap_or_default()
}

/// `serde_json::to_string_pretty` of a [`serde_json::Value`], which does not
/// fail.
#[verifier::external_body]
fn write_indented(v: &serde_json::Value) -> (r: String)
    requires
        counts_only(drawn(contents(*v))),
    ensures
        r@ == indented(drawn(contents(*v))),
{
    serde_json::to_string_pretty(v).unwrap_or_default()
}

/// Ordering entries invents no value.
proof fn lemma_keyed_in(s: Seq<(Seq<char>, Tree)>, k: Seq<char>, v: Tree)
    requires
        forall|i: int| 0 <= i < s.len() ==> counts_only((#[trigger] s[i]).1),
        counts_only(v),
    ensures
        forall|i: int|
            0 <= i < keyed_in(s, k, v).len() ==> counts_only((#[trigger] keyed_in(s, k, v)[i]).1),
    decreases s.len(),
{
    let r = keyed_in(s, k, v);
    if s.len() > 0 {
        let front = s.drop_last();
        let last = s[s.len() - 1];
        assert(counts_only(last.1));
        assert forall|i: int| 0 <= i < front.len() implies counts_only((#[trigger] front[i]).1) by {
            assert(front[i] == s[i]);
        }
        lemma_keyed_in(front, k, v);
        let before = keyed_in(front, k, v);
        assert forall|i: int| 0 <= i < r.len() implies counts_only((#[trigger] r[i]).1) by {
            if last.0 == k {
                if i < front.len() {
                    assert(r[i] == front[i]);
                }
            } else if text_lt(last.0, k) {
                if i < s.len() {
                    assert(r[i] == s[i]);
                }
            } else if i < before.len() {
                assert(r[i] == before[i]);
            } else {
                assert(r[i] == last);
            }
        }
    }
}

/// Every number a document holds is an unsigned integer.
proof fn lemma_sheet(d: Doc)
    ensures
        counts_only(sheet(d)),
    decreases d, 0nat,
{
    match d {
        Doc::List(v) => {
            lemma_listed(v@, v@.len());
            let t = listed(v@, v@.len());
            assert(sheet(d) == Tree::Array(t));
            assert(counts_only(Tree::Array(t)));
        },
        Doc::Fields(v) => {
            lemma_ordered(v@, v@.len());
            let t = ordered(v@, v@.len());
            assert(sheet(d) == Tree::Object(t));
            assert(counts_only(Tree::Object(t)));
        },
        Doc::Whole(n) => {
            assert(counts_only(plain_number(n)));
        },
        _ => {},
    }
}

proof fn lemma_listed(v: Seq<Doc>, n: nat)
    requires
        n <= v.len(),
    ensures
        forall|i: int| 0 <= i < listed(v, n).len() ==> counts_only(#[trigger] listed(v, n)[i]),
    decreases v, n,
{
    if n > 0 {
        lemma_listed(v, (n - 1) as nat);
        lemma_sheet(v[n - 1]);
        let before = listed(v, (n - 1) as nat);
        assert forall|i: int| 0 <= i < listed(v, n).len() implies counts_only(
            #[trigger] listed(v, n)[i],
        ) by {
            if i < before.len() {
                assert(listed(v, n)[i] == before[i]);
            }
        }
    }
}

proof fn lemma_ordered(v: Seq<(String, Doc)>, n: nat)
    requires
        n <= v.len(),
    ensures
        forall|i: int|
            0 <= i < ordered(v, n).len() ==> counts_only((#[trigger] ordered(v, n)[i]).1),
    decreases v, n,
{
    if n > 0 {
        lemma_ordered(v, (n - 1) as nat);
        lemma_sheet(v[n - 1].1);
        lemma_keyed_in(ordered(v, (n - 1) as nat), v[n - 1].0@, sheet(v[n - 1].1));
    }
}

/// The first `n` of a list, seen as one sequence.
proof fn lemma_listed_is(v: Seq<Doc>, n: nat)
    requires
        n <= v.len(),
    ensures
        listed(v, n) == list_sheets(v.take(n as int)),
    decreases n,
{
    if n == 0 {
        assert(list_sheets(v.take(0)) =~= Seq::empty());
    } else {
        lemma_listed_is(v, (n - 1) as nat);
        assert(list_sheets(v.take(n as int)) =~= list_sheets(v.take(n - 1)).push(sheet(v[n - 1])));
    }
}

/// The first `n` fields, seen as one sequence.
proof fn lemma_ordered_is(v: Seq<(String, Doc)>, n: nat)
    requires
        n <= v.len(),
    ensures
        ordered(v, n) == in_order(sheets(v.take(n as int))),
    decreases n,
{
    if n == 0 {
        assert(sheets(v.take(0)) =~= Seq::empty());
    } else {
        lemma_ordered_is(v, (n - 1) as nat);
        let all = sheets(v.take(n as int));
        assert(all.drop_last() =~= sheets(v.take(n - 1)));
        assert(all.last() == (v[n - 1].0@, sheet(v[n - 1].1)));
    }
}

impl Doc {
    fn to_value(&self) -> (v: serde_json::Value)
        ensures
            drawn(contents(v)) == sheet(*self),
        decreases *self,
    {
        match self {
            Doc::Null => close_value(Part::Null),
            Doc::Flag(b) => close_value(Part::Flag(*b)),
            Doc::Whole(n) => close_value(Part::Whole(*n)),
            Doc::Text(s) => close_value(Part::Text(s.clone())),
            Doc::List(items) => {
                let mut out: Vec<serde_json::Value> = Vec::new();
                let mut i: usize = 0;
                while i < items.len()
                    invariant
                        i <= items@.len(),
                        *self == Doc::List(*items),
                        out@.len() == i,
                        forall|k: int|
                            0 <= k < i ==> drawn(contents(#[trigger] out@[k])) == sheet(items@[k]),
                    decreases items.len() - i,
                {
                    proof {
                        assert(decreases_to!(*self => self->List_0@[i as int]));
                    }
                    out.push(items[i].to_value());
                    i += 1;
                }
                proof {
                    lemma_listed_is(items@, items@.len());
                    assert(items@.take(items@.len() as int) =~= items@);
                    assert(part_tree(Part::List(out))->Array_0 =~= list_sheets(items@));
                }
                close_value(Part::List(out))
            },
            Doc::Fields(entries) => {
                let mut out: Vec<(String, serde_json::Value)> = Vec::new();
                let mut i: usize = 0;
                while i < entries.len()
                    invariant
                        i <= entries@.len(),
                        *self == Doc::Fields(*entries),
                        out@.len() == i,
                        forall|k: int|
                            0 <= k < i ==> (#[trigger] out@[k]).0@ == entries@[k].0@ && drawn(
                                contents(out@[k].1),
                            ) == sheet(entries@[k].1),
                    decreases entries.len() - i,
                {
                    proof {
                        assert(decreases_to!(*self => self->Fields_0@[i as int].1));
                    }
                    let x = entries[i].1.to_value();
                    out.push((entries[i].0.clone(), x));
                    i += 1;
                }
                proof {
                    lemma_ordered_is(entries@, entries@.len());
                    assert(entries@.take(entries@.len() as int) =~= entries@);
                    assert(drawn_fields(out@) =~= sheets(entries@));
                }
                close_value(Part::Fields(out))
            },
        }
    }

    /// The document on one line.
    pub fn line(&self) -> (r: String)
        ensures
            r@ == compact(sheet(*self)),
            !r@.contains('\n'),
    {
        let v = self.to_value();
        proof {
            lemma_sheet(*self);
        }
        write_compact(&v)
    }

    /// The document over several lines, indented.
    pub fn page(&self) -> (r: String)
        ensures
            r@ == indented(sheet(*self)),
    {
        let v = self.to_value();
        proof {
            lemma_sheet(*self);
        }
        write_indented(&v)
    }
}

/// What fields hold, in the order they were given.
pub open spec fn sheets(v: Seq<(String, Doc)>) -> Seq<(Seq<char>, Tree)> {
    v.map_values(|e: (String, Doc)| (e.0@, sheet(e.1)))
}

/// What a list holds.
pub open spec fn list_sheets(v: Seq<Doc>) -> Seq<Tree> {
    v.map_values(|d: Doc| sheet(d))
}

/// Fields, in the order they are written in.
pub open spec fn record(v: Seq<(Seq<char>, Tree)>) -> Tree {
    Tree::Object(in_order(v))
}

pub fn word(s: &str) -> (d: Doc)
    ensures
        sheet(d) == Tree::Text(s@),
{
    Doc::Text(s.to_owned())
}

pub fn whole(n: u64) -> (d: Doc)
    ensures
        sheet(d) == plain_number(n),
{
    Doc::Whole(n)
}

pub fn flag(b: bool) -> (d: Doc)
    ensures
        sheet(d) == Tree::Bool(b),
{
    Doc::Flag(b)
}

pub fn word_or_null(s: &Option<String>) -> (d: Doc)
    ensures
        sheet(d) == crate::json::text_or_null(crate::text::opt_text(*s)),
{
    match s {
        Some(t) => word(t.as_str()),
        None => Doc::Null,
    }
}

pub fn whole_or_null(n: Option<u64>) -> (d: Doc)
    ensures
        sheet(d) == crate::json::number_or_null(n),
{
    match n {
        Some(x) => whole(x),
        None => Doc::Null,
    }
}

pub fn list(items: Vec<Doc>) -> (d: Doc)
    ensures
        sheet(d) == Tree::Array(list_sheets(items@)),
{
    proof {
        lemma_listed_is(items@, items@.len());
        assert(items@.take(items@.len() as int) =~= items@);
    }
    Doc::List(items)
}

pub fn fields(entries: Vec<(String, Doc)>) -> (d: Doc)
    ensures
        sheet(d) == record(sheets(entries@)),
{
    proof {
        lemma_ordered_is(entries@, entries@.len());
        assert(entries@.take(entries@.len() as int) =~= entries@);
    }
    Doc::Fields(entries)
}

/// Puts one more field behind the others.
pub fn put(entries: &mut Vec<(String, Doc)>, key: &str, value: Doc)
    ensures
        sheets(final(entries)@) == sheets(old(entries)@).push((key@, sheet(value))),
{
    let ghost was = entries@;
    entries.push((key.to_owned(), value));
    proof {
        assert(sheets(entries@) =~= sheets(was).push((key@, sheet(value))));
    }
}

pub fn no_fields() -> (v: Vec<(String, Doc)>)
    ensures
        sheets(v@) == Seq::<(Seq<char>, Tree)>::empty(),
{
    let v: Vec<(String, Doc)> = Vec::new();
    proof {
        assert(sheets(v@) =~= Seq::<(Seq<char>, Tree)>::empty());
    }
    v
}

} // verus!
