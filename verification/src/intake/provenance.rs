//! Is this repo really a build of the model it claims to be?
//!
//! **It warns; it does not refuse.** A refusal is worked around by downloading
//! in a terminal, where there is no check at all, while a warning showing both
//! names side by side informs the person who can actually judge it.
use vstd::prelude::*;

use crate::inventory::identity::{canonical, canonical_name};
use crate::text::{cat2, cat3, cat5, chars, same, trim, trimmed};

verus! {

/// What the repo's own metadata says about its lineage.
#[derive(Debug, PartialEq, Eq)]
pub enum Finding {
    /// The repo declares a base model, and it is the one asked for.
    Declared { base_model: String },
    /// It declares one, and it is something else. The loudest case: the repo
    /// name and the metadata disagree, and the name is the one that lies.
    Mismatch { declared: String, expected: String },
    /// It declares nothing. Not proof of anything: most GGUF repos are
    /// converted by hand and never fill the field in.
    Undeclared { expected: String },
}

impl Clone for Finding {
    fn clone(&self) -> (r: Self)
        ensures
            r == *self,
    {
        match self {
            Finding::Declared { base_model } => Finding::Declared {
                base_model: base_model.clone(),
            },
            Finding::Mismatch { declared, expected } => Finding::Mismatch {
                declared: declared.clone(),
                expected: expected.clone(),
            },
            Finding::Undeclared { expected } => Finding::Undeclared { expected: expected.clone() },
        }
    }
}

/// A finding, in texts.
#[verifier::ext_equal]
pub enum Lineage {
    Declared { base_model: Seq<char> },
    Mismatch { declared: Seq<char>, expected: Seq<char> },
    Undeclared { expected: Seq<char> },
}

pub open spec fn lineage(f: Finding) -> Lineage {
    match f {
        Finding::Declared { base_model } => Lineage::Declared { base_model: base_model@ },
        Finding::Mismatch { declared, expected } => Lineage::Mismatch {
            declared: declared@,
            expected: expected@,
        },
        Finding::Undeclared { expected } => Lineage::Undeclared { expected: expected@ },
    }
}

/// One line, both names, no jargon.
pub open spec fn lineage_text(l: Lineage) -> Seq<char> {
    match l {
        Lineage::Declared { base_model } => "declares base_model "@ + base_model,
        Lineage::Mismatch { declared, expected } => "this repo declares base_model `"@ + declared
            + "`, but you asked for `"@ + expected
            + "` \u{2014} they are not builds of the same model"@,
        Lineage::Undeclared { expected } => if expected.len() == 0 {
            "this repo declares no base_model, so nothing says what it is a build of"@
        } else {
            "this repo declares no base_model, so nothing confirms it is a build of `"@ + expected
                + "`"@
        },
    }
}

impl Finding {
    /// Whether a person should be shown this before the bytes move.
    pub fn is_warning(&self) -> (r: bool)
        ensures
            r == !(*self is Declared),
    {
        match self {
            Finding::Declared { .. } => false,
            _ => true,
        }
    }

    /// One line, both names, no jargon.
    pub fn message(&self) -> (r: String)
        ensures
            r@ == lineage_text(lineage(*self)),
    {
        match self {
            Finding::Declared { base_model } => cat2("declares base_model ", base_model.as_str()),
            Finding::Mismatch { declared, expected } => cat5(
                "this repo declares base_model `",
                declared.as_str(),
                "`, but you asked for `",
                expected.as_str(),
                "` \u{2014} they are not builds of the same model",
            ),
            Finding::Undeclared { expected } => if chars(expected.as_str()).len() == 0 {
                "this repo declares no base_model, so nothing says what it is a build of".to_owned()
            } else {
                cat3(
                    "this repo declares no base_model, so nothing confirms it is a build of `",
                    expected.as_str(),
                    "`",
                )
            },
        }
    }
}

/// The text of an optional name.
pub open spec fn named(s: Option<&str>) -> Option<Seq<char>> {
    match s {
        Some(x) => Some(x@),
        None => None,
    }
}

/// The text of an optional name, nothing when there is none.
pub open spec fn or_nothing(s: Option<Seq<char>>) -> Seq<char> {
    match s {
        Some(x) => x,
        None => Seq::empty(),
    }
}

/// What a declaration comes to, against the model that was asked for by name.
pub open spec fn checked(declared: Option<Seq<char>>, expected: Option<Seq<char>>) -> Lineage {
    match declared {
        Some(d) => if trimmed(d).len() == 0 {
            Lineage::Undeclared { expected: or_nothing(expected) }
        } else {
            match expected {
                Some(want) => if canonical(d) == canonical(want) {
                    Lineage::Declared { base_model: d }
                } else {
                    Lineage::Mismatch { declared: d, expected: want }
                },
                None => Lineage::Declared { base_model: d },
            }
        },
        None => Lineage::Undeclared { expected: or_nothing(expected) },
    }
}

fn text_or_nothing(s: Option<&str>) -> (r: String)
    ensures
        r@ == or_nothing(named(s)),
{
    match s {
        Some(x) => x.to_owned(),
        None => {
            let r = String::new();
            proof {
                assert(r@ =~= Seq::empty());
            }
            r
        },
    }
}

/// What a repo declares, reported as a fact.
///
/// **`expected` is the model the *user* named, and is `None` when they named
/// none.** A mismatch is only reportable when there is something to mismatch
/// *with*: browsing has no such thing, and there the honest finding is "it
/// declares X" or "it declares nothing".
///
/// Both sides are canonicalised before comparison, because legitimate names
/// differ by publisher, format tag and quantisation in every real case.
pub fn check(declared: Option<&str>, expected: Option<&str>) -> (f: Finding)
    ensures
        lineage(f) == checked(named(declared), named(expected)),
{
    match declared {
        Some(d) => {
            if chars(trim(d).as_str()).len() == 0 {
                return Finding::Undeclared { expected: text_or_nothing(expected) };
            }
            match expected {
                Some(want) => if same(
                    canonical_name(d).as_str(),
                    canonical_name(want).as_str(),
                ) {
                    Finding::Declared { base_model: d.to_owned() }
                } else {
                    Finding::Mismatch { declared: d.to_owned(), expected: want.to_owned() }
                },
                None => Finding::Declared { base_model: d.to_owned() },
            }
        },
        None => Finding::Undeclared { expected: text_or_nothing(expected) },
    }
}

/// With nothing to compare it to, a declaration is a fact and never a
/// mismatch; and declaring nothing warns either way.
pub proof fn browsing_never_finds_a_mismatch(declared: Option<Seq<char>>)
    ensures
        !(checked(declared, None) is Mismatch),
        declared is None ==> checked(declared, None) is Undeclared,
{
}

} // verus!
