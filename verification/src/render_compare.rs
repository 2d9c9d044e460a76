//! Every provider that could serve one model, priced, with the resolver's own
//! pick marked.
//!
//! The marked row is whatever [`Decision`] the resolver returned: nothing here
//! re-derives a preference order, and *cheaper* is deliberately not the rule.
use vstd::prelude::*;

use crate::document::{
    compact, fields, flag, list, list_sheets, no_fields, put, record, sheet, sheets, whole,
    whole_or_null, word, Doc,
};
use crate::estimate::estimator::{Basis, Estimate};
use crate::fit::headroom;
use crate::intake::fit::basis_word;
use crate::inventory::artifact::Provenance;
use crate::json::{number_or_null, plain_number, Tree};
use crate::memory::Machine;
use crate::provider::{kind_text, State};
use crate::render::{bytes_text, human_bytes, size_text, widened};
use crate::resolve::decide::Decision;
use crate::resolve::identity::Candidate;
use crate::text::{
    cat2, cat3, cat4, cat5, cat6, cat7, chars, pad_left, pad_right, padded_left, padded_right,
    same, texts,
};

verus! {

/// One place this model could be served from, and what it would cost there.
#[derive(Debug)]
pub struct Priced {
    pub candidate: Candidate,
    pub estimate: Estimate,
}

fn basis_label(e: &Estimate) -> (s: &'static str)
    ensures
        s@ == basis_word(e.basis),
{
    match e.basis {
        Basis::Measured => "measured",
        Basis::Computed => "computed",
        Basis::Declared => "declared",
        Basis::Unknown => "unknown",
    }
}

/// What the row claims about admission. That a declared figure fits is not the
/// same claim as that a measurement does: it covers weights only.
pub open spec fn fit_word(p: Priced, room: nat) -> Seq<char> {
    if p.candidate.state == State::Loaded {
        "resident"@
    } else {
        match p.estimate.bytes {
            None => "unpriced"@,
            Some(b) => if p.estimate.basis == Basis::Unknown {
                "unpriced"@
            } else if b > room {
                "does not fit"@
            } else if p.estimate.basis == Basis::Declared {
                "fits on a floor"@
            } else {
                "fits"@
            },
        }
    }
}

fn fit_label(p: &Priced, room: u64) -> (s: &'static str)
    ensures
        s@ == fit_word(*p, room as nat),
{
    if p.candidate.state == State::Loaded {
        return "resident";
    }
    match p.estimate.bytes {
        None => "unpriced",
        Some(b) => if p.estimate.basis == Basis::Unknown {
            "unpriced"
        } else if b > room {
            "does not fit"
        } else if p.estimate.basis == Basis::Declared {
            "fits on a floor"
        } else {
            "fits"
        },
    }
}

pub open spec fn identity_word(c: Candidate) -> Seq<char> {
    match c.provenance {
        Provenance::Recorded => "reported"@,
        Provenance::Inferred { .. } => "inferred"@,
    }
}

fn identity_label(c: &Candidate) -> (s: &'static str)
    ensures
        s@ == identity_word(*c),
{
    match c.provenance {
        Provenance::Recorded => "reported",
        Provenance::Inferred { .. } => "inferred",
    }
}

/// Whether a row is the one the resolver picked: matched on the pair the
/// decision carries. A refusal marks nothing.
pub open spec fn picked(c: Candidate, d: Decision) -> bool {
    match d {
        Decision::Ready { provider, provider_model_id, .. } => kind_text(c.provider) == provider@
            && c.provider_model_id@ == provider_model_id@,
        _ => false,
    }
}

fn is_pick(c: &Candidate, d: &Decision) -> (r: bool)
    ensures
        r == picked(*c, *d),
{
    match d {
        Decision::Ready { provider, provider_model_id, .. } => same(
            c.provider.as_str(),
            provider.as_str(),
        ) && same(c.provider_model_id.as_str(), provider_model_id.as_str()),
        _ => false,
    }
}

/// How wide the column of ids is: as the longest, and at least eight.
pub open spec fn id_width(priced: Seq<Priced>) -> nat
    decreases priced.len(),
{
    if priced.len() == 0 {
        8
    } else {
        let before = id_width(priced.drop_last());
        let n = priced.last().candidate.provider_model_id@.len();
        if n > before {
            n
        } else {
            before
        }
    }
}

/// What stands behind the first two columns.
pub open spec fn tail_columns(
    id: Seq<char>,
    width: nat,
    price: Seq<char>,
    basis: Seq<char>,
    fit: Seq<char>,
    identity: Seq<char>,
) -> Seq<char> {
    padded_right(id, width) + "  "@ + padded_left(price, 8) + "  "@ + padded_right(basis, 10) + " "@
        + padded_right(fit, 15) + " "@ + identity + "\n"@
}

fn set_tail(id: &str, width: usize, price: &str, basis: &str, fit: &str, identity: &str) -> (s:
    String)
    ensures
        s@ == tail_columns(id@, width as nat, price@, basis@, fit@, identity@),
{
    let head = cat5(
        pad_right(id, width).as_str(),
        "  ",
        pad_left(price, 8).as_str(),
        "  ",
        pad_right(basis, 10).as_str(),
    );
    cat6(head.as_str(), " ", pad_right(fit, 15).as_str(), " ", identity, "\n")
}

/// The line of one candidate.
pub open spec fn candidate_text(p: Priced, width: nat, room: nat, d: Decision) -> Seq<char> {
    (if picked(p.candidate, d) {
        ">"@
    } else {
        " "@
    }) + " "@ + padded_right(kind_text(p.candidate.provider), 10) + " "@ + tail_columns(
        p.candidate.provider_model_id@,
        width,
        size_text(widened(p.estimate.bytes)),
        basis_word(p.estimate.basis),
        fit_word(p, room),
        identity_word(p.candidate),
    )
}

/// The lines of every candidate.
pub open spec fn candidates_text(priced: Seq<Priced>, width: nat, room: nat, d: Decision) -> Seq<
    char,
>
    decreases priced.len(),
{
    if priced.len() == 0 {
        Seq::empty()
    } else {
        candidates_text(priced.drop_last(), width, room, d) + candidate_text(
            priced.last(),
            width,
            room,
            d,
        )
    }
}

/// What the resolver would do.
pub open spec fn decision_text(d: Decision) -> Seq<char> {
    match d {
        Decision::Ready { .. } => "  > is where resolve would send this request\n"@,
        Decision::Wait { reason } => "  resolve would wait: "@ + reason@ + "\n"@,
        Decision::Deny { reason, .. } => "  resolve would refuse right now: "@ + reason@ + "\n"@,
    }
}

/// The whole menu. Nothing to compare is a sentence, not an empty table.
pub open spec fn menu_text(
    model: Seq<char>,
    priced: Seq<Priced>,
    machine: Machine,
    reserve: u64,
    d: Decision,
) -> Seq<char> {
    let room = headroom(machine, reserve);
    if priced.len() == 0 {
        "  no provider serves `"@ + model + "`\n"@
    } else {
        let width = id_width(priced);
        "  provider   "@ + tail_columns(
            "model id"@,
            width,
            "price"@,
            "basis"@,
            "fit"@,
            "identity"@,
        ) + candidates_text(priced, width, room, d) + ("  headroom   "@ + bytes_text(room) + "   ("@
            + bytes_text(machine.free()) + " free \u{2212} "@ + bytes_text(reserve as nat)
            + " reserve)\n"@) + decision_text(d)
    }
}

fn candidate_line(p: &Priced, width: usize, room: u64, d: &Decision) -> (s: String)
    ensures
        s@ == candidate_text(*p, width as nat, room as nat, *d),
{
    let mark = if is_pick(&p.candidate, d) {
        ">"
    } else {
        " "
    };
    let price = match p.estimate.bytes {
        Some(b) => human_bytes(b),
        None => "?".to_owned(),
    };
    let tail = set_tail(
        p.candidate.provider_model_id.as_str(),
        width,
        price.as_str(),
        basis_label(&p.estimate),
        fit_label(p, room),
        identity_label(&p.candidate),
    );
    cat5(
        mark,
        " ",
        pad_right(p.candidate.provider.as_str(), 10).as_str(),
        " ",
        tail.as_str(),
    )
}

/// Every provider that could serve a model, with the pick marked.
pub fn render(model: &str, priced: &[Priced], machine: &Machine, reserve: u64, d: &Decision) -> (out:
    String)
    ensures
        out@ == menu_text(model@, priced@, *machine, reserve, *d),
{
    let free = machine.free_bytes();
    let room = free.saturating_sub(reserve);
    if priced.len() == 0 {
        return cat3("  no provider serves `", model, "`\n");
    }
    let mut width: usize = 8;
    let mut i: usize = 0;
    while i < priced.len()
        invariant
            i <= priced@.len(),
            width == id_width(priced@.take(i as int)),
        decreases priced.len() - i,
    {
        proof {
            assert(priced@.take(i + 1).drop_last() =~= priced@.take(i as int));
        }
        let n = chars(priced[i].candidate.provider_model_id.as_str()).len();
        if n > width {
            width = n;
        }
        i += 1;
    }
    proof {
        assert(priced@.take(i as int) =~= priced@);
    }
    let mut lines = String::new();
    let mut k: usize = 0;
    proof {
        assert(lines@ =~= candidates_text(priced@.take(0), width as nat, room as nat, *d));
    }
    while k < priced.len()
        invariant
            k <= priced@.len(),
            lines@ == candidates_text(priced@.take(k as int), width as nat, room as nat, *d),
        decreases priced.len() - k,
    {
        proof {
            assert(priced@.take(k + 1).drop_last() =~= priced@.take(k as int));
        }
        lines = cat2(lines.as_str(), candidate_line(&priced[k], width, room, d).as_str());
        k += 1;
    }
    proof {
        assert(priced@.take(k as int) =~= priced@);
    }
    let head = cat2(
        "  provider   ",
        set_tail("model id", width, "price", "basis", "fit", "identity").as_str(),
    );
    let room_line = cat7(
        "  headroom   ",
        human_bytes(room).as_str(),
        "   (",
        human_bytes(free).as_str(),
        " free \u{2212} ",
        human_bytes(reserve).as_str(),
        " reserve)\n",
    );
    let last = match d {
        Decision::Ready { .. } => "  > is where resolve would send this request\n".to_owned(),
        Decision::Wait { reason } => cat3("  resolve would wait: ", reason.as_str(), "\n"),
        Decision::Deny { reason, .. } => cat3(
            "  resolve would refuse right now: ",
            reason.as_str(),
            "\n",
        ),
    };
    cat4(head.as_str(), lines.as_str(), room_line.as_str(), last.as_str())
}

/// A candidate in the document.
pub open spec fn candidate_tree(p: Priced, room: nat, d: Decision) -> Tree {
    record(
        seq![
            ("provider"@, Tree::Text(kind_text(p.candidate.provider))),
            ("provider_model_id"@, Tree::Text(p.candidate.provider_model_id@)),
            ("base_url"@, Tree::Text(p.candidate.url@)),
            ("resident"@, Tree::Bool(p.candidate.state == State::Loaded)),
            ("price_bytes"@, number_or_null(p.estimate.bytes)),
            ("basis"@, Tree::Text(basis_word(p.estimate.basis))),
            ("samples"@, plain_number(p.estimate.samples as u64)),
            ("fit"@, Tree::Text(fit_word(p, room))),
            ("identity"@, Tree::Text(identity_word(p.candidate))),
            ("pick"@, Tree::Bool(picked(p.candidate, d))),
        ],
    )
}

/// A decision in the document.
pub open spec fn decision_tree(d: Decision) -> Tree {
    record(
        match d {
            Decision::Ready { base_url, provider_model_id, provider, resident, inferred } => seq![
                ("status"@, Tree::Text("ready"@)),
                ("base_url"@, Tree::Text(base_url@)),
                ("provider_model_id"@, Tree::Text(provider_model_id@)),
                ("provider"@, Tree::Text(provider@)),
                ("resident"@, Tree::Bool(resident)),
                ("inferred"@, Tree::Bool(inferred)),
            ],
            Decision::Wait { reason } => seq![
                ("status"@, Tree::Text("wait"@)),
                ("reason"@, Tree::Text(reason@)),
            ],
            Decision::Deny { reason, alternatives } => seq![
                ("status"@, Tree::Text("deny"@)),
                ("reason"@, Tree::Text(reason@)),
                (
                    "alternatives"@,
                    Tree::Array(texts(alternatives@).map_values(|s: Seq<char>| Tree::Text(s))),
                ),
            ],
        },
    )
}

/// The whole document.
pub open spec fn menu_tree(
    model: Seq<char>,
    priced: Seq<Priced>,
    machine: Machine,
    reserve: u64,
    d: Decision,
) -> Tree {
    let room = headroom(machine, reserve);
    record(
        seq![
            ("schema"@, plain_number(1)),
            ("model"@, Tree::Text(model)),
            ("headroom_bytes"@, plain_number(room as u64)),
            ("reserve_bytes"@, plain_number(reserve)),
            (
                "candidates"@,
                Tree::Array(priced.map_values(|p: Priced| candidate_tree(p, room, d))),
            ),
            ("decision"@, decision_tree(d)),
        ],
    )
}

fn candidate_doc(p: &Priced, room: u64, d: &Decision) -> (r: Doc)
    ensures
        sheet(r) == candidate_tree(*p, room as nat, *d),
{
    let mut v = no_fields();
    put(&mut v, "provider", word(p.candidate.provider.as_str()));
    put(&mut v, "provider_model_id", word(p.candidate.provider_model_id.as_str()));
    put(&mut v, "base_url", word(p.candidate.url.as_str()));
    put(&mut v, "resident", flag(p.candidate.state == State::Loaded));
    put(&mut v, "price_bytes", whole_or_null(p.estimate.bytes));
    put(&mut v, "basis", word(basis_label(&p.estimate)));
    put(&mut v, "samples", whole(p.estimate.samples as u64));
    put(&mut v, "fit", word(fit_label(p, room)));
    put(&mut v, "identity", word(identity_label(&p.candidate)));
    put(&mut v, "pick", flag(is_pick(&p.candidate, d)));
    proof {
        assert(sheets(v@) =~= seq![
            ("provider"@, Tree::Text(kind_text(p.candidate.provider))),
            ("provider_model_id"@, Tree::Text(p.candidate.provider_model_id@)),
            ("base_url"@, Tree::Text(p.candidate.url@)),
            ("resident"@, Tree::Bool(p.candidate.state == State::Loaded)),
            ("price_bytes"@, number_or_null(p.estimate.bytes)),
            ("basis"@, Tree::Text(basis_word(p.estimate.basis))),
            ("samples"@, plain_number(p.estimate.samples as u64)),
            ("fit"@, Tree::Text(fit_word(*p, room as nat))),
            ("identity"@, Tree::Text(identity_word(p.candidate))),
            ("pick"@, Tree::Bool(picked(p.candidate, *d))),
        ]);
    }
    fields(v)
}

fn decision_doc(d: &Decision) -> (r: Doc)
    ensures
        sheet(r) == decision_tree(*d),
{
    let mut v = no_fields();
    match d {
        Decision::Ready { base_url, provider_model_id, provider, resident, inferred } => {
            put(&mut v, "status", word("ready"));
            put(&mut v, "base_url", word(base_url.as_str()));
            put(&mut v, "provider_model_id", word(provider_model_id.as_str()));
            put(&mut v, "provider", word(provider.as_str()));
            put(&mut v, "resident", flag(*resident));
            put(&mut v, "inferred", flag(*inferred));
            proof {
                assert(sheets(v@) =~= seq![
                    ("status"@, Tree::Text("ready"@)),
                    ("base_url"@, Tree::Text(base_url@)),
                    ("provider_model_id"@, Tree::Text(provider_model_id@)),
                    ("provider"@, Tree::Text(provider@)),
                    ("resident"@, Tree::Bool(*resident)),
                    ("inferred"@, Tree::Bool(*inferred)),
                ]);
            }
        },
        Decision::Wait { reason } => {
            put(&mut v, "status", word("wait"));
            put(&mut v, "reason", word(reason.as_str()));
            proof {
                assert(sheets(v@) =~= seq![
                    ("status"@, Tree::Text("wait"@)),
                    ("reason"@, Tree::Text(reason@)),
                ]);
            }
        },
        Decision::Deny { reason, alternatives } => {
            let ghost want = texts(alternatives@).map_values(|s: Seq<char>| Tree::Text(s));
            let mut items: Vec<Doc> = Vec::new();
            let mut i: usize = 0;
            proof {
                assert(list_sheets(items@) =~= want.take(0));
            }
            while i < alternatives.len()
                invariant
                    i <= alternatives@.len(),
                    want == texts(alternatives@).map_values(|s: Seq<char>| Tree::Text(s)),
                    list_sheets(items@) == want.take(i as int),
                decreases alternatives.len() - i,
            {
                let ghost was = items@;
                items.push(word(alternatives[i].as_str()));
                proof {
                    assert(list_sheets(items@) =~= list_sheets(was).push(want[i as int]));
                    assert(want.take(i + 1) =~= want.take(i as int).push(want[i as int]));
                }
                i += 1;
            }
            proof {
                assert(want.take(i as int) =~= want);
            }
            put(&mut v, "status", word("deny"));
            put(&mut v, "reason", word(reason.as_str()));
            put(&mut v, "alternatives", list(items));
            proof {
                assert(sheets(v@) =~= seq![
                    ("status"@, Tree::Text("deny"@)),
                    ("reason"@, Tree::Text(reason@)),
                    ("alternatives"@, Tree::Array(want)),
                ]);
            }
        },
    }
    fields(v)
}

/// The menu as a document with a schema of its own: a consumer that knows it
/// must not have to track the ledger's version.
pub fn render_json(
    model: &str,
    priced: &[Priced],
    machine: &Machine,
    reserve: u64,
    d: &Decision,
) -> (r: String)
    ensures
        r@ == compact(menu_tree(model@, priced@, *machine, reserve, *d)),
{
    let room = machine.free_bytes().saturating_sub(reserve);
    let ghost want = priced@.map_values(|p: Priced| candidate_tree(p, room as nat, *d));
    let mut rows: Vec<Doc> = Vec::new();
    let mut i: usize = 0;
    proof {
        assert(list_sheets(rows@) =~= want.take(0));
    }
    while i < priced.len()
        invariant
            i <= priced@.len(),
            want == priced@.map_values(|p: Priced| candidate_tree(p, room as nat, *d)),
            list_sheets(rows@) == want.take(i as int),
        decreases priced.len() - i,
    {
        let ghost was = rows@;
        let c = candidate_doc(&priced[i], room, d);
        rows.push(c);
        proof {
            assert(list_sheets(rows@) =~= list_sheets(was).push(want[i as int]));
            assert(want.take(i + 1) =~= want.take(i as int).push(want[i as int]));
        }
        i += 1;
    }
    proof {
        assert(want.take(i as int) =~= want);
    }
    let mut v = no_fields();
    put(&mut v, "schema", whole(1));
    put(&mut v, "model", word(model));
    put(&mut v, "headroom_bytes", whole(room));
    put(&mut v, "reserve_bytes", whole(reserve));
    put(&mut v, "candidates", list(rows));
    put(&mut v, "decision", decision_doc(d));
    proof {
        assert(sheets(v@) =~= seq![
            ("schema"@, plain_number(1)),
            ("model"@, Tree::Text(model@)),
            ("headroom_bytes"@, plain_number(room)),
            ("reserve_bytes"@, plain_number(reserve)),
            ("candidates"@, Tree::Array(want)),
            ("decision"@, decision_tree(*d)),
        ]);
    }
    fields(v).line()
}

/// A refusal marks no row at all.
pub proof fn a_refusal_marks_nothing(c: Candidate, d: Decision)
    requires
        !(d is Ready),
    ensures
        !picked(c, d),
{
}

} // verus!
