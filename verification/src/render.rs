//! What `status` and its kin print.
use vstd::prelude::*;

use crate::document::{
    fields, flag, list, list_sheets, no_fields, put, record, sheet, whole, whole_or_null, word,
    word_or_null, Doc,
};
use crate::json::{number_or_null, plain_number, text_or_null, Tree};
use crate::ledger::{resident_of, weights_of, Ledger, Outcome, ProviderRow};
use crate::memory::{Machine, ProcessSample};
use crate::pins::{about, blame_text, Pin, Pins};
use crate::provider::{
    kind_text, probe_text, Actuation, LoadedModel, ProbeError, ProviderKind, State,
};
use crate::rounding::{binary_tenths, show_binary_tenths, whole_percent};
use crate::seqs::total;
use crate::text::{
    cat2, cat3, cat4, cat5, cat6, cat7, decimal, join, joined, number, opt_text, pad_left,
    pad_right, padded_left, padded_right, repeat, run_of, texts,
};

verus! {

/// A size in binary units, with one decimal above a kibibyte.
pub open spec fn bytes_text(b: nat) -> Seq<char> {
    if b >= 0x100_0000_0000 {
        binary_tenths(b, 0x100_0000_0000) + "T"@
    } else if b >= 0x4000_0000 {
        binary_tenths(b, 0x4000_0000) + "G"@
    } else if b >= 0x10_0000 {
        binary_tenths(b, 0x10_0000) + "M"@
    } else if b >= 0x400 {
        binary_tenths(b, 0x400) + "K"@
    } else {
        decimal(b) + "B"@
    }
}

/// Binary units, so that a machine sold with 24 GB reads as the 24.0G everyone
/// calls it.
pub fn human_bytes(b: u64) -> (r: String)
    ensures
        r@ == bytes_text(b as nat),
{
    if b >= 0x100_0000_0000 {
        cat2(show_binary_tenths(b, 0x100_0000_0000).as_str(), "T")
    } else if b >= 0x4000_0000 {
        cat2(show_binary_tenths(b, 0x4000_0000).as_str(), "G")
    } else if b >= 0x10_0000 {
        cat2(show_binary_tenths(b, 0x10_0000).as_str(), "M")
    } else if b >= 0x400 {
        cat2(show_binary_tenths(b, 0x400).as_str(), "K")
    } else {
        cat2(number(b).as_str(), "B")
    }
}

/// A size, or a question mark where it is not known.
pub open spec fn size_text(b: Option<nat>) -> Seq<char> {
    match b {
        Some(n) => bytes_text(n),
        None => "?"@,
    }
}

/// A size of 64 bits as a number.
pub open spec fn widened(b: Option<u64>) -> Option<nat> {
    match b {
        Some(n) => Some(n as nat),
        None => None,
    }
}

fn size_said(b: Option<u64>) -> (s: String)
    ensures
        s@ == size_text(widened(b)),
{
    match b {
        Some(n) => human_bytes(n),
        None => "?".to_owned(),
    }
}

/// The columns of the table: the first to the left, the others to the right.
pub open spec fn columns(
    a: Seq<char>,
    b: Seq<char>,
    c: Seq<char>,
    d: Seq<char>,
    e: Seq<char>,
) -> Seq<char> {
    padded_right(a, 10) + " "@ + padded_left(b, 7) + " "@ + padded_left(c, 11) + " "@ + padded_left(
        d,
        9,
    ) + " "@ + padded_left(e, 8) + "\n"@
}

fn set_columns(a: &str, b: &str, c: &str, d: &str, e: &str) -> (s: String)
    ensures
        s@ == columns(a@, b@, c@, d@, e@),
{
    let head = cat5(
        pad_right(a, 10).as_str(),
        " ",
        pad_left(b, 7).as_str(),
        " ",
        pad_left(c, 11).as_str(),
    );
    cat6(
        head.as_str(),
        " ",
        pad_left(d, 9).as_str(),
        " ",
        pad_left(e, 8).as_str(),
        "\n",
    )
}

/// What a provider costs beyond the weights it holds.
pub open spec fn gap_text(gap: Option<nat>) -> Seq<char> {
    match gap {
        Some(g) => "+"@ + bytes_text(g),
        None => "?"@,
    }
}

/// The line of a provider. One that is down shows no numbers.
pub open spec fn row_text(r: ProviderRow) -> Seq<char> {
    match r.outcome {
        Outcome::Failed(e) => padded_right(kind_text(r.kind), 10) + " "@ + padded_left(
            "\u{2014}"@,
            7,
        ) + " "@ + probe_text(e) + "\n"@,
        Outcome::Answered(_) => columns(
            kind_text(r.kind),
            decimal(resident_of(r.outcome).len()),
            size_text(widened(r.footprint_bytes)),
            size_text(weights_of(resident_of(r.outcome))),
            gap_text(r.gap()),
        ),
    }
}

/// The lines of providers.
pub open spec fn rows_text(rows: Seq<ProviderRow>) -> Seq<char>
    decreases rows.len(),
{
    if rows.len() == 0 {
        Seq::empty()
    } else {
        rows_text(rows.drop_last()) + row_text(rows.last())
    }
}

/// The line of the machine.
pub open spec fn machine_text(m: Machine) -> Seq<char> {
    padded_right("machine"@, 10) + " "@ + bytes_text(m.total_bytes as nat) + " total \u{b7} "@
        + decimal(whole_percent(m.free(), m.total_bytes as nat)) + "% free \u{b7} swap "@
        + bytes_text(m.swap_used_bytes as nat) + " used\n"@
}

/// The line of what is protected: nothing when nothing is, and what is only
/// leased told apart from what is pinned.
pub open spec fn held_text(pins: Seq<Pin>, now: u64) -> Seq<char> {
    if pins.len() == 0 {
        Seq::empty()
    } else {
        padded_right(
            if exists|i: int| 0 <= i < pins.len() && (#[trigger] pins[i]).expires_at is Some {
                "held"@
            } else {
                "pinned"@
            },
            10,
        ) + " "@ + joined(pins.map_values(|p: Pin| blame_text(p, now)), " \u{b7} "@) + "\n"@
    }
}

/// The whole table.
pub open spec fn table_text(ledger: Ledger, pins: Seq<Pin>, now: u64) -> Seq<char> {
    columns("provider"@, "loaded"@, "footprint"@, "weights"@, "gap"@) + rows_text(ledger.rows@)
        + run_of('\u{2500}', 50) + "\n"@ + (padded_right("providers"@, 10) + " "@ + padded_left(
        ""@,
        7,
    ) + " "@ + padded_left(size_text(ledger.footprint()), 11) + "\n"@) + machine_text(
        ledger.machine,
    ) + held_text(pins, now)
}

fn row_line(row: &ProviderRow) -> (s: String)
    requires
        row.countable(),
    ensures
        s@ == row_text(*row),
{
    match &row.outcome {
        Outcome::Failed(e) => cat6(
            pad_right(row.kind.as_str(), 10).as_str(),
            " ",
            pad_left("\u{2014}", 7).as_str(),
            " ",
            e.message().as_str(),
            "\n",
        ),
        Outcome::Answered(_) => {
            let loaded = row.loaded();
            proof {
                assert(loaded@.unref().len() == loaded@.len());
            }
            let gap = match row.gap_bytes() {
                Some(g) => cat2("+", human_bytes(g).as_str()),
                None => "?".to_owned(),
            };
            set_columns(
                row.kind.as_str(),
                number(loaded.len() as u64).as_str(),
                size_said(row.footprint_bytes).as_str(),
                size_said(row.weights_bytes()).as_str(),
                gap.as_str(),
            )
        },
    }
}

fn held_line(pins: &[Pin], now: u64) -> (s: String)
    ensures
        s@ == held_text(pins@, now),
{
    if pins.len() == 0 {
        let none = String::new();
        proof {
            assert(none@ =~= Seq::empty());
        }
        return none;
    }
    let ghost want = pins@.map_values(|p: Pin| blame_text(p, now));
    let mut said: Vec<String> = Vec::new();
    let mut leased = false;
    let mut i: usize = 0;
    proof {
        assert(texts(said@) =~= want.take(0));
    }
    while i < pins.len()
        invariant
            i <= pins@.len(),
            want == pins@.map_values(|p: Pin| blame_text(p, now)),
            texts(said@) == want.take(i as int),
            leased == exists|k: int| 0 <= k < i && (#[trigger] pins@[k]).expires_at is Some,
        decreases pins.len() - i,
    {
        let ghost was = said@;
        if pins[i].expires_at.is_some() {
            proof {
                assert(pins@[i as int].expires_at is Some);
            }
            leased = true;
        }
        said.push(pins[i].blame(now));
        proof {
            assert(texts(said@) =~= texts(was).push(want[i as int]));
            assert(want.take(i + 1) =~= want.take(i as int).push(want[i as int]));
        }
        i += 1;
    }
    proof {
        assert(want.take(i as int) =~= want);
    }
    let label = if leased {
        "held"
    } else {
        "pinned"
    };
    cat4(pad_right(label, 10).as_str(), " ", join(&said, " \u{b7} ").as_str(), "\n")
}

/// What the ledger says, one line a provider.
pub fn render_table(ledger: &Ledger, pins: &Pins, now: u64) -> (out: String)
    requires
        ledger.countable(),
        forall|i: int| 0 <= i < ledger.rows@.len() ==> (#[trigger] ledger.rows@[i]).countable(),
    ensures
        out@ == table_text(*ledger, pins@, now),
{
    let head = set_columns("provider", "loaded", "footprint", "weights", "gap");
    let mut rows = String::new();
    let mut i: usize = 0;
    proof {
        assert(rows@ =~= rows_text(ledger.rows@.take(0)));
    }
    while i < ledger.rows.len()
        invariant
            i <= ledger.rows@.len(),
            forall|k: int|
                0 <= k < ledger.rows@.len() ==> (#[trigger] ledger.rows@[k]).countable(),
            rows@ == rows_text(ledger.rows@.take(i as int)),
        decreases ledger.rows.len() - i,
    {
        proof {
            assert(ledger.rows@.take(i + 1).drop_last() =~= ledger.rows@.take(i as int));
        }
        rows = cat2(rows.as_str(), row_line(&ledger.rows[i]).as_str());
        i += 1;
    }
    proof {
        assert(ledger.rows@.take(i as int) =~= ledger.rows@);
    }
    let sum = cat6(
        pad_right("providers", 10).as_str(),
        " ",
        pad_left("", 7).as_str(),
        " ",
        pad_left(size_said(ledger.total_footprint_bytes()).as_str(), 11).as_str(),
        "\n",
    );
    let m = &ledger.machine;
    let left = cat6(
        pad_right("machine", 10).as_str(),
        " ",
        human_bytes(m.total_bytes).as_str(),
        " total \u{b7} ",
        number(m.free_percent()).as_str(),
        "% free \u{b7} swap ",
    );
    let machine = cat3(left.as_str(), human_bytes(m.swap_used_bytes).as_str(), " used\n");
    cat7(
        head.as_str(),
        rows.as_str(),
        repeat('\u{2500}', 50).as_str(),
        "\n",
        sum.as_str(),
        machine.as_str(),
        held_line(pins.all(), now).as_str(),
    )
}

/// What a state is called.
pub open spec fn state_word(s: State) -> Seq<char> {
    match s {
        State::Loaded => "loaded"@,
        State::Loading => "loading"@,
        State::NotLoaded => "not-loaded"@,
    }
}

pub open spec fn context_tree(n: Option<u32>) -> Tree {
    match n {
        Some(x) => plain_number(x as u64),
        None => Tree::Null,
    }
}

/// A model in the document, and whether it is protected: a consumer reading a
/// row never has to join two collections to know whether it may be evicted.
pub open spec fn model_tree(m: LoadedModel, kind: ProviderKind, pins: Seq<Pin>) -> Tree {
    record(
        seq![
            ("id"@, Tree::Text(m.id@)),
            ("state"@, Tree::Text(state_word(m.state))),
            ("context_tokens"@, context_tree(m.context_tokens)),
            ("weights_bytes"@, number_or_null(m.weights_bytes)),
            ("expires_at_unix"@, number_or_null(m.expires_at_unix)),
            ("model_type"@, text_or_null(opt_text(m.model_type))),
            ("artifact_path"@, text_or_null(opt_text(m.artifact_path))),
            ("pinned"@, Tree::Bool(pins.any(|p: Pin| about(p, kind, m.id@)))),
        ],
    )
}

/// A failed probe in the document.
pub open spec fn error_tree(e: ProbeError) -> Tree {
    record(
        match e {
            ProbeError::NotListening => seq![("error"@, Tree::Text("not-listening"@))],
            ProbeError::Timeout => seq![("error"@, Tree::Text("timeout"@))],
            ProbeError::Status { code } => seq![
                ("error"@, Tree::Text("status"@)),
                ("code"@, plain_number(code as u64)),
            ],
            ProbeError::Malformed { reason } => seq![
                ("error"@, Tree::Text("malformed"@)),
                ("reason"@, Tree::Text(reason@)),
            ],
            ProbeError::KindMismatch { expected } => seq![
                ("error"@, Tree::Text("kind-mismatch"@)),
                ("expected"@, Tree::Text(kind_text(expected))),
            ],
        },
    )
}

/// A provider's answer in the document.
pub open spec fn outcome_tree(o: Outcome, kind: ProviderKind, pins: Seq<Pin>) -> Tree {
    record(
        match o {
            Outcome::Answered(models) => seq![
                ("status"@, Tree::Text("ok"@)),
                (
                    "detail"@,
                    Tree::Array(models@.map_values(|m: LoadedModel| model_tree(m, kind, pins))),
                ),
            ],
            Outcome::Failed(e) => seq![
                ("status"@, Tree::Text("failed"@)),
                ("detail"@, error_tree(e)),
            ],
        },
    )
}

pub open spec fn process_tree(p: ProcessSample) -> Tree {
    record(
        seq![
            ("pid"@, plain_number(p.pid as u64)),
            ("footprint_bytes"@, plain_number(p.footprint_bytes)),
            ("phys_footprint_bytes"@, number_or_null(p.phys_footprint_bytes)),
            ("rss_bytes"@, number_or_null(p.rss_bytes)),
        ],
    )
}

/// A provider's row in the document.
pub open spec fn row_tree(r: ProviderRow, pins: Seq<Pin>) -> Tree {
    record(
        seq![
            ("kind"@, Tree::Text(kind_text(r.kind))),
            ("url"@, Tree::Text(r.url@)),
            ("outcome"@, outcome_tree(r.outcome, r.kind, pins)),
            ("pids"@, Tree::Array(r.pids@.map_values(|n: u32| plain_number(n as u64)))),
            ("footprint_bytes"@, number_or_null(r.footprint_bytes)),
            ("phys_footprint_bytes"@, number_or_null(r.phys_footprint_bytes)),
            ("rss_bytes"@, number_or_null(r.rss_bytes)),
            (
                "processes"@,
                Tree::Array(r.processes@.map_values(|p: ProcessSample| process_tree(p))),
            ),
        ],
    )
}

pub open spec fn machine_tree(m: Machine) -> Tree {
    record(
        seq![
            ("total_bytes"@, plain_number(m.total_bytes)),
            ("used_bytes"@, plain_number(m.used_bytes)),
            ("swap_total_bytes"@, plain_number(m.swap_total_bytes)),
            ("swap_used_bytes"@, plain_number(m.swap_used_bytes)),
        ],
    )
}

/// The fields of a pin that are there.
pub open spec fn pin_fields(p: Pin) -> Seq<(Seq<char>, Tree)> {
    let a = seq![
        ("provider"@, Tree::Text(kind_text(p.provider))),
        ("model"@, Tree::Text(p.model@)),
        ("at"@, plain_number(p.at)),
    ];
    let b = match p.note {
        Some(n) => a.push(("note"@, Tree::Text(n@))),
        None => a,
    };
    let c = match p.owner {
        Some(o) => b.push(("owner"@, Tree::Text(o@))),
        None => b,
    };
    match p.expires_at {
        Some(e) => c.push(("expires_at"@, plain_number(e))),
        None => c,
    }
}

pub open spec fn pin_tree(p: Pin) -> Tree {
    record(pin_fields(p))
}

/// The whole document. Beside the flag on each model stands the list of pins:
/// a pin outlives an unload, so "protected, not currently loaded" is a state
/// with no row to carry it.
pub open spec fn ledger_tree(ledger: Ledger, pins: Seq<Pin>) -> Tree {
    record(
        seq![
            ("schema"@, plain_number(ledger.schema_version as u64)),
            ("machine"@, machine_tree(ledger.machine)),
            ("rows"@, Tree::Array(ledger.rows@.map_values(|r: ProviderRow| row_tree(r, pins)))),
            ("pins"@, Tree::Array(pins.map_values(|p: Pin| pin_tree(p)))),
        ],
    )
}

fn model_doc(m: &LoadedModel, kind: ProviderKind, pins: &Pins) -> (d: Doc)
    ensures
        sheet(d) == model_tree(*m, kind, pins@),
{
    let mut e = no_fields();
    put(&mut e, "id", word(m.id.as_str()));
    put(
        &mut e,
        "state",
        word(
            match m.state {
                State::Loaded => "loaded",
                State::Loading => "loading",
                State::NotLoaded => "not-loaded",
            },
        ),
    );
    put(
        &mut e,
        "context_tokens",
        match m.context_tokens {
            Some(n) => whole(n as u64),
            None => Doc::Null,
        },
    );
    put(&mut e, "weights_bytes", whole_or_null(m.weights_bytes));
    put(&mut e, "expires_at_unix", whole_or_null(m.expires_at_unix));
    put(&mut e, "model_type", word_or_null(&m.model_type));
    put(&mut e, "artifact_path", word_or_null(&m.artifact_path));
    put(&mut e, "pinned", flag(pins.is_pinned(kind, m.id.as_str())));
    let d = fields(e);
    proof {
        assert(crate::document::sheets(e@) =~= seq![
            ("id"@, Tree::Text(m.id@)),
            ("state"@, Tree::Text(state_word(m.state))),
            ("context_tokens"@, context_tree(m.context_tokens)),
            ("weights_bytes"@, number_or_null(m.weights_bytes)),
            ("expires_at_unix"@, number_or_null(m.expires_at_unix)),
            ("model_type"@, text_or_null(opt_text(m.model_type))),
            ("artifact_path"@, text_or_null(opt_text(m.artifact_path))),
            ("pinned"@, Tree::Bool(pins@.any(|p: Pin| about(p, kind, m.id@)))),
        ]);
    }
    d
}

fn error_doc(e: &ProbeError) -> (d: Doc)
    ensures
        sheet(d) == error_tree(*e),
{
    let mut v = no_fields();
    match e {
        ProbeError::NotListening => {
            put(&mut v, "error", word("not-listening"));
            proof {
                assert(crate::document::sheets(v@) =~= seq![
                    ("error"@, Tree::Text("not-listening"@)),
                ]);
            }
        },
        ProbeError::Timeout => {
            put(&mut v, "error", word("timeout"));
            proof {
                assert(crate::document::sheets(v@) =~= seq![("error"@, Tree::Text("timeout"@))]);
            }
        },
        ProbeError::Status { code } => {
            put(&mut v, "error", word("status"));
            put(&mut v, "code", whole(*code as u64));
            proof {
                assert(crate::document::sheets(v@) =~= seq![
                    ("error"@, Tree::Text("status"@)),
                    ("code"@, plain_number(*code as u64)),
                ]);
            }
        },
        ProbeError::Malformed { reason } => {
            put(&mut v, "error", word("malformed"));
            put(&mut v, "reason", word(reason.as_str()));
            proof {
                assert(crate::document::sheets(v@) =~= seq![
                    ("error"@, Tree::Text("malformed"@)),
                    ("reason"@, Tree::Text(reason@)),
                ]);
            }
        },
        ProbeError::KindMismatch { expected } => {
            put(&mut v, "error", word("kind-mismatch"));
            put(&mut v, "expected", word(expected.as_str()));
            proof {
                assert(crate::document::sheets(v@) =~= seq![
                    ("error"@, Tree::Text("kind-mismatch"@)),
                    ("expected"@, Tree::Text(kind_text(*expected))),
                ]);
            }
        },
    }
    fields(v)
}

fn outcome_doc(o: &Outcome, kind: ProviderKind, pins: &Pins) -> (d: Doc)
    ensures
        sheet(d) == outcome_tree(*o, kind, pins@),
{
    let mut v = no_fields();
    match o {
        Outcome::Answered(models) => {
            let ghost want = models@.map_values(|m: LoadedModel| model_tree(m, kind, pins@));
            let mut items: Vec<Doc> = Vec::new();
            let mut i: usize = 0;
            proof {
                assert(list_sheets(items@) =~= want.take(0));
            }
            while i < models.len()
                invariant
                    i <= models@.len(),
                    want == models@.map_values(|m: LoadedModel| model_tree(m, kind, pins@)),
                    list_sheets(items@) == want.take(i as int),
                decreases models.len() - i,
            {
                let ghost was = items@;
                let d = model_doc(&models[i], kind, pins);
                items.push(d);
                proof {
                    assert(list_sheets(items@) =~= list_sheets(was).push(want[i as int]));
                    assert(want.take(i + 1) =~= want.take(i as int).push(want[i as int]));
                }
                i += 1;
            }
            proof {
                assert(want.take(i as int) =~= want);
            }
            put(&mut v, "status", word("ok"));
            put(&mut v, "detail", list(items));
            proof {
                assert(crate::document::sheets(v@) =~= seq![
                    ("status"@, Tree::Text("ok"@)),
                    ("detail"@, Tree::Array(want)),
                ]);
            }
        },
        Outcome::Failed(e) => {
            put(&mut v, "status", word("failed"));
            put(&mut v, "detail", error_doc(e));
            proof {
                assert(crate::document::sheets(v@) =~= seq![
                    ("status"@, Tree::Text("failed"@)),
                    ("detail"@, error_tree(*e)),
                ]);
            }
        },
    }
    fields(v)
}

fn process_doc(p: &ProcessSample) -> (d: Doc)
    ensures
        sheet(d) == process_tree(*p),
{
    let mut v = no_fields();
    put(&mut v, "pid", whole(p.pid as u64));
    put(&mut v, "footprint_bytes", whole(p.footprint_bytes));
    put(&mut v, "phys_footprint_bytes", whole_or_null(p.phys_footprint_bytes));
    put(&mut v, "rss_bytes", whole_or_null(p.rss_bytes));
    proof {
        assert(crate::document::sheets(v@) =~= seq![
            ("pid"@, plain_number(p.pid as u64)),
            ("footprint_bytes"@, plain_number(p.footprint_bytes)),
            ("phys_footprint_bytes"@, number_or_null(p.phys_footprint_bytes)),
            ("rss_bytes"@, number_or_null(p.rss_bytes)),
        ]);
    }
    fields(v)
}

fn processes_doc(ps: &Vec<ProcessSample>) -> (d: Doc)
    ensures
        sheet(d) == Tree::Array(ps@.map_values(|p: ProcessSample| process_tree(p))),
{
    let ghost want = ps@.map_values(|p: ProcessSample| process_tree(p));
    let mut items: Vec<Doc> = Vec::new();
    let mut i: usize = 0;
    proof {
        assert(list_sheets(items@) =~= want.take(0));
    }
    while i < ps.len()
        invariant
            i <= ps@.len(),
            want == ps@.map_values(|p: ProcessSample| process_tree(p)),
            list_sheets(items@) == want.take(i as int),
        decreases ps.len() - i,
    {
        let ghost was = items@;
        let d = process_doc(&ps[i]);
        items.push(d);
        proof {
            assert(list_sheets(items@) =~= list_sheets(was).push(want[i as int]));
            assert(want.take(i + 1) =~= want.take(i as int).push(want[i as int]));
        }
        i += 1;
    }
    proof {
        assert(want.take(i as int) =~= want);
    }
    list(items)
}

fn pids_doc(ps: &Vec<u32>) -> (d: Doc)
    ensures
        sheet(d) == Tree::Array(ps@.map_values(|n: u32| plain_number(n as u64))),
{
    let ghost want = ps@.map_values(|n: u32| plain_number(n as u64));
    let mut items: Vec<Doc> = Vec::new();
    let mut i: usize = 0;
    proof {
        assert(list_sheets(items@) =~= want.take(0));
    }
    while i < ps.len()
        invariant
            i <= ps@.len(),
            want == ps@.map_values(|n: u32| plain_number(n as u64)),
            list_sheets(items@) == want.take(i as int),
        decreases ps.len() - i,
    {
        let ghost was = items@;
        items.push(whole(ps[i] as u64));
        proof {
            assert(list_sheets(items@) =~= list_sheets(was).push(want[i as int]));
            assert(want.take(i + 1) =~= want.take(i as int).push(want[i as int]));
        }
        i += 1;
    }
    proof {
        assert(want.take(i as int) =~= want);
    }
    list(items)
}

fn row_doc(r: &ProviderRow, pins: &Pins) -> (d: Doc)
    ensures
        sheet(d) == row_tree(*r, pins@),
{
    let mut v = no_fields();
    put(&mut v, "kind", word(r.kind.as_str()));
    put(&mut v, "url", word(r.url.as_str()));
    put(&mut v, "outcome", outcome_doc(&r.outcome, r.kind, pins));
    put(&mut v, "pids", pids_doc(&r.pids));
    put(&mut v, "footprint_bytes", whole_or_null(r.footprint_bytes));
    put(&mut v, "phys_footprint_bytes", whole_or_null(r.phys_footprint_bytes));
    put(&mut v, "rss_bytes", whole_or_null(r.rss_bytes));
    put(&mut v, "processes", processes_doc(&r.processes));
    proof {
        assert(crate::document::sheets(v@) =~= seq![
            ("kind"@, Tree::Text(kind_text(r.kind))),
            ("url"@, Tree::Text(r.url@)),
            ("outcome"@, outcome_tree(r.outcome, r.kind, pins@)),
            ("pids"@, Tree::Array(r.pids@.map_values(|n: u32| plain_number(n as u64)))),
            ("footprint_bytes"@, number_or_null(r.footprint_bytes)),
            ("phys_footprint_bytes"@, number_or_null(r.phys_footprint_bytes)),
            ("rss_bytes"@, number_or_null(r.rss_bytes)),
            (
                "processes"@,
                Tree::Array(r.processes@.map_values(|p: ProcessSample| process_tree(p))),
            ),
        ]);
    }
    fields(v)
}

fn machine_doc(m: &Machine) -> (d: Doc)
    ensures
        sheet(d) == machine_tree(*m),
{
    let mut v = no_fields();
    put(&mut v, "total_bytes", whole(m.total_bytes));
    put(&mut v, "used_bytes", whole(m.used_bytes));
    put(&mut v, "swap_total_bytes", whole(m.swap_total_bytes));
    put(&mut v, "swap_used_bytes", whole(m.swap_used_bytes));
    proof {
        assert(crate::document::sheets(v@) =~= seq![
            ("total_bytes"@, plain_number(m.total_bytes)),
            ("used_bytes"@, plain_number(m.used_bytes)),
            ("swap_total_bytes"@, plain_number(m.swap_total_bytes)),
            ("swap_used_bytes"@, plain_number(m.swap_used_bytes)),
        ]);
    }
    fields(v)
}

fn pin_doc(p: &Pin) -> (d: Doc)
    ensures
        sheet(d) == pin_tree(*p),
{
    let mut v = no_fields();
    put(&mut v, "provider", word(p.provider.as_str()));
    put(&mut v, "model", word(p.model.as_str()));
    put(&mut v, "at", whole(p.at));
    proof {
        assert(crate::document::sheets(v@) =~= seq![
            ("provider"@, Tree::Text(kind_text(p.provider))),
            ("model"@, Tree::Text(p.model@)),
            ("at"@, plain_number(p.at)),
        ]);
    }
    if let Some(n) = &p.note {
        put(&mut v, "note", word(n.as_str()));
    }
    if let Some(o) = &p.owner {
        put(&mut v, "owner", word(o.as_str()));
    }
    if let Some(e) = p.expires_at {
        put(&mut v, "expires_at", whole(e));
    }
    proof {
        assert(crate::document::sheets(v@) =~= pin_fields(*p));
    }
    fields(v)
}

/// The ledger as a document for another program.
///
/// `pinned` is added per model rather than as a separate list alone. Additive:
/// the document's schema does not move.
pub fn render_json(ledger: &Ledger, pins: &Pins) -> (r: String)
    ensures
        r@ == crate::document::indented(ledger_tree(*ledger, pins@)),
{
    let ghost want = ledger.rows@.map_values(|r: ProviderRow| row_tree(r, pins@));
    let mut rows: Vec<Doc> = Vec::new();
    let mut i: usize = 0;
    proof {
        assert(list_sheets(rows@) =~= want.take(0));
    }
    while i < ledger.rows.len()
        invariant
            i <= ledger.rows@.len(),
            want == ledger.rows@.map_values(|r: ProviderRow| row_tree(r, pins@)),
            list_sheets(rows@) == want.take(i as int),
        decreases ledger.rows.len() - i,
    {
        let ghost was = rows@;
        let d = row_doc(&ledger.rows[i], pins);
        rows.push(d);
        proof {
            assert(list_sheets(rows@) =~= list_sheets(was).push(want[i as int]));
            assert(want.take(i + 1) =~= want.take(i as int).push(want[i as int]));
        }
        i += 1;
    }
    proof {
        assert(want.take(i as int) =~= want);
    }
    let all = pins.all();
    let ghost held = all@.map_values(|p: Pin| pin_tree(p));
    let mut items: Vec<Doc> = Vec::new();
    let mut k: usize = 0;
    proof {
        assert(list_sheets(items@) =~= held.take(0));
    }
    while k < all.len()
        invariant
            k <= all@.len(),
            held == all@.map_values(|p: Pin| pin_tree(p)),
            list_sheets(items@) == held.take(k as int),
        decreases all.len() - k,
    {
        let ghost was = items@;
        let d = pin_doc(&all[k]);
        items.push(d);
        proof {
            assert(list_sheets(items@) =~= list_sheets(was).push(held[k as int]));
            assert(held.take(k + 1) =~= held.take(k as int).push(held[k as int]));
        }
        k += 1;
    }
    proof {
        assert(held.take(k as int) =~= held);
    }
    let mut v = no_fields();
    put(&mut v, "schema", whole(ledger.schema_version as u64));
    put(&mut v, "machine", machine_doc(&ledger.machine));
    put(&mut v, "rows", list(rows));
    put(&mut v, "pins", list(items));
    proof {
        assert(crate::document::sheets(v@) =~= seq![
            ("schema"@, plain_number(ledger.schema_version as u64)),
            ("machine"@, machine_tree(ledger.machine)),
            ("rows"@, Tree::Array(want)),
            ("pins"@, Tree::Array(held)),
        ]);
    }
    fields(v).page()
}

/// What a provider can do, in words.
pub open spec fn actuation_text(a: Actuation) -> Seq<char> {
    match a {
        Actuation::ModelLevel => "model-level"@,
        Actuation::SelfManaged { ceiling } => "self-managed ("@ + ceiling@ + ")"@,
    }
}

/// The line of one provider that was looked at.
pub open spec fn verify_text(
    kind: ProviderKind,
    url: Seq<char>,
    reachable: bool,
    a: Actuation,
) -> Seq<char> {
    padded_right(kind_text(kind), 10) + " "@ + padded_right(url, 24) + " "@ + padded_right(
        if reachable {
            "reachable"@
        } else {
            "not running"@
        },
        12,
    ) + " "@ + actuation_text(a) + "\n"@
}

/// The lines of every provider that was looked at.
pub open spec fn all_verified(rows: Seq<(ProviderKind, String, bool, Actuation)>) -> Seq<char>
    decreases rows.len(),
{
    if rows.len() == 0 {
        Seq::empty()
    } else {
        let r = rows.last();
        all_verified(rows.drop_last()) + verify_text(r.0, r.1@, r.2, r.3)
    }
}

/// What each provider can actually do: printing what was probed is cheaper
/// than remembering which table is current.
pub fn render_verify(rows: &[(ProviderKind, String, bool, Actuation)]) -> (out: String)
    ensures
        out@ == all_verified(rows@),
{
    let mut out = String::new();
    let mut i: usize = 0;
    proof {
        assert(out@ =~= all_verified(rows@.take(0)));
    }
    while i < rows.len()
        invariant
            i <= rows@.len(),
            out@ == all_verified(rows@.take(i as int)),
        decreases rows.len() - i,
    {
        proof {
            assert(rows@.take(i + 1).drop_last() =~= rows@.take(i as int));
        }
        let reach = if rows[i].2 {
            "reachable"
        } else {
            "not running"
        };
        let what = match rows[i].3 {
            Actuation::ModelLevel => "model-level".to_owned(),
            Actuation::SelfManaged { ceiling } => cat3("self-managed (", ceiling, ")"),
        };
        let head = cat6(
            pad_right(rows[i].0.as_str(), 10).as_str(),
            " ",
            pad_right(rows[i].1.as_str(), 24).as_str(),
            " ",
            pad_right(reach, 12).as_str(),
            " ",
        );
        let line = cat3(head.as_str(), what.as_str(), "\n");
        out = cat2(out.as_str(), line.as_str());
        i += 1;
    }
    proof {
        assert(rows@.take(i as int) =~= rows@);
    }
    out
}

} // verus!
