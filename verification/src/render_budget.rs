//! What each provider is allowed to take.
//!
//! **There is no total row, and that is the feature.** The ceilings are in
//! three units, so a sum would be a confident wrong number. What can be said
//! instead is how much of the machine is bounded in bytes at all.
use vstd::prelude::*;

use crate::budget::{cell_text, limit_of, Budget, Ceiling};
use crate::document::{
    compact, fields, list, list_sheets, no_fields, put, record, sheet, sheets, whole, word, Doc,
};
use crate::json::{plain_number, Tree};
use crate::memory::Machine;
use crate::provider::{kind_text, ProviderKind};
use crate::render::{bytes_text, human_bytes};
use crate::seqs::{lemma_filter_take, total};
use crate::text::{
    cat2, cat3, cat4, cat5, cat6, decimal, join, joined, number, pad_right, padded_right, repeat,
    run_of, texts,
};

verus! {

/// The unit a provider expresses its ceiling in, whether or not the value
/// could be read: "a count nobody could read" is a different problem from "no
/// limit exists".
pub open spec fn unit_text(kind: ProviderKind) -> Seq<char> {
    match kind {
        ProviderKind::LlamaCpp => "count"@,
        ProviderKind::Ollama => "count"@,
        ProviderKind::Vllm => "bytes"@,
        ProviderKind::LmStudio => "\u{2014}"@,
    }
}

fn declared_unit(kind: ProviderKind) -> (s: &'static str)
    ensures
        s@ == unit_text(kind),
{
    match kind {
        ProviderKind::LlamaCpp => "count",
        ProviderKind::Ollama => "count",
        ProviderKind::Vllm => "bytes",
        ProviderKind::LmStudio => "\u{2014}",
    }
}

/// Where a ceiling was found, or why it could not be.
pub open spec fn source_text(b: Budget) -> Seq<char> {
    match b.ceiling {
        Ceiling::Unknown { why } => why@,
        _ => b.source@,
    }
}

/// The columns of the table.
pub open spec fn columns(a: Seq<char>, b: Seq<char>, c: Seq<char>, d: Seq<char>) -> Seq<char> {
    padded_right(a, 11) + " "@ + padded_right(b, 9) + " "@ + padded_right(c, 7) + " "@ + d + "\n"@
}

fn set_columns(a: &str, b: &str, c: &str, d: &str) -> (s: String)
    ensures
        s@ == columns(a@, b@, c@, d@),
{
    let head = cat6(
        pad_right(a, 11).as_str(),
        " ",
        pad_right(b, 9).as_str(),
        " ",
        pad_right(c, 7).as_str(),
        " ",
    );
    cat3(head.as_str(), d, "\n")
}

/// The line of one provider.
pub open spec fn budget_text(b: Budget) -> Seq<char> {
    columns(
        kind_text(b.provider),
        cell_text(limit_of(b.ceiling)),
        unit_text(b.provider),
        source_text(b),
    )
}

/// The lines of every provider.
pub open spec fn budgets_text(budgets: Seq<Budget>) -> Seq<char>
    decreases budgets.len(),
{
    if budgets.len() == 0 {
        Seq::empty()
    } else {
        budgets_text(budgets.drop_last()) + budget_text(budgets.last())
    }
}

/// Whether a provider is bounded in bytes.
pub open spec fn is_bounded(b: Budget) -> bool {
    b.ceiling is Bytes
}

/// The providers that are bounded in bytes.
pub open spec fn bounded(budgets: Seq<Budget>) -> Seq<Budget> {
    budgets.filter(|b: Budget| is_bounded(b))
}

/// The names of those that are not.
pub open spec fn unbounded(budgets: Seq<Budget>) -> Seq<Seq<char>> {
    budgets.filter(|b: Budget| !is_bounded(b)).map_values(|b: Budget| kind_text(b.provider))
}

pub open spec fn ceiling_bytes(b: Budget) -> nat {
    match b.ceiling {
        Ceiling::Bytes(n) => n as nat,
        _ => 0,
    }
}

/// What the byte ceilings sum to.
pub open spec fn bounded_bytes(budgets: Seq<Budget>) -> nat {
    total(bounded(budgets), |b: Budget| ceiling_bytes(b))
}

/// The part of the machine that some bytes are.
pub open spec fn share_text(bytes: nat, machine: nat) -> Seq<char> {
    if machine == 0 {
        Seq::empty()
    } else {
        " \u{2014} "@ + decimal(bytes * 100 / machine) + "% of the machine"@
    }
}

/// The one line worth reading. Bytes do add; what is never stated is a total
/// across units.
pub open spec fn ceilings_text(budgets: Seq<Budget>, machine: nat) -> Seq<char> {
    let b = bounded(budgets);
    if b.len() == 0 {
        "nothing here is bounded in bytes at all.\n"@
    } else if b.len() == 1 {
        "the only byte ceiling here is "@ + kind_text(b[0].provider) + "'s "@ + bytes_text(
            bounded_bytes(budgets),
        ) + share_text(bounded_bytes(budgets), machine) + ".\n"@
    } else {
        decimal(b.len()) + " byte ceilings sum to "@ + bytes_text(bounded_bytes(budgets))
            + share_text(bounded_bytes(budgets), machine) + ".\n"@
    }
}

pub open spec fn rest_text(budgets: Seq<Budget>) -> Seq<char> {
    let u = unbounded(budgets);
    if u.len() == 0 {
        Seq::empty()
    } else {
        "nothing bounds "@ + joined(u, ", "@) + " in bytes.\n"@
    }
}

/// The whole report.
pub open spec fn report_text(budgets: Seq<Budget>, machine: Machine) -> Seq<char> {
    columns("provider"@, "allowed"@, "unit"@, "source"@) + budgets_text(budgets) + run_of(
        '\u{2500}',
        50,
    ) + "\n"@ + (padded_right("machine"@, 11) + " "@ + bytes_text(machine.total_bytes as nat)
        + " total\n"@) + (ceilings_text(budgets, machine.total_bytes as nat) + rest_text(budgets))
}

fn budget_line(b: &Budget) -> (s: String)
    ensures
        s@ == budget_text(*b),
{
    let source = match &b.ceiling {
        Ceiling::Unknown { why } => why.as_str(),
        _ => b.source.as_str(),
    };
    set_columns(
        b.provider.as_str(),
        b.ceiling.cell().as_str(),
        declared_unit(b.provider),
        source,
    )
}

fn share(bytes: u64, machine: u64) -> (s: String)
    requires
        bytes * 100 <= u64::MAX,
    ensures
        s@ == share_text(bytes as nat, machine as nat),
{
    if machine == 0 {
        let none = String::new();
        proof {
            assert(none@ =~= Seq::empty());
        }
        return none;
    }
    cat3(" \u{2014} ", number(bytes * 100 / machine).as_str(), "% of the machine")
}

fn verdict(budgets: &[Budget], machine: &Machine) -> (s: String)
    requires
        bounded_bytes(budgets@) * 100 <= u64::MAX,
    ensures
        s@ == ceilings_text(budgets@, machine.total_bytes as nat) + rest_text(budgets@),
{
    let ghost p = |b: Budget| is_bounded(b);
    let ghost q = |b: Budget| !is_bounded(b);
    let ghost f = |b: Budget| ceiling_bytes(b);
    let ghost g = |b: Budget| kind_text(b.provider);
    let ghost all = bounded(budgets@);
    let mut first: Option<ProviderKind> = None;
    let mut count: u64 = 0;
    let mut sum: u64 = 0;
    let mut names: Vec<String> = Vec::new();
    let mut i: usize = 0;
    proof {
        assert(budgets@.take(0).filter(p) =~= Seq::empty());
        assert(budgets@.take(0).filter(q).map_values(g) =~= Seq::empty());
        assert(texts(names@) =~= Seq::empty());
    }
    while i < budgets.len()
        invariant
            i <= budgets@.len(),
            p == (|b: Budget| is_bounded(b)),
            q == (|b: Budget| !is_bounded(b)),
            f == (|b: Budget| ceiling_bytes(b)),
            g == (|b: Budget| kind_text(b.provider)),
            all == budgets@.filter(p),
            total(all, f) <= u64::MAX,
            count <= i,
            count == budgets@.take(i as int).filter(p).len(),
            sum == total(budgets@.take(i as int).filter(p), f),
            match first {
                Some(k) => count > 0 && budgets@.take(i as int).filter(p)[0].provider == k,
                None => count == 0,
            },
            texts(names@) == budgets@.take(i as int).filter(q).map_values(g),
        decreases budgets.len() - i,
    {
        let b = &budgets[i];
        proof {
            lemma_filter_take(budgets@, p, i as int);
            lemma_filter_take(budgets@, q, i as int);
            let kept = budgets@.take(i as int).filter(p);
            assert(kept.push(*b).drop_last() =~= kept);
            lemma_kept_total(budgets@, i + 1);
        }
        match b.ceiling {
            Ceiling::Bytes(n) => {
                sum = sum + n;
                count = count + 1;
                if first.is_none() {
                    first = Some(b.provider);
                }
            },
            _ => {
                let ghost was = names@;
                names.push(b.provider.as_str().to_owned());
                proof {
                    assert(texts(names@) =~= texts(was).push(kind_text(b.provider)));
                }
            },
        }
        proof {
            assert(texts(names@) =~= budgets@.take(i + 1).filter(q).map_values(g));
        }
        i += 1;
    }
    proof {
        assert(budgets@.take(i as int) =~= budgets@);
        assert(texts(names@).len() == names@.len());
    }
    let ceilings = match first {
        None => "nothing here is bounded in bytes at all.\n".to_owned(),
        Some(k) => if count == 1 {
            cat6(
                "the only byte ceiling here is ",
                k.as_str(),
                "'s ",
                human_bytes(sum).as_str(),
                share(sum, machine.total_bytes).as_str(),
                ".\n",
            )
        } else {
            cat5(
                number(count).as_str(),
                " byte ceilings sum to ",
                human_bytes(sum).as_str(),
                share(sum, machine.total_bytes).as_str(),
                ".\n",
            )
        },
    };
    let rest = if names.len() == 0 {
        let none = String::new();
        proof {
            assert(none@ =~= Seq::empty());
        }
        none
    } else {
        cat3("nothing bounds ", join(&names, ", ").as_str(), " in bytes.\n")
    };
    cat2(ceilings.as_str(), rest.as_str())
}

/// What is bounded among the first is no more than what is bounded at all.
proof fn lemma_kept_total(budgets: Seq<Budget>, i: int)
    requires
        0 <= i <= budgets.len(),
    ensures
        total(budgets.take(i).filter(|b: Budget| is_bounded(b)), |b: Budget| ceiling_bytes(b))
            <= bounded_bytes(budgets),
    decreases budgets.len() - i,
{
    let p = |b: Budget| is_bounded(b);
    let f = |b: Budget| ceiling_bytes(b);
    if i < budgets.len() {
        lemma_kept_total(budgets, i + 1);
        lemma_filter_take(budgets, p, i);
        let kept = budgets.take(i).filter(p);
        assert(kept.push(budgets[i]).drop_last() =~= kept);
    } else {
        assert(budgets.take(i) =~= budgets);
    }
}

/// What each provider is allowed to take.
pub fn render(budgets: &[Budget], machine: &Machine) -> (out: String)
    requires
        bounded_bytes(budgets@) * 100 <= u64::MAX,
    ensures
        out@ == report_text(budgets@, *machine),
{
    let head = set_columns("provider", "allowed", "unit", "source");
    let mut lines = String::new();
    let mut i: usize = 0;
    proof {
        assert(lines@ =~= budgets_text(budgets@.take(0)));
    }
    while i < budgets.len()
        invariant
            i <= budgets@.len(),
            lines@ == budgets_text(budgets@.take(i as int)),
        decreases budgets.len() - i,
    {
        proof {
            assert(budgets@.take(i + 1).drop_last() =~= budgets@.take(i as int));
        }
        lines = cat2(lines.as_str(), budget_line(&budgets[i]).as_str());
        i += 1;
    }
    proof {
        assert(budgets@.take(i as int) =~= budgets@);
    }
    let machine_line = cat4(
        pad_right("machine", 11).as_str(),
        " ",
        human_bytes(machine.total_bytes).as_str(),
        " total\n",
    );
    cat6(
        head.as_str(),
        lines.as_str(),
        repeat('\u{2500}', 50).as_str(),
        "\n",
        machine_line.as_str(),
        verdict(budgets, machine).as_str(),
    )
}

/// A ceiling in the document.
pub open spec fn ceiling_tree(c: Ceiling) -> Tree {
    record(
        match c {
            Ceiling::Bytes(n) => seq![
                ("kind"@, Tree::Text("bytes"@)),
                ("value"@, plain_number(n)),
            ],
            Ceiling::Count(n) => seq![
                ("kind"@, Tree::Text("count"@)),
                ("value"@, plain_number(n as u64)),
            ],
            Ceiling::Unbounded => seq![("kind"@, Tree::Text("unbounded"@))],
            Ceiling::Unknown { why } => seq![
                ("kind"@, Tree::Text("unknown"@)),
                ("value"@, record(seq![("why"@, Tree::Text(why@))])),
            ],
        },
    )
}

pub open spec fn budget_tree(b: Budget) -> Tree {
    record(
        seq![
            ("provider"@, Tree::Text(kind_text(b.provider))),
            ("ceiling"@, ceiling_tree(b.ceiling)),
            ("source"@, Tree::Text(b.source@)),
        ],
    )
}

/// The document. Deliberately absent: any field that would total these.
pub open spec fn budgets_tree(budgets: Seq<Budget>, machine: Machine) -> Tree {
    record(
        seq![
            ("schema"@, plain_number(1)),
            ("machine_total_bytes"@, plain_number(machine.total_bytes)),
            ("budgets"@, Tree::Array(budgets.map_values(|b: Budget| budget_tree(b)))),
        ],
    )
}

fn ceiling_doc(c: &Ceiling) -> (d: Doc)
    ensures
        sheet(d) == ceiling_tree(*c),
{
    let mut v = no_fields();
    match c {
        Ceiling::Bytes(n) => {
            put(&mut v, "kind", word("bytes"));
            put(&mut v, "value", whole(*n));
            proof {
                assert(sheets(v@) =~= seq![
                    ("kind"@, Tree::Text("bytes"@)),
                    ("value"@, plain_number(*n)),
                ]);
            }
        },
        Ceiling::Count(n) => {
            put(&mut v, "kind", word("count"));
            put(&mut v, "value", whole(*n as u64));
            proof {
                assert(sheets(v@) =~= seq![
                    ("kind"@, Tree::Text("count"@)),
                    ("value"@, plain_number(*n as u64)),
                ]);
            }
        },
        Ceiling::Unbounded => {
            put(&mut v, "kind", word("unbounded"));
            proof {
                assert(sheets(v@) =~= seq![("kind"@, Tree::Text("unbounded"@))]);
            }
        },
        Ceiling::Unknown { why } => {
            let mut w = no_fields();
            put(&mut w, "why", word(why.as_str()));
            proof {
                assert(sheets(w@) =~= seq![("why"@, Tree::Text(why@))]);
            }
            put(&mut v, "kind", word("unknown"));
            put(&mut v, "value", fields(w));
            proof {
                assert(sheets(v@) =~= seq![
                    ("kind"@, Tree::Text("unknown"@)),
                    ("value"@, record(seq![("why"@, Tree::Text(why@))])),
                ]);
            }
        },
    }
    fields(v)
}

fn budget_doc(b: &Budget) -> (d: Doc)
    ensures
        sheet(d) == budget_tree(*b),
{
    let mut v = no_fields();
    put(&mut v, "provider", word(b.provider.as_str()));
    put(&mut v, "ceiling", ceiling_doc(&b.ceiling));
    put(&mut v, "source", word(b.source.as_str()));
    proof {
        assert(sheets(v@) =~= seq![
            ("provider"@, Tree::Text(kind_text(b.provider))),
            ("ceiling"@, ceiling_tree(b.ceiling)),
            ("source"@, Tree::Text(b.source@)),
        ]);
    }
    fields(v)
}

/// Its own schema, separate from the ledger's.
pub fn render_json(budgets: &[Budget], machine: &Machine) -> (r: String)
    ensures
        r@ == compact(budgets_tree(budgets@, *machine)),
{
    let ghost want = budgets@.map_values(|b: Budget| budget_tree(b));
    let mut items: Vec<Doc> = Vec::new();
    let mut i: usize = 0;
    proof {
        assert(list_sheets(items@) =~= want.take(0));
    }
    while i < budgets.len()
        invariant
            i <= budgets@.len(),
            want == budgets@.map_values(|b: Budget| budget_tree(b)),
            list_sheets(items@) == want.take(i as int),
        decreases budgets.len() - i,
    {
        let ghost was = items@;
        let d = budget_doc(&budgets[i]);
        items.push(d);
        proof {
            assert(list_sheets(items@) =~= list_sheets(was).push(want[i as int]));
            assert(want.take(i + 1) =~= want.take(i as int).push(want[i as int]));
        }
        i += 1;
    }
    proof {
        assert(want.take(i as int) =~= want);
    }
    let mut v = no_fields();
    put(&mut v, "schema", whole(1));
    put(&mut v, "machine_total_bytes", whole(machine.total_bytes));
    put(&mut v, "budgets", list(items));
    proof {
        assert(sheets(v@) =~= seq![
            ("schema"@, plain_number(1)),
            ("machine_total_bytes"@, plain_number(machine.total_bytes)),
            ("budgets"@, Tree::Array(want)),
        ]);
    }
    fields(v).line()
}

} // verus!
