//! Human-readable output for `load`, `unload` and `switch`.
use vstd::prelude::*;

use crate::actuate::run::{Report, Status, UnloadRecord};
use crate::estimate::estimator::Basis;
use crate::provider::kind_text;
use crate::render::{bytes_text, human_bytes};
use crate::text::{cat3, cat5, decimal, join, joined, number, pad_left, padded_left, texts};

verus! {

/// One line for each model that was unloaded.
pub open spec fn unloaded_text(u: Seq<UnloadRecord>) -> Seq<char>
    decreases u.len(),
{
    if u.len() == 0 {
        Seq::empty()
    } else {
        unloaded_text(u.drop_last()) + ("  unloaded   "@ + u.last().model@ + " on "@ + kind_text(
            u.last().provider,
        ) + "\n"@)
    }
}

/// One line for each place a model could be had instead.
pub open spec fn also_text(a: Seq<Seq<char>>) -> Seq<char>
    decreases a.len(),
{
    if a.len() == 0 {
        Seq::empty()
    } else {
        also_text(a.drop_last()) + ("  also at    "@ + a.last() + "\n"@)
    }
}

/// How a basis is written.
pub open spec fn basis_name(b: Basis) -> Seq<char> {
    match b {
        Basis::Measured => "Measured"@,
        Basis::Computed => "Computed"@,
        Basis::Declared => "Declared"@,
        Basis::Unknown => "Unknown"@,
    }
}

pub fn name_of_basis(b: Basis) -> (s: &'static str)
    ensures
        s@ == basis_name(b),
{
    match b {
        Basis::Measured => "Measured",
        Basis::Computed => "Computed",
        Basis::Declared => "Declared",
        Basis::Unknown => "Unknown",
    }
}

/// The lines that say how it ended. A refusal names the pins that caused it, a
/// failure how to put back what it freed, and an abort that nothing was kept.
pub open spec fn status_text(s: Status) -> Seq<char> {
    match s {
        Status::Ready { base_url, provider, provider_model_id, took_s, .. } => {
            let a = "  ready      "@ + provider_model_id@ + " on "@ + kind_text(provider) + "\n"@;
            let b = if base_url@.len() == 0 {
                a
            } else {
                a + ("  endpoint   "@ + base_url@ + "\n"@)
            };
            if took_s > 0 {
                b + ("  took       "@ + decimal(took_s as nat) + "s\n"@)
            } else {
                b
            }
        },
        Status::Refused { reason, pinned_blockers, alternatives } => {
            let a = "  refused    "@ + reason@ + "\n"@;
            let b = if pinned_blockers@.len() == 0 {
                a
            } else {
                a + ("  pinned     "@ + joined(texts(pinned_blockers@), ", "@) + "\n"@)
            };
            b + also_text(texts(alternatives@))
        },
        Status::Failed { reason, restore } => {
            let a = "  failed     "@ + reason@ + "\n"@;
            match restore {
                Some(cmd) => a + ("  restore    "@ + cmd@ + "\n"@),
                None => a,
            }
        },
        Status::Aborted { reason } => "  aborted    "@ + reason@ + "\n"@
            + "             the load was undone; nothing new is resident\n"@,
    }
}

pub open spec fn report_text(r: Report) -> Seq<char> {
    let a = unloaded_text(r.unloaded@) + status_text(r.outcome);
    let b = match r.estimate.bytes {
        Some(bytes) => a + ("  estimate   "@ + padded_left(bytes_text(bytes as nat), 9) + "   ("@
            + basis_name(r.estimate.basis) + ")\n"@),
        None => a,
    };
    b + ("  machine    "@ + bytes_text(r.free_bytes as nat) + " free \u{b7} swap "@ + bytes_text(
        r.swap_used_bytes as nat,
    ) + " used\n"@)
}

fn status_lines(s: &Status) -> (out: String)
    ensures
        out@ == status_text(*s),
{
    match s {
        Status::Ready { base_url, provider, provider_model_id, took_s, .. } => {
            let mut out = cat5(
                "  ready      ",
                provider_model_id.as_str(),
                " on ",
                provider.as_str(),
                "\n",
            );
            if !base_url.as_str().is_empty() {
                out.append(cat3("  endpoint   ", base_url.as_str(), "\n").as_str());
            }
            if *took_s > 0 {
                out.append(cat3("  took       ", number(*took_s).as_str(), "s\n").as_str());
            }
            out
        },
        Status::Refused { reason, pinned_blockers, alternatives } => {
            let mut out = cat3("  refused    ", reason.as_str(), "\n");
            if pinned_blockers.len() > 0 {
                out.append(
                    cat3("  pinned     ", join(pinned_blockers, ", ").as_str(), "\n").as_str(),
                );
            }
            let ghost head = out@;
            let ghost all = texts(alternatives@);
            let mut i: usize = 0;
            proof {
                assert(head + also_text(all.take(0)) =~= head);
            }
            while i < alternatives.len()
                invariant
                    i <= alternatives@.len(),
                    all == texts(alternatives@),
                    out@ == head + also_text(all.take(i as int)),
                decreases alternatives.len() - i,
            {
                let line = cat3("  also at    ", alternatives[i].as_str(), "\n");
                proof {
                    assert(all.take(i + 1).drop_last() =~= all.take(i as int));
                    assert(all.take(i + 1).last() == alternatives@[i as int]@);
                    assert(head + also_text(all.take(i as int)) + line@ =~= head + (also_text(
                        all.take(i as int),
                    ) + line@));
                }
                out.append(line.as_str());
                i += 1;
            }
            proof {
                assert(all.take(i as int) =~= all);
            }
            out
        },
        Status::Failed { reason, restore } => {
            let mut out = cat3("  failed     ", reason.as_str(), "\n");
            if let Some(cmd) = restore {
                out.append(cat3("  restore    ", cmd.as_str(), "\n").as_str());
            }
            out
        },
        Status::Aborted { reason } => {
            let mut out = cat3("  aborted    ", reason.as_str(), "\n");
            out.append("             the load was undone; nothing new is resident\n");
            out
        },
    }
}

pub fn render(report: &Report) -> (out: String)
    ensures
        out@ == report_text(*report),
{
    let mut out = String::new();
    let ghost u = report.unloaded@;
    let mut i: usize = 0;
    while i < report.unloaded.len()
        invariant
            i <= report.unloaded@.len(),
            u == report.unloaded@,
            out@ == unloaded_text(u.take(i as int)),
        decreases report.unloaded.len() - i,
    {
        let r = &report.unloaded[i];
        proof {
            assert(u.take(i + 1).drop_last() =~= u.take(i as int));
        }
        out.append(
            cat5("  unloaded   ", r.model.as_str(), " on ", r.provider.as_str(), "\n").as_str(),
        );
        i += 1;
    }
    proof {
        assert(u.take(i as int) =~= u);
    }
    out.append(status_lines(&report.outcome).as_str());
    if let Some(bytes) = report.estimate.bytes {
        out.append(
            cat5(
                "  estimate   ",
                pad_left(human_bytes(bytes).as_str(), 9).as_str(),
                "   (",
                name_of_basis(report.estimate.basis),
                ")\n",
            ).as_str(),
        );
    }
    out.append(
        cat5(
            "  machine    ",
            human_bytes(report.free_bytes).as_str(),
            " free \u{b7} swap ",
            human_bytes(report.swap_used_bytes).as_str(),
            " used\n",
        ).as_str(),
    );
    out
}

} // verus!
