//! Will this land, and will it run once it has?
//!
//! Two ledgers: the bytes have to fit on disk **and** the result has to be
//! loadable afterwards. Refused before a byte moves, not after.
use vstd::prelude::*;

use crate::estimate::estimator::{Basis, Estimate};
use crate::memory::Machine;
use crate::render::{bytes_text, human_bytes};
use crate::text::{cat2, cat3, cat5, cat7, same};

verus! {

#[derive(Debug, Clone, Copy, PartialEq, Eq, Structural)]
pub enum Verdict {
    /// Fits both ledgers as things stand.
    Fits,
    /// The bytes will land, but nothing could load the result right now.
    /// Deliberately distinct from `NoDisk`: the file is still worth having,
    /// and making room in memory is a different act from making room on disk.
    FitsDiskOnly,
    NoDisk,
    /// Neither. Named separately so the message can say both at once.
    Neither,
}

#[derive(Debug)]
pub struct Fit {
    pub verdict: Verdict,
    pub down_bytes: u64,
    /// What it would cost resident, once loaded. `None` when nothing can price
    /// it, and an unknown cost is **not** treated as zero.
    pub resident_bytes: Option<u64>,
    pub free_disk_bytes: u64,
    /// Memory a model may actually take: free **minus the reserve**.
    pub free_memory_bytes: u64,
    /// Free memory before the reserve came off. Carried so a headroom of zero
    /// can say which of the two zeros it is.
    pub free_before_reserve_bytes: u64,
    /// What was held back.
    pub reserve_bytes: u64,
    /// Everything the machine has, with every provider stopped: the one figure
    /// that separates "not right now" from "not here".
    pub machine_bytes: u64,
    /// What it was priced on: measured, computed or declared.
    pub basis: String,
}

impl Clone for Fit {
    fn clone(&self) -> (r: Self)
        ensures
            r == *self,
    {
        Fit {
            verdict: self.verdict,
            down_bytes: self.down_bytes,
            resident_bytes: self.resident_bytes,
            free_disk_bytes: self.free_disk_bytes,
            free_memory_bytes: self.free_memory_bytes,
            free_before_reserve_bytes: self.free_before_reserve_bytes,
            reserve_bytes: self.reserve_bytes,
            machine_bytes: self.machine_bytes,
            basis: self.basis.clone(),
        }
    }
}

/// The resident cost, as it is said.
pub open spec fn cost_text(b: Option<u64>) -> Seq<char> {
    match b {
        Some(n) => bytes_text(n as nat),
        None => "an unknown amount"@,
    }
}

/// Bigger than the whole machine.
pub open spec fn exceeds(f: Fit) -> bool {
    match f.resident_bytes {
        Some(b) => b > f.machine_bytes,
        None => false,
    }
}

/// Why memory said no, in the machine's own terms.
pub open spec fn memory_text(f: Fit) -> Seq<char> {
    if exceeds(f) {
        "loading it needs "@ + cost_text(f.resident_bytes) + ", and this machine has "@
            + bytes_text(f.machine_bytes as nat)
            + " in total \u{2014} nothing that can be unloaded frees enough"@
    } else if f.free_memory_bytes == 0 && f.free_before_reserve_bytes > 0 {
        // Not an empty machine: a reserve wider than what is free.
        "loading it needs "@ + cost_text(f.resident_bytes) + ", and the "@ + bytes_text(
            f.free_before_reserve_bytes as nat,
        ) + " free is all inside the "@ + bytes_text(f.reserve_bytes as nat) + " reserve"@
    } else {
        "loading it needs "@ + cost_text(f.resident_bytes) + " where "@ + bytes_text(
            f.free_memory_bytes as nat,
        ) + " is available"@
    }
}

/// What a fitting pull says of a price that is only the published size.
pub open spec fn floor_text(basis: Seq<char>) -> Seq<char> {
    if basis == "declared"@ {
        " (a declared floor: the KV cache is not in it)"@
    } else {
        ""@
    }
}

/// What a fit says.
pub open spec fn fit_text(f: Fit) -> Seq<char> {
    let down = bytes_text(f.down_bytes as nat);
    let disk = bytes_text(f.free_disk_bytes as nat);
    match f.verdict {
        Verdict::Fits => down + " down, "@ + disk + " free on disk; "@ + cost_text(
            f.resident_bytes,
        ) + " resident against "@ + bytes_text(f.free_memory_bytes as nat) + " headroom"@
            + floor_text(f.basis@),
        Verdict::NoDisk => "needs "@ + down + " on disk but only "@ + disk + " is free"@,
        Verdict::FitsDiskOnly => down + " would land, but "@ + memory_text(f),
        Verdict::Neither => "needs "@ + down + " on disk but only "@ + disk + " is free, and "@
            + memory_text(f),
    }
}

fn cost_said(b: Option<u64>) -> (s: String)
    ensures
        s@ == cost_text(b),
{
    match b {
        Some(n) => human_bytes(n),
        None => "an unknown amount".to_owned(),
    }
}

impl Fit {
    pub fn ok(&self) -> (r: bool)
        ensures
            r == (self.verdict == Verdict::Fits),
    {
        self.verdict == Verdict::Fits
    }

    /// Did the *memory* ledger admit it? Disk is a separate fact.
    pub fn memory_ok(&self) -> (r: bool)
        ensures
            r == (self.verdict == Verdict::Fits || self.verdict == Verdict::NoDisk),
    {
        self.verdict == Verdict::Fits || self.verdict == Verdict::NoDisk
    }

    /// Bigger than the whole machine, so no amount of freeing reaches it.
    pub fn beyond_machine(&self) -> (r: bool)
        ensures
            r == exceeds(*self),
    {
        match self.resident_bytes {
            Some(b) => b > self.machine_bytes,
            None => false,
        }
    }

    /// Why memory said no, in the machine's own terms.
    fn memory_clause(&self) -> (s: String)
        ensures
            s@ == memory_text(*self),
    {
        let res = cost_said(self.resident_bytes);
        if self.beyond_machine() {
            return cat5(
                "loading it needs ",
                res.as_str(),
                ", and this machine has ",
                human_bytes(self.machine_bytes).as_str(),
                " in total \u{2014} nothing that can be unloaded frees enough",
            );
        }
        if self.free_memory_bytes == 0 && self.free_before_reserve_bytes > 0 {
            return cat7(
                "loading it needs ",
                res.as_str(),
                ", and the ",
                human_bytes(self.free_before_reserve_bytes).as_str(),
                " free is all inside the ",
                human_bytes(self.reserve_bytes).as_str(),
                " reserve",
            );
        }
        cat5(
            "loading it needs ",
            res.as_str(),
            " where ",
            human_bytes(self.free_memory_bytes).as_str(),
            " is available",
        )
    }

    pub fn message(&self) -> (s: String)
        ensures
            s@ == fit_text(*self),
    {
        let down = human_bytes(self.down_bytes);
        let disk = human_bytes(self.free_disk_bytes);
        match self.verdict {
            Verdict::Fits => {
                let floor = if same(self.basis.as_str(), "declared") {
                    " (a declared floor: the KV cache is not in it)"
                } else {
                    ""
                };
                let head = cat5(
                    down.as_str(),
                    " down, ",
                    disk.as_str(),
                    " free on disk; ",
                    cost_said(self.resident_bytes).as_str(),
                );
                cat5(
                    head.as_str(),
                    " resident against ",
                    human_bytes(self.free_memory_bytes).as_str(),
                    " headroom",
                    floor,
                )
            },
            Verdict::NoDisk => cat5(
                "needs ",
                down.as_str(),
                " on disk but only ",
                disk.as_str(),
                " is free",
            ),
            Verdict::FitsDiskOnly => cat3(
                down.as_str(),
                " would land, but ",
                self.memory_clause().as_str(),
            ),
            Verdict::Neither => cat2(
                cat5(
                    "needs ",
                    down.as_str(),
                    " on disk but only ",
                    disk.as_str(),
                    " is free, and ",
                ).as_str(),
                self.memory_clause().as_str(),
            ),
        }
    }
}

/// What a price rests on, in small letters.
pub open spec fn basis_word(b: Basis) -> Seq<char> {
    match b {
        Basis::Measured => "measured"@,
        Basis::Computed => "computed"@,
        Basis::Declared => "declared"@,
        Basis::Unknown => "unknown"@,
    }
}

fn basis_said(b: Basis) -> (s: String)
    ensures
        s@ == basis_word(b),
{
    match b {
        Basis::Measured => "measured".to_owned(),
        Basis::Computed => "computed".to_owned(),
        Basis::Declared => "declared".to_owned(),
        Basis::Unknown => "unknown".to_owned(),
    }
}

/// The verdict of the two ledgers. What cannot be priced does not fit memory:
/// a floor of zero would let everything through.
pub open spec fn verdict_of(down: u64, cost: Option<u64>, headroom: nat, disk: u64) -> Verdict {
    let lands = disk >= down;
    let loads = match cost {
        Some(b) => headroom >= b,
        None => false,
    };
    if lands && loads {
        Verdict::Fits
    } else if lands {
        Verdict::FitsDiskOnly
    } else if loads {
        Verdict::NoDisk
    } else {
        Verdict::Neither
    }
}

/// Whether a fit is the one that two ledgers come to.
pub open spec fn admitted(
    f: Fit,
    down: u64,
    estimate: Estimate,
    machine: Machine,
    disk: u64,
    reserve: u64,
) -> bool {
    let room = crate::fit::headroom(machine, reserve);
    &&& f.verdict == verdict_of(down, estimate.bytes, room, disk)
    &&& f.down_bytes == down
    &&& f.resident_bytes == estimate.bytes
    &&& f.free_disk_bytes == disk
    &&& f.free_memory_bytes == room
    &&& f.free_before_reserve_bytes == machine.free()
    &&& f.reserve_bytes == reserve
    &&& f.machine_bytes == machine.total_bytes
    &&& f.basis@ == basis_word(estimate.basis)
}

/// Admit a pull against both ledgers.
///
/// The reserve is held back: two admission paths over one resource must not
/// hold each other to different numbers.
pub fn assess(
    down_bytes: u64,
    estimate: &Estimate,
    machine: &Machine,
    free_disk_bytes: u64,
    reserve_bytes: u64,
) -> (f: Fit)
    ensures
        admitted(f, down_bytes, *estimate, *machine, free_disk_bytes, reserve_bytes),
{
    let disk_ok = free_disk_bytes >= down_bytes;
    let free = machine.free_bytes();
    let headroom = free.saturating_sub(reserve_bytes);
    let memory_ok = match estimate.bytes {
        Some(b) => headroom >= b,
        None => false,
    };
    let verdict = match (disk_ok, memory_ok) {
        (true, true) => Verdict::Fits,
        (true, false) => Verdict::FitsDiskOnly,
        (false, true) => Verdict::NoDisk,
        (false, false) => Verdict::Neither,
    };
    Fit {
        verdict,
        down_bytes,
        resident_bytes: estimate.bytes,
        free_disk_bytes,
        free_memory_bytes: headroom,
        free_before_reserve_bytes: free,
        reserve_bytes,
        machine_bytes: machine.total_bytes,
        basis: basis_said(estimate.basis),
    }
}

/// A wider reserve never admits more, and what nothing can price never fits.
pub proof fn the_reserve_is_held_back(
    down: u64,
    cost: Option<u64>,
    machine: Machine,
    disk: u64,
    narrow: u64,
    wide: u64,
)
    requires
        narrow <= wide,
    ensures
        verdict_of(down, cost, crate::fit::headroom(machine, wide), disk) == Verdict::Fits
            ==> verdict_of(down, cost, crate::fit::headroom(machine, narrow), disk)
            == Verdict::Fits,
        cost is None ==> verdict_of(down, cost, crate::fit::headroom(machine, narrow), disk)
            != Verdict::Fits,
{
}

} // verus!
