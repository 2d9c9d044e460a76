//! What the machine holds, and which processes hold it.
use vstd::prelude::*;

use crate::rounding::{percent, whole_percent};
use crate::seqs::{lemma_total_take, total};
use crate::text::{cut_first, cut_last, parse_unsigned, rsplit_once, split_once, unsigned};

verus! {

/// Machine-wide totals.
#[derive(Debug, Clone, Copy, PartialEq, Eq, Structural)]
pub struct Machine {
    pub total_bytes: u64,
    pub used_bytes: u64,
    pub swap_total_bytes: u64,
    pub swap_used_bytes: u64,
}

impl Machine {
    /// What is not in use; never below nothing.
    pub open spec fn free(self) -> nat {
        if self.total_bytes >= self.used_bytes {
            (self.total_bytes - self.used_bytes) as nat
        } else {
            0
        }
    }

    /// A reading, refused when it claims the machine has no memory at all.
    pub fn checked(
        total_bytes: u64,
        used_bytes: u64,
        swap_total_bytes: u64,
        swap_used_bytes: u64,
    ) -> (r: Result<Machine, String>)
        ensures
            match r {
                Ok(m) => total_bytes != 0 && m == (Machine {
                    total_bytes,
                    used_bytes,
                    swap_total_bytes,
                    swap_used_bytes,
                }),
                Err(e) => total_bytes == 0 && e@ == "cannot read machine memory total"@,
            },
    {
        if total_bytes == 0 {
            return Err("cannot read machine memory total".to_owned());
        }
        Ok(Machine { total_bytes, used_bytes, swap_total_bytes, swap_used_bytes })
    }

    /// A machine about which nothing is known.
    pub fn zero() -> (m: Machine)
        ensures
            m == (Machine {
                total_bytes: 0,
                used_bytes: 0,
                swap_total_bytes: 0,
                swap_used_bytes: 0,
            }),
    {
        Machine { total_bytes: 0, used_bytes: 0, swap_total_bytes: 0, swap_used_bytes: 0 }
    }

    pub fn free_bytes(&self) -> (b: u64)
        ensures
            b == self.free(),
    {
        self.total_bytes.saturating_sub(self.used_bytes)
    }

    /// The free share of the machine, in whole per cent.
    pub fn free_percent(&self) -> (p: u64)
        ensures
            p == whole_percent(self.free(), self.total_bytes as nat),
    {
        percent(self.free_bytes(), self.total_bytes)
    }
}

/// One process's contribution, kept so a model's cost can be attributed to the
/// process that actually holds it rather than to the provider as a whole.
#[derive(Debug, Clone, Copy, PartialEq, Eq, Structural)]
pub struct ProcessSample {
    pub pid: u32,
    /// `max(phys_footprint, rss)` for this process.
    pub footprint_bytes: u64,
    pub phys_footprint_bytes: Option<u64>,
    pub rss_bytes: Option<u64>,
}

/// The processes attributable to one provider, and what they cost.
#[derive(Debug, PartialEq, Eq)]
pub struct ProcessTree {
    pub pids: Vec<u32>,
    /// The admission figure: per-process `max(phys_footprint, rss)`, summed.
    /// `None` when no pid's usage could be read, never silently zero.
    pub footprint_bytes: Option<u64>,
    pub phys_footprint_bytes: Option<u64>,
    /// Sees mmapped weights that `phys_footprint` does not.
    pub rss_bytes: Option<u64>,
    /// Per-process breakdown.
    pub processes: Vec<ProcessSample>,
}

/// The larger of two figures, or the one there is.
pub open spec fn larger(a: Option<u64>, b: Option<u64>) -> Option<u64> {
    match (a, b) {
        (Some(x), Some(y)) => Some(if x >= y {
            x
        } else {
            y
        }),
        (Some(x), None) => Some(x),
        (None, y) => y,
    }
}

/// The larger of the two metrics, because each is blind to something the
/// other sees: mmapped GGUF weights for `phys_footprint`, Metal buffers in
/// unified memory for RSS.
pub fn combined(phys: Option<u64>, rss: Option<u64>) -> (r: Option<u64>)
    ensures
        r == larger(phys, rss),
{
    match (phys, rss) {
        (Some(a), Some(b)) => Some(
            if a >= b {
                a
            } else {
                b
            },
        ),
        (Some(a), None) => Some(a),
        (None, Some(b)) => Some(b),
        (None, None) => None,
    }
}

/// The part of a URL that names a host and a port: what stands behind the
/// first `://`, up to another `://` or the first `/`.
pub open spec fn authority(url: Seq<char>) -> Option<Seq<char>> {
    match cut_first(url, "://"@) {
        None => None,
        Some((_, rest)) => {
            let piece = match cut_first(rest, "://"@) {
                Some((head, _)) => head,
                None => rest,
            };
            Some(
                match cut_first(piece, "/"@) {
                    Some((head, _)) => head,
                    None => piece,
                },
            )
        },
    }
}

/// The port a URL names: the number behind the last `:` of its authority.
pub open spec fn url_port(url: Seq<char>) -> Option<u16> {
    match authority(url) {
        None => None,
        Some(host) => {
            let last = match cut_last(host, ":"@) {
                Some((_, tail)) => tail,
                None => host,
            };
            match unsigned(last) {
                Some(n) => if n <= u16::MAX {
                    Some(n as u16)
                } else {
                    None
                },
                None => None,
            }
        },
    }
}

pub fn port_from_url(url: &str) -> (r: Option<u16>)
    ensures
        r == url_port(url@),
{
    let rest = match split_once(url, "://") {
        None => {
            return None;
        },
        Some((_, rest)) => rest,
    };
    let piece = match split_once(rest.as_str(), "://") {
        Some((head, _)) => head,
        None => rest,
    };
    let host = match split_once(piece.as_str(), "/") {
        Some((head, _)) => head,
        None => piece,
    };
    let last = match rsplit_once(host.as_str(), ":") {
        Some((_, tail)) => tail,
        None => host,
    };
    match parse_unsigned(last.as_str(), 65535) {
        Some(n) => Some(n as u16),
        None => None,
    }
}

/// One row of the process table: a pid and its parent.
pub type ProcessRow = (u32, Option<u32>);

/// Whether `pid` is `steps` generations below `root`.
pub open spec fn below(table: Seq<ProcessRow>, root: u32, pid: u32, steps: nat) -> bool
    decreases steps,
{
    if steps == 0 {
        pid == root
    } else {
        exists|parent: u32|
            below(table, root, parent, (steps - 1) as nat) && #[trigger] table.contains(
                (pid, Some(parent)),
            )
    }
}

/// Whether `pid` is `root` or descends from it.
pub open spec fn descends(table: Seq<ProcessRow>, root: u32, pid: u32) -> bool {
    exists|steps: nat| below(table, root, pid, steps)
}

/// How many rows name a pid that is not yet in `out`.
spec fn unseen(table: Seq<ProcessRow>, out: Seq<u32>) -> nat {
    total(
        table,
        |r: ProcessRow|
            if out.contains(r.0) {
                0nat
            } else {
                1nat
            },
    )
}

proof fn lemma_unseen_shrinks(table: Seq<ProcessRow>, out: Seq<u32>, k: int)
    requires
        0 <= k < table.len(),
        !out.contains(table[k].0),
    ensures
        unseen(table, out.push(table[k].0)) < unseen(table, out),
{
    let f = |r: ProcessRow|
        if out.contains(r.0) {
            0nat
        } else {
            1nat
        };
    let grown = out.push(table[k].0);
    let g = |r: ProcessRow|
        if grown.contains(r.0) {
            0nat
        } else {
            1nat
        };
    assert forall|r: ProcessRow| #[trigger] g(r) <= f(r) by {
        if out.contains(r.0) {
            let i = out.index_of(r.0);
            assert(grown[i] == r.0);
        }
    }
    assert(grown[out.len() as int] == table[k].0);
    lemma_total_below(table, f, g, k);
}

proof fn lemma_total_below<T>(s: Seq<T>, f: spec_fn(T) -> nat, g: spec_fn(T) -> nat, k: int)
    requires
        forall|x: T| #[trigger] g(x) <= f(x),
        -1 <= k < s.len(),
        k >= 0 ==> g(s[k]) < f(s[k]),
    ensures
        total(s, g) <= total(s, f),
        k >= 0 ==> total(s, g) < total(s, f),
    decreases s.len(),
{
    if s.len() > 0 {
        let j = if k == s.len() - 1 {
            -1
        } else {
            k
        };
        lemma_total_below(s.drop_last(), f, g, j);
        assert(g(s.last()) <= f(s.last()));
    }
}

/// A process and everything below it: `root` first, each pid once.
pub fn descendants(table: &Vec<ProcessRow>, root: u32) -> (out: Vec<u32>)
    ensures
        out@.len() > 0 && out@[0] == root,
        out@.no_duplicates(),
        forall|pid: u32| #[trigger] out@.contains(pid) <==> descends(table@, root, pid),
{
    let mut out: Vec<u32> = Vec::new();
    let mut frontier: Vec<u32> = Vec::new();
    out.push(root);
    frontier.push(root);
    proof {
        assert(below(table@, root, root, 0));
        assert(descends(table@, root, root));
        assert(out@ =~= seq![root]);
    }
    while frontier.len() > 0
        invariant
            out@.len() > 0 && out@[0] == root,
            out@.no_duplicates(),
            forall|pid: u32| #[trigger] out@.contains(pid) ==> descends(table@, root, pid),
            forall|i: int| 0 <= i < frontier@.len() ==> out@.contains(#[trigger] frontier@[i]),
            forall|pid: u32, parent: u32|
                #![trigger table@.contains((pid, Some(parent)))]
                out@.contains(parent) && !frontier@.contains(parent) && table@.contains(
                    (pid, Some(parent)),
                ) ==> out@.contains(pid),
        decreases unseen(table@, out@), frontier.len(),
    {
        let ghost waiting = frontier@;
        let ghost seen = out@;
        let parent: u32 = match frontier.pop() {
            Some(p) => p,
            None => root,
        };
        proof {
            assert(waiting == frontier@.push(parent));
            assert(out@.contains(waiting[waiting.len() - 1]));
            assert forall|i: int| 0 <= i < frontier@.len() implies out@.contains(
                #[trigger] frontier@[i],
            ) by {
                assert(waiting[i] == frontier@[i]);
            }
        }
        let mut k: usize = 0;
        while k < table.len()
            invariant
                k <= table.len(),
                out@.len() > 0 && out@[0] == root,
                out@.no_duplicates(),
                out@.contains(parent),
                forall|pid: u32| #[trigger] out@.contains(pid) ==> descends(table@, root, pid),
                forall|i: int|
                    0 <= i < frontier@.len() ==> out@.contains(#[trigger] frontier@[i]),
                forall|pid: u32, p: u32|
                    #![trigger table@.contains((pid, Some(p)))]
                    p != parent && out@.contains(p) && !frontier@.contains(p) && table@.contains(
                        (pid, Some(p)),
                    ) ==> out@.contains(pid),
                forall|j: int|
                    0 <= j < k && (#[trigger] table@[j]).1 == Some(parent) ==> out@.contains(
                        table@[j].0,
                    ),
                unseen(table@, out@) < unseen(table@, seen) || (out@ == seen && frontier@
                    == waiting.drop_last()),
                waiting.len() > 0,
            decreases table.len() - k,
        {
            let row = table[k];
            if row.1.is_some() && row.1.unwrap() == parent {
                let child: u32 = row.0;
                let mut found: bool = false;
                let mut j: usize = 0;
                while j < out.len() && !found
                    invariant
                        j <= out.len(),
                        found ==> out@.contains(child),
                        !found ==> forall|i: int| 0 <= i < j ==> out@[i] != child,
                    decreases out.len() - j + (if found {
                        0int
                    } else {
                        1
                    }),
                {
                    if out[j] == child {
                        found = true;
                    } else {
                        j += 1;
                    }
                }
                if !found {
                    let ghost was = out@;
                    let ghost front = frontier@;
                    proof {
                        assert(!was.contains(child));
                        lemma_unseen_shrinks(table@, was, k as int);
                        let d = choose|d: nat| below(table@, root, parent, d);
                        assert(table@.contains((child, Some(parent)))) by {
                            assert(table@[k as int] == (child, Some(parent)));
                        }
                        assert(below(table@, root, parent, ((d + 1) - 1) as nat));
                        assert(below(table@, root, child, d + 1));
                        assert(descends(table@, root, child));
                    }
                    out.push(child);
                    frontier.push(child);
                    proof {
                        assert forall|pid: u32| #[trigger] out@.contains(pid) implies descends(
                            table@,
                            root,
                            pid,
                        ) by {
                            if pid != child {
                                let i = out@.index_of(pid);
                                assert(was[i] == pid);
                                assert(was.contains(pid));
                            }
                        }
                        assert forall|x: u32| was.contains(x) implies #[trigger] out@.contains(
                            x,
                        ) by {
                            let i = was.index_of(x);
                            assert(out@[i] == x);
                        }
                        assert(out@[was.len() as int] == child);
                        assert(out@.contains(child));
                        assert forall|i: int| 0 <= i < frontier@.len() implies out@.contains(
                            #[trigger] frontier@[i],
                        ) by {
                            if i < front.len() {
                                assert(front[i] == frontier@[i]);
                            }
                        }
                        assert(frontier@[front.len() as int] == child);
                        assert forall|pid: u32, p: u32|
                            #![trigger table@.contains((pid, Some(p)))]
                            p != parent && out@.contains(p) && !frontier@.contains(p)
                                && table@.contains((pid, Some(p))) implies out@.contains(pid) by {
                            assert(p != child) by {
                                assert(frontier@.contains(child));
                            }
                            let i = out@.index_of(p);
                            assert(was[i] == p);
                            assert(was.contains(p));
                            if front.contains(p) {
                                let m = front.index_of(p);
                                assert(frontier@[m] == p);
                            }
                            assert(was.contains(pid));
                        }
                        assert forall|m: int|
                            0 <= m < k && (#[trigger] table@[m]).1 == Some(
                                parent,
                            ) implies out@.contains(table@[m].0) by {
                            assert(was.contains(table@[m].0));
                        }
                    }
                }
            }
            k += 1;
        }
        proof {
            assert forall|pid: u32, p: u32|
                #![trigger table@.contains((pid, Some(p)))]
                out@.contains(p) && !frontier@.contains(p) && table@.contains(
                    (pid, Some(p)),
                ) implies out@.contains(pid) by {
                if p == parent {
                    let j = table@.index_of((pid, Some(p)));
                    assert(table@[j].1 == Some(parent));
                }
            }
        }
    }
    proof {
        assert forall|pid: u32| descends(table@, root, pid) implies #[trigger] out@.contains(
            pid,
        ) by {
            let d = choose|d: nat| below(table@, root, pid, d);
            lemma_closed_reaches(table@, root, pid, d, out@);
        }
    }
    out
}

proof fn lemma_closed_reaches(
    table: Seq<ProcessRow>,
    root: u32,
    pid: u32,
    steps: nat,
    out: Seq<u32>,
)
    requires
        below(table, root, pid, steps),
        out.contains(root),
        forall|p: u32, parent: u32|
            #![trigger table.contains((p, Some(parent)))]
            out.contains(parent) && table.contains((p, Some(parent))) ==> out.contains(p),
    ensures
        out.contains(pid),
    decreases steps,
{
    if steps > 0 {
        let parent = choose|parent: u32|
            below(table, root, parent, (steps - 1) as nat) && #[trigger] table.contains(
                (pid, Some(parent)),
            );
        lemma_closed_reaches(table, root, parent, (steps - 1) as nat, out);
    }
}

/// What one process reported: its physical footprint and its resident size.
pub type Usage = Option<(u64, u64)>;

/// The sample a readable process gives.
pub open spec fn sample_of(pid: u32, usage: (u64, u64)) -> ProcessSample {
    ProcessSample {
        pid,
        footprint_bytes: if usage.0 >= usage.1 {
            usage.0
        } else {
            usage.1
        },
        phys_footprint_bytes: Some(usage.0),
        rss_bytes: Some(usage.1),
    }
}

/// The samples of the processes that could be read, in the order of the pids.
pub open spec fn samples_of(read: Seq<(u32, Usage)>) -> Seq<ProcessSample> {
    read.filter_map(
        |r: (u32, Usage)|
            match r.1 {
                Some(u) => Some(sample_of(r.0, u)),
                None => None,
            },
    )
}

/// A summed figure, unknown when nothing was summed.
pub open spec fn summed(samples: Seq<ProcessSample>, f: spec_fn(ProcessSample) -> nat) -> Option<
    u64,
> {
    if samples.len() == 0 {
        None
    } else {
        Some(total(samples, f) as u64)
    }
}

pub open spec fn footprint_of(s: ProcessSample) -> nat {
    s.footprint_bytes as nat
}

pub open spec fn phys_of(s: ProcessSample) -> nat {
    match s.phys_footprint_bytes {
        Some(b) => b as nat,
        None => 0,
    }
}

pub open spec fn rss_of(s: ProcessSample) -> nat {
    match s.rss_bytes {
        Some(b) => b as nat,
        None => 0,
    }
}

impl ProcessTree {
    pub open spec fn pids_of(read: Seq<(u32, Usage)>) -> Seq<u32> {
        read.map_values(|r: (u32, Usage)| r.0)
    }

    /// The tree made of these processes and what each could be read to use.
    ///
    /// Per process and not per tree: a provider mixes a shell whose cost is
    /// anonymous with a backend whose cost is mmapped, and taking the larger
    /// of the two sums would lose one of them.
    pub fn from_usage(read: &Vec<(u32, Usage)>) -> (t: ProcessTree)
        requires
            total(samples_of(read@), |s: ProcessSample| footprint_of(s)) <= u64::MAX,
        ensures
            t.pids@ == Self::pids_of(read@),
            t.processes@ == samples_of(read@),
            t.footprint_bytes == summed(samples_of(read@), |s: ProcessSample| footprint_of(s)),
            t.phys_footprint_bytes == summed(samples_of(read@), |s: ProcessSample| phys_of(s)),
            t.rss_bytes == summed(samples_of(read@), |s: ProcessSample| rss_of(s)),
    {
        let ghost pick = |r: (u32, Usage)|
            match r.1 {
                Some(u) => Some(sample_of(r.0, u)),
                None => None,
            };
        let ghost fp = |s: ProcessSample| footprint_of(s);
        let ghost ph = |s: ProcessSample| phys_of(s);
        let ghost rs = |s: ProcessSample| rss_of(s);
        let ghost all = samples_of(read@);
        let mut pids: Vec<u32> = Vec::new();
        let mut processes: Vec<ProcessSample> = Vec::new();
        let mut footprint: u64 = 0;
        let mut phys: u64 = 0;
        let mut rss: u64 = 0;
        let mut i: usize = 0;
        proof {
            assert(read@.take(0).filter_map(pick) =~= Seq::<ProcessSample>::empty());
        }
        while i < read.len()
            invariant
                i <= read.len(),
                pick == (|r: (u32, Usage)|
                    match r.1 {
                        Some(u) => Some(sample_of(r.0, u)),
                        None => None,
                    }),
                fp == (|s: ProcessSample| footprint_of(s)),
                ph == (|s: ProcessSample| phys_of(s)),
                rs == (|s: ProcessSample| rss_of(s)),
                all == read@.filter_map(pick),
                total(all, fp) <= u64::MAX,
                pids@ == Self::pids_of(read@.take(i as int)),
                processes@ == read@.take(i as int).filter_map(pick),
                processes@.len() <= all.len(),
                processes@ == all.take(processes@.len() as int),
                footprint == total(processes@, fp),
                phys == total(processes@, ph),
                rss == total(processes@, rs),
                phys <= footprint,
                rss <= footprint,
            decreases read.len() - i,
        {
            let (pid, usage) = read[i];
            proof {
                read@.lemma_filter_map_take_succ(pick, i as int);
                lemma_filter_map_prefix(read@, pick, i + 1);
                assert(Self::pids_of(read@.take(i + 1)) =~= Self::pids_of(
                    read@.take(i as int),
                ).push(pid));
            }
            pids.push(pid);
            match usage {
                Some((p, r)) => {
                    let larger: u64 = if p >= r {
                        p
                    } else {
                        r
                    };
                    let sample = ProcessSample {
                        pid,
                        footprint_bytes: larger,
                        phys_footprint_bytes: Some(p),
                        rss_bytes: Some(r),
                    };
                    let ghost was = processes@;
                    processes.push(sample);
                    proof {
                        assert(sample == sample_of(pid, (p, r)));
                        assert(processes@ =~= read@.take(i + 1).filter_map(pick));
                        assert(processes@.drop_last() =~= was);
                        let n = was.len() as int;
                        lemma_total_take(all, fp, n);
                        assert(all.take(n + 1) == processes@);
                    }
                    footprint = footprint + larger;
                    phys = phys + p;
                    rss = rss + r;
                },
                None => {
                    proof {
                        assert(processes@ =~= read@.take(i + 1).filter_map(pick));
                    }
                },
            }
            i += 1;
        }
        proof {
            assert(read@.take(i as int) =~= read@);
        }
        let any: bool = processes.len() > 0;
        ProcessTree {
            pids,
            footprint_bytes: if any {
                Some(footprint)
            } else {
                None
            },
            phys_footprint_bytes: if any {
                Some(phys)
            } else {
                None
            },
            rss_bytes: if any {
                Some(rss)
            } else {
                None
            },
            processes,
        }
    }
}

/// What a prefix keeps is a prefix of what the whole keeps.
proof fn lemma_filter_map_prefix<T, U>(s: Seq<T>, f: spec_fn(T) -> Option<U>, i: int)
    requires
        0 <= i <= s.len(),
    ensures
        s.take(i).filter_map(f).len() <= s.filter_map(f).len(),
        s.take(i).filter_map(f) == s.filter_map(f).take(s.take(i).filter_map(f).len() as int),
    decreases s.len() - i,
{
    if i == s.len() {
        assert(s.take(i) =~= s);
        assert(s.filter_map(f).take(s.filter_map(f).len() as int) =~= s.filter_map(f));
    } else {
        lemma_filter_map_prefix(s, f, i + 1);
        s.lemma_filter_map_take_succ(f, i);
        let a = s.take(i).filter_map(f);
        let b = s.take(i + 1).filter_map(f);
        assert(b =~= a || exists|x: U| b =~= a.push(x)) by {
            match f(s[i]) {
                Some(x) => {
                    assert(b =~= a.push(x));
                },
                None => {
                    assert(b =~= a);
                },
            }
        }
        assert(a =~= b.take(a.len() as int));
        assert(a =~= s.filter_map(f).take(a.len() as int));
    }
}

/// What a process is taken to use is the larger of its two readings, and known
/// where either is.
pub proof fn neither_reading_is_lost(a: Option<u64>, b: Option<u64>, pid: u32, usage: (u64, u64))
    ensures
        larger(a, b) is Some <==> a is Some || b is Some,
        larger(a, b) matches Some(n) ==> {
            &&& a is Some ==> n >= a->0
            &&& b is Some ==> n >= b->0
            &&& a == Some(n) || b == Some(n)
        },
        sample_of(pid, usage).pid == pid,
        sample_of(pid, usage).footprint_bytes >= usage.0,
        sample_of(pid, usage).footprint_bytes >= usage.1,
        sample_of(pid, usage).footprint_bytes == usage.0 || sample_of(pid, usage).footprint_bytes
            == usage.1,
        sample_of(pid, usage).phys_footprint_bytes == Some(usage.0),
        sample_of(pid, usage).rss_bytes == Some(usage.1),
{
}

/// What is free is what is not in use, and never below nothing.
pub proof fn what_is_free_is_not_in_use(m: Machine)
    ensures
        m.used_bytes <= m.total_bytes ==> m.free() + m.used_bytes == m.total_bytes,
        m.used_bytes > m.total_bytes ==> m.free() == 0,
{
}

/// One more process adds what it uses where it could be read, and nothing where
/// it could not; its pid is listed either way.
pub proof fn a_process_adds_what_it_uses(read: Seq<(u32, Usage)>, pid: u32, phys: u64, rss: u64)
    ensures
        ({
            let more = read.push((pid, Some((phys, rss))));
            let f = |s: ProcessSample| footprint_of(s);
            let p = |s: ProcessSample| phys_of(s);
            let r = |s: ProcessSample| rss_of(s);
            &&& ProcessTree::pids_of(more) == ProcessTree::pids_of(read).push(pid)
            &&& samples_of(more).len() == samples_of(read).len() + 1
            &&& samples_of(more).drop_last() == samples_of(read)
            &&& samples_of(more).last() == sample_of(pid, (phys, rss))
            &&& total(samples_of(more), f) == total(samples_of(read), f) + (if phys >= rss {
                phys
            } else {
                rss
            })
            &&& total(samples_of(more), p) == total(samples_of(read), p) + phys
            &&& total(samples_of(more), r) == total(samples_of(read), r) + rss
        }),
        ProcessTree::pids_of(read.push((pid, None))) == ProcessTree::pids_of(read).push(pid),
        samples_of(read.push((pid, None))) == samples_of(read),
        samples_of(Seq::empty()).len() == 0,
{
    let more = read.push((pid, Some((phys, rss))));
    let none = read.push((pid, None));
    let before = samples_of(read);
    assert(more.drop_last() =~= read && none.drop_last() =~= read);
    assert(ProcessTree::pids_of(more) =~= ProcessTree::pids_of(read).push(pid));
    assert(ProcessTree::pids_of(none) =~= ProcessTree::pids_of(read).push(pid));
    assert(samples_of(more) =~= before.push(sample_of(pid, (phys, rss))));
    assert(samples_of(none) =~= before);
    assert(before.push(sample_of(pid, (phys, rss))).drop_last() =~= before);
    assert(samples_of(Seq::empty()) =~= Seq::<ProcessSample>::empty());
}

/// A sum over processes is known exactly when any was read.
pub proof fn a_sum_is_known_where_anything_was_read(
    samples: Seq<ProcessSample>,
    f: spec_fn(ProcessSample) -> nat,
)
    requires
        total(samples, f) <= u64::MAX,
    ensures
        summed(samples, f) is Some <==> samples.len() > 0,
        summed(samples, f) matches Some(n) ==> n == total(samples, f),
{
}

} // verus!
