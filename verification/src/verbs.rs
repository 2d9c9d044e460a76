//! What the verbs that pin, lease and release do to the store, and what they
//! say of it.
use vstd::prelude::*;

use crate::config::{Config, ProviderConfig};
use crate::inventory::artifact::Artifact;
use crate::inventory::identity::{canonical, canonical_name};
use crate::inventory::Inventory;
use crate::pins::{
    a_lease_protects_for_its_term, a_lease_weakens_nothing, about, cleared, held_iff_protected,
    holder, human_seconds, leased, pinned, pins_down, place_of, released, seconds_text, swept,
    LeaseOutcome, Pin, Pins, ReleaseOutcome,
};
use crate::provider::{kind_named, kind_text, ProviderKind};
use crate::resolve::identity::Candidate;
use crate::seqs::{first_index, lemma_filter_take};
use crate::text::{cat2, cat3, cat4, same};

verus! {

/// One model on one provider.
pub type Place = (ProviderKind, String);

/// Where a provider's name leads in a configuration.
pub open spec fn configured(config: Result<&Config, &str>, name: Seq<char>) -> Result<
    ProviderConfig,
    Seq<char>,
> {
    match kind_named(name) {
        None => Err("unknown provider kind `"@ + name + "`"@),
        Some(kind) => match config {
            Err(e) => Err(e@),
            Ok(c) => {
                let i = first_index(c.providers@, |p: ProviderConfig| p.kind == kind);
                if i < c.providers@.len() {
                    Ok(c.providers@[i])
                } else {
                    Err("`"@ + name + "` is not in your config"@)
                }
            },
        },
    }
}

/// The configured entry for a provider named on the command line. The name is
/// judged before the configuration is.
pub fn provider_config(config: Result<&Config, &str>, name: &str) -> (r: Result<
    ProviderConfig,
    String,
>)
    ensures
        match r {
            Ok(p) => configured(config, name@) == Ok::<ProviderConfig, Seq<char>>(p),
            Err(e) => configured(config, name@) == Err::<ProviderConfig, Seq<char>>(e@),
        },
{
    let kind = match ProviderKind::named(name) {
        Ok(k) => k,
        Err(e) => {
            return Err(e);
        },
    };
    let c = match config {
        Ok(c) => c,
        Err(e) => {
            return Err(e.to_owned());
        },
    };
    match c.provider(kind) {
        Some(p) => Ok(p.clone()),
        None => Err(cat3("`", name, "` is not in your config")),
    }
}

/// The places that offers name.
pub open spec fn places(candidates: Seq<Candidate>) -> Seq<Place> {
    candidates.map_values(|c: Candidate| (c.provider, c.provider_model_id))
}

/// The text that a name no provider serves is refused with.
pub open spec fn unserved_text(model: Seq<char>) -> Seq<char> {
    "no provider serves `"@ + model + "`; name one with --provider to pin it anyway"@
}

/// Which places a verb that protects a model reaches.
///
/// With a provider named, the model's name is taken as that provider's own id
/// and used verbatim. Without one, every provider that could serve the model
/// is reached: to protect a model means the model, not one server's spelling
/// of it. A name nobody serves is refused, because protecting nothing is a
/// silent no-op waiting to surprise whoever asked for it.
pub fn pin_targets(model: &str, provider: Option<&str>, candidates: &[Candidate]) -> (r: Result<
    Vec<Place>,
    String,
>)
    ensures
        match provider {
            Some(name) => match r {
                Ok(t) => t@.len() == 1 && kind_named(name@) == Some(t@[0].0) && t@[0].1@ == model@,
                Err(e) => kind_named(name@) is None && e@ == "unknown provider kind `"@ + name@
                    + "`"@,
            },
            None => match r {
                Ok(t) => candidates@.len() > 0 && t@ == places(candidates@),
                Err(e) => candidates@.len() == 0 && e@ == unserved_text(model@),
            },
        },
{
    if let Some(name) = provider {
        return match ProviderKind::named(name) {
            Ok(kind) => {
                let mut one: Vec<Place> = Vec::new();
                one.push((kind, model.to_owned()));
                Ok(one)
            },
            Err(e) => Err(e),
        };
    }
    if candidates.len() == 0 {
        return Err(
            cat3(
                "no provider serves `",
                model,
                "`; name one with --provider to pin it anyway",
            ),
        );
    }
    let mut out: Vec<Place> = Vec::new();
    let mut i: usize = 0;
    while i < candidates.len()
        invariant
            i <= candidates@.len(),
            out@ == places(candidates@.take(i as int)),
        decreases candidates.len() - i,
    {
        let c = &candidates[i];
        out.push((c.provider, c.provider_model_id.clone()));
        i += 1;
        proof {
            assert(out@ =~= places(candidates@.take(i as int)));
        }
    }
    proof {
        assert(candidates@.take(i as int) =~= candidates@);
    }
    Ok(out)
}

/// A pin as a verb sets it: nobody's, and with no end.
pub open spec fn pin_at(t: Place, at: u64, note: Option<String>) -> Pin {
    Pin { provider: t.0, model: t.1, at, note, owner: None, expires_at: None }
}

/// Whether a place is protected without end.
pub open spec fn held_for_good(s: Seq<Pin>, t: Place) -> bool {
    s.any(|p: Pin| pins_down(p, t.0, t.1@))
}

/// Whether anything protects a place, lapsed or not.
pub open spec fn held(s: Seq<Pin>, t: Place) -> bool {
    s.any(|p: Pin| about(p, t.0, t.1@))
}

/// The store after the first `n` places were pinned.
pub open spec fn pinned_to(
    s: Seq<Pin>,
    targets: Seq<Place>,
    at: u64,
    note: Option<String>,
    n: nat,
) -> Seq<Pin>
    decreases n,
{
    if n == 0 {
        s
    } else {
        pinned(
            pinned_to(s, targets, at, note, (n - 1) as nat),
            pin_at(targets[n - 1], at, note),
        ).0
    }
}

/// Pins each place in turn, and says of each whether that changed anything.
pub fn pin(pins: &mut Pins, targets: &[Place], at: u64, note: &Option<String>) -> (changed: Vec<
    bool,
>)
    ensures
        final(pins)@ == pinned_to(old(pins)@, targets@, at, *note, targets@.len()),
        final(pins).schema_number() == old(pins).schema_number(),
        changed@.len() == targets@.len(),
        forall|i: int|
            0 <= i < changed@.len() ==> #[trigger] changed@[i] == !held_for_good(
                pinned_to(old(pins)@, targets@, at, *note, i as nat),
                targets@[i],
            ),
{
    let ghost start = pins@;
    let mut changed: Vec<bool> = Vec::new();
    let mut i: usize = 0;
    while i < targets.len()
        invariant
            i <= targets@.len(),
            start == old(pins)@,
            pins.schema_number() == old(pins).schema_number(),
            pins@ == pinned_to(start, targets@, at, *note, i as nat),
            changed@.len() == i,
            forall|k: int|
                0 <= k < changed@.len() ==> #[trigger] changed@[k] == !held_for_good(
                    pinned_to(start, targets@, at, *note, k as nat),
                    targets@[k],
                ),
        decreases targets.len() - i,
    {
        let t = &targets[i];
        let entry = Pin {
            provider: t.0,
            model: t.1.clone(),
            at,
            note: note.clone(),
            owner: None,
            expires_at: None,
        };
        proof {
            assert(entry == pin_at(*t, at, *note));
        }
        let added = pins.add(entry);
        changed.push(added);
        i += 1;
    }
    changed
}

/// The store after the first `n` places were unpinned.
pub open spec fn unpinned_to(s: Seq<Pin>, targets: Seq<Place>, n: nat) -> Seq<Pin>
    decreases n,
{
    if n == 0 {
        s
    } else {
        cleared(unpinned_to(s, targets, (n - 1) as nat), targets[n - 1].0, targets[n - 1].1@)
    }
}

/// Unpins each place in turn, and says of each whether that changed anything.
/// Asking for a state one is already in is no error.
pub fn unpin(pins: &mut Pins, targets: &[Place]) -> (changed: Vec<bool>)
    ensures
        final(pins)@ == unpinned_to(old(pins)@, targets@, targets@.len()),
        final(pins).schema_number() == old(pins).schema_number(),
        changed@.len() == targets@.len(),
        forall|i: int|
            0 <= i < changed@.len() ==> #[trigger] changed@[i] == held(
                unpinned_to(old(pins)@, targets@, i as nat),
                targets@[i],
            ),
{
    let ghost start = pins@;
    let mut changed: Vec<bool> = Vec::new();
    let mut i: usize = 0;
    while i < targets.len()
        invariant
            i <= targets@.len(),
            start == old(pins)@,
            pins.schema_number() == old(pins).schema_number(),
            pins@ == unpinned_to(start, targets@, i as nat),
            changed@.len() == i,
            forall|k: int|
                0 <= k < changed@.len() ==> #[trigger] changed@[k] == held(
                    unpinned_to(start, targets@, k as nat),
                    targets@[k],
                ),
        decreases targets.len() - i,
    {
        let t = &targets[i];
        let removed = pins.remove(t.0, t.1.as_str());
        changed.push(removed);
        i += 1;
    }
    changed
}

/// A lease as a verb takes it.
pub open spec fn lease_at(t: Place, now: u64, expires_at: u64, owner: Option<String>) -> Pin {
    Pin { provider: t.0, model: t.1, at: now, note: None, owner, expires_at: Some(expires_at) }
}

/// The store after the first `n` places were leased.
pub open spec fn leased_to(
    s: Seq<Pin>,
    targets: Seq<Place>,
    now: u64,
    expires_at: u64,
    owner: Option<String>,
    n: nat,
) -> Seq<Pin>
    decreases n,
{
    if n == 0 {
        s
    } else {
        leased(
            leased_to(s, targets, now, expires_at, owner, (n - 1) as nat),
            lease_at(targets[n - 1], now, expires_at, owner),
        ).0
    }
}

/// Leases each place in turn until `now + ttl`, over a store that lapsed
/// leases were swept from, and says what came of each.
pub fn lease(
    pins: &mut Pins,
    targets: &[Place],
    now: u64,
    ttl: u64,
    owner: &Option<String>,
) -> (outcomes: Vec<LeaseOutcome>)
    requires
        now + ttl <= u64::MAX,
    ensures
        final(pins)@ == leased_to(
            swept(old(pins)@, now),
            targets@,
            now,
            (now + ttl) as u64,
            *owner,
            targets@.len(),
        ),
        final(pins).schema_number() == old(pins).schema_number(),
        outcomes@.len() == targets@.len(),
        forall|i: int|
            0 <= i < outcomes@.len() ==> #[trigger] outcomes@[i] == leased(
                leased_to(
                    swept(old(pins)@, now),
                    targets@,
                    now,
                    (now + ttl) as u64,
                    *owner,
                    i as nat,
                ),
                lease_at(targets@[i], now, (now + ttl) as u64, *owner),
            ).1,
{
    let _ = pins.sweep(now);
    let ghost start = pins@;
    let expires_at: u64 = now + ttl;
    let mut outcomes: Vec<LeaseOutcome> = Vec::new();
    let mut i: usize = 0;
    while i < targets.len()
        invariant
            i <= targets@.len(),
            start == swept(old(pins)@, now),
            expires_at == now + ttl,
            pins.schema_number() == old(pins).schema_number(),
            pins@ == leased_to(start, targets@, now, expires_at, *owner, i as nat),
            outcomes@.len() == i,
            forall|k: int|
                0 <= k < outcomes@.len() ==> #[trigger] outcomes@[k] == leased(
                    leased_to(start, targets@, now, expires_at, *owner, k as nat),
                    lease_at(targets@[k], now, expires_at, *owner),
                ).1,
        decreases targets.len() - i,
    {
        let t = &targets[i];
        let entry = Pin {
            provider: t.0,
            model: t.1.clone(),
            at: now,
            note: None,
            owner: owner.clone(),
            expires_at: Some(expires_at),
        };
        proof {
            assert(entry == lease_at(*t, now, expires_at, *owner));
        }
        let outcome = pins.lease(entry);
        outcomes.push(outcome);
        i += 1;
    }
    outcomes
}

/// Whether nothing was leased: the one place asked for is pinned.
pub fn lease_refused(outcomes: &[LeaseOutcome]) -> (r: bool)
    ensures
        r == (outcomes@ == seq![LeaseOutcome::RefusedPinned]),
{
    if outcomes.len() != 1 {
        return false;
    }
    let refused: bool = match outcomes[0] {
        LeaseOutcome::RefusedPinned => true,
        _ => false,
    };
    proof {
        if refused {
            assert(outcomes@ =~= seq![LeaseOutcome::RefusedPinned]);
        }
    }
    refused
}

/// The store after the first `n` places were released.
pub open spec fn released_to(s: Seq<Pin>, targets: Seq<Place>, n: nat) -> Seq<Pin>
    decreases n,
{
    if n == 0 {
        s
    } else {
        released(
            released_to(s, targets, (n - 1) as nat),
            targets[n - 1].0,
            targets[n - 1].1@,
        ).0
    }
}

/// Gives each place's lease back in turn, over a store that lapsed leases were
/// swept from, and says what came of each.
pub fn release(pins: &mut Pins, targets: &[Place], now: u64) -> (outcomes: Vec<ReleaseOutcome>)
    ensures
        final(pins)@ == released_to(swept(old(pins)@, now), targets@, targets@.len()),
        final(pins).schema_number() == old(pins).schema_number(),
        outcomes@.len() == targets@.len(),
        forall|i: int|
            0 <= i < outcomes@.len() ==> #[trigger] outcomes@[i] == released(
                released_to(swept(old(pins)@, now), targets@, i as nat),
                targets@[i].0,
                targets@[i].1@,
            ).1,
{
    let _ = pins.sweep(now);
    let ghost start = pins@;
    let mut outcomes: Vec<ReleaseOutcome> = Vec::new();
    let mut i: usize = 0;
    while i < targets.len()
        invariant
            i <= targets@.len(),
            start == swept(old(pins)@, now),
            pins.schema_number() == old(pins).schema_number(),
            pins@ == released_to(start, targets@, i as nat),
            outcomes@.len() == i,
            forall|k: int|
                0 <= k < outcomes@.len() ==> #[trigger] outcomes@[k] == released(
                    released_to(start, targets@, k as nat),
                    targets@[k].0,
                    targets@[k].1@,
                ).1,
        decreases targets.len() - i,
    {
        let t = &targets[i];
        let outcome = pins.release(t.0, t.1.as_str());
        outcomes.push(outcome);
        i += 1;
    }
    outcomes
}

/// The line a lease is reported with.
pub open spec fn lease_text(t: Place, outcome: LeaseOutcome, ttl: u64) -> Seq<char> {
    let on = t.1@ + " on "@ + kind_text(t.0);
    match outcome {
        LeaseOutcome::Taken => "leased "@ + on + " for "@ + seconds_text(ttl as nat),
        LeaseOutcome::Extended => "extended the lease on "@ + on + " to "@ + seconds_text(
            ttl as nat,
        ),
        LeaseOutcome::AlreadyLonger => on + " is already leased for longer"@,
        LeaseOutcome::RefusedPinned => on
            + " is pinned; leaving the pin alone (a lease would be a downgrade)"@,
    }
}

/// What came of a lease, as a line to read.
pub fn lease_line(t: &Place, outcome: LeaseOutcome, ttl: u64) -> (r: String)
    ensures
        r@ == lease_text(*t, outcome, ttl),
{
    let on = cat3(t.1.as_str(), " on ", t.0.as_str());
    let left = human_seconds(ttl);
    match outcome {
        LeaseOutcome::Taken => cat4("leased ", on.as_str(), " for ", left.as_str()),
        LeaseOutcome::Extended => cat4(
            "extended the lease on ",
            on.as_str(),
            " to ",
            left.as_str(),
        ),
        LeaseOutcome::AlreadyLonger => cat2(
            on.as_str(),
            " is already leased for longer",
        ),
        LeaseOutcome::RefusedPinned => cat2(
            on.as_str(),
            " is pinned; leaving the pin alone (a lease would be a downgrade)",
        ),
    }
}

/// Whether an artifact is a build of the model a name stands for.
pub open spec fn is_build_of(a: Artifact, model: Seq<char>) -> bool {
    canonical(a.name_hint@) == canonical(model)
}

/// Every artifact that a removal of a model would take.
pub fn builds_named(inventory: &Inventory, model: &str) -> (r: Vec<Artifact>)
    ensures
        r@ == inventory.artifacts@.filter(|a: Artifact| is_build_of(a, model@)),
{
    let want = canonical_name(model);
    let all = &inventory.artifacts;
    let ghost p = |a: Artifact| is_build_of(a, model@);
    let mut out: Vec<Artifact> = Vec::new();
    let mut i: usize = 0;
    while i < all.len()
        invariant
            i <= all@.len(),
            want@ == canonical(model@),
            p == (|a: Artifact| is_build_of(a, model@)),
            out@ == all@.take(i as int).filter(p),
        decreases all.len() - i,
    {
        proof {
            lemma_filter_take(all@, p, i as int);
        }
        if same(canonical_name(all[i].name_hint.as_str()).as_str(), want.as_str()) {
            out.push(all[i].clone());
        }
        i += 1;
    }
    proof {
        assert(all@.take(i as int) =~= all@);
    }
    out
}

/// Unpinning reaches every place asked for: nothing holds any of them
/// afterwards.
pub proof fn unpin_reaches_every_target(s: Seq<Pin>, targets: Seq<Place>, i: int, n: nat)
    requires
        0 <= i < n <= targets.len(),
    ensures
        !held(unpinned_to(s, targets, n), targets[i]),
    decreases n,
{
    let t = targets[i];
    let f = |p: Pin| about(p, t.0, t.1@);
    let before = unpinned_to(s, targets, (n - 1) as nat);
    let last = targets[n - 1];
    let q = |p: Pin| !about(p, last.0, last.1@);
    crate::seqs::lemma_filter_members(before, q);
    let after = before.filter(q);
    if i < n - 1 {
        unpin_reaches_every_target(s, targets, i, (n - 1) as nat);
        if after.any(f) {
            let k = choose|k: int| 0 <= k < after.len() && f(#[trigger] after[k]);
            assert(after.contains(after[k]));
            let j = choose|j: int| 0 <= j < before.len() && before[j] == after[k];
            assert(f(before[j]));
            assert(before.any(f));
        }
    } else if after.any(f) {
        let k = choose|k: int| 0 <= k < after.len() && f(#[trigger] after[k]);
        assert(after.contains(after[k]));
        assert(q(after[k]));
    }
}

/// Pinning reaches every place asked for: each is protected without end
/// afterwards, whatever lease there was on it.
pub proof fn pin_reaches_every_target(
    s: Seq<Pin>,
    targets: Seq<Place>,
    at: u64,
    note: Option<String>,
    i: int,
    n: nat,
)
    requires
        0 <= i < n <= targets.len(),
    ensures
        held_for_good(pinned_to(s, targets, at, note, n), targets[i]),
    decreases n,
{
    let t = targets[i];
    let f = |p: Pin| pins_down(p, t.0, t.1@);
    let last = targets[n - 1];
    let before = pinned_to(s, targets, at, note, (n - 1) as nat);
    let entry = pin_at(last, at, note);
    let after = pinned_to(s, targets, at, note, n);
    let d = |p: Pin| pins_down(p, entry.provider, entry.model@);
    crate::seqs::lemma_first_index(before, |p: Pin| about(p, entry.provider, entry.model@));
    if i < n - 1 {
        pin_reaches_every_target(s, targets, at, note, i, (n - 1) as nat);
        let k = choose|k: int| 0 <= k < before.len() && f(#[trigger] before[k]);
        if after[k] != before[k] {
            assert(d(before[k]));
        }
        assert(f(after[k]));
    } else if !before.any(d) {
        let k = place_of(before, entry.provider, entry.model@);
        assert(after[k] == entry);
        assert(f(after[k]));
    }
}

/// Leasing reaches every place asked for: each is held until the time asked
/// for, whatever else is leased, and whatever was held stays held.
pub proof fn a_lease_reaches_every_target(
    s: Seq<Pin>,
    targets: Seq<Place>,
    now: u64,
    expires_at: u64,
    owner: Option<String>,
    n: nat,
    at: u64,
)
    requires
        n <= targets.len(),
    ensures
        forall|i: int|
            0 <= i < n && at < expires_at ==> holder(
                leased_to(s, targets, now, expires_at, owner, n),
                (#[trigger] targets[i]).0,
                targets[i].1@,
                at,
            ) is Some,
        forall|provider: ProviderKind, model: Seq<char>|
            holder(s, provider, model, at) is Some ==> #[trigger] holder(
                leased_to(s, targets, now, expires_at, owner, n),
                provider,
                model,
                at,
            ) is Some,
    decreases n,
{
    if n > 0 {
        let m = (n - 1) as nat;
        a_lease_reaches_every_target(s, targets, now, expires_at, owner, m, at);
        let before = leased_to(s, targets, now, expires_at, owner, m);
        let after = leased_to(s, targets, now, expires_at, owner, n);
        let entry = lease_at(targets[m as int], now, expires_at, owner);
        assert forall|provider: ProviderKind, model: Seq<char>|
            holder(before, provider, model, at) is Some implies #[trigger] holder(
            after,
            provider,
            model,
            at,
        ) is Some by {
            held_iff_protected(before, provider, model, at);
            a_lease_weakens_nothing(before, entry, provider, model, at);
            held_iff_protected(after, provider, model, at);
        }
        assert forall|i: int| 0 <= i < n && at < expires_at implies holder(
            after,
            (#[trigger] targets[i]).0,
            targets[i].1@,
            at,
        ) is Some by {
            if i == m {
                a_lease_protects_for_its_term(before, entry, at);
                held_iff_protected(after, targets[i].0, targets[i].1@, at);
            } else {
                assert(holder(before, targets[i].0, targets[i].1@, at) is Some);
            }
        }
    }
}

/// Releasing reaches what was asked for and nothing else: an entry is gone only
/// where it was a lease about one of the places, and every pin stays.
pub proof fn a_release_reaches_only_its_targets(s: Seq<Pin>, targets: Seq<Place>, n: nat, p: Pin)
    requires
        n <= targets.len(),
        s.contains(p),
        p.expires_at is None || forall|i: int|
            0 <= i < n ==> (#[trigger] targets[i]).0 != p.provider || targets[i].1@ != p.model@,
    ensures
        released_to(s, targets, n).contains(p),
    decreases n,
{
    if n > 0 {
        let m = (n - 1) as nat;
        a_release_reaches_only_its_targets(s, targets, m, p);
        let before = released_to(s, targets, m);
        let t = targets[m as int];
        let q = |x: Pin| about(x, t.0, t.1@);
        crate::seqs::lemma_first_index(before, q);
        let i = place_of(before, t.0, t.1@);
        let k = before.index_of(p);
        if i < before.len() && before[i].expires_at is Some {
            assert(q(before[i]));
            assert(k != i) by {
                if k == i {
                    assert(targets[m as int].0 != p.provider || targets[m as int].1@ != p.model@);
                }
            }
            let after = before.remove(i);
            if k < i {
                assert(after[k] == p);
            } else {
                assert(after[k - 1] == p);
            }
        }
    }
}

/// A removal by name takes exactly the artifacts that go by the name once what
/// varies between builds is gone.
pub proof fn a_name_takes_every_build_of_it(artifacts: Seq<Artifact>, model: Seq<char>, a: Artifact)
    ensures
        artifacts.filter(|a: Artifact| is_build_of(a, model)).contains(a) <==> artifacts.contains(a)
            && canonical(a.name_hint@) == canonical(model),
{
    let p = |a: Artifact| is_build_of(a, model);
    crate::seqs::lemma_filter_members(artifacts, p);
    assert(artifacts.filter(p).contains(a) <==> artifacts.contains(a) && p(a));
}

} // verus!
