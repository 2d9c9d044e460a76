//! Models that may not be evicted to make room for something else.
//!
//! A pin is a **veto, never a reservation**. It cannot make a model resident
//! and it cannot reserve memory for one; it only removes a model from the set
//! of things that may be unloaded on someone else's behalf. The consequence is
//! that a pin can cause a refusal on a machine that looks half empty, which is
//! why every refusal that a pin caused has to name it.
//!
//! Runtime state, deliberately not config: the point is to protect a model
//! that is *already loaded*, which a file the user hand-edits before starting
//! anything cannot serve.
use vstd::prelude::*;

use crate::provider::{kind_text, ProviderKind};
use crate::rounding::{quotient_tenths, show_quotient_tenths};
use crate::seqs::{
    first_index, first_match, lemma_filter_members, lemma_filter_take, lemma_first_index,
    lemma_first_index_is,
};
use crate::text::{cat2, cat3, cat4, decimal, number, same};

verus! {

/// One protected model.
#[derive(Debug, PartialEq, Eq)]
pub struct Pin {
    pub provider: ProviderKind,
    pub model: String,
    /// Unix seconds, so `status` can say how long it has been held.
    pub at: u64,
    pub note: Option<String>,
    /// Who asked for this protection, when anyone did. A pin set by hand has
    /// none; a lease taken by a client has one, and every refusal it causes
    /// names it.
    pub owner: Option<String>,
    /// Unix seconds after which this protects nothing.
    ///
    /// `None` is a pin: protection with no end. **A pin is a lease with no
    /// expiry**, and they share one store because eviction has exactly one
    /// place to ask.
    pub expires_at: Option<u64>,
}

impl Clone for Pin {
    fn clone(&self) -> (r: Self)
        ensures
            r == *self,
    {
        Pin {
            provider: self.provider,
            model: self.model.clone(),
            at: self.at,
            note: self.note.clone(),
            owner: self.owner.clone(),
            expires_at: self.expires_at,
        }
    }
}

/// Whether an entry still protects at `now`.
pub open spec fn live(p: Pin, now: u64) -> bool {
    match p.expires_at {
        Some(e) => now < e,
        None => true,
    }
}

/// Whether an entry is about this model on this provider.
pub open spec fn about(p: Pin, provider: ProviderKind, model: Seq<char>) -> bool {
    p.provider == provider && p.model@ == model
}

/// A span, to the order of magnitude a refusal needs.
pub open spec fn seconds_text(s: nat) -> Seq<char> {
    if s == 0 {
        "expired"@
    } else if s < 90 {
        decimal(s) + "s"@
    } else if s < 5400 {
        decimal(s / 60) + "m"@
    } else {
        quotient_tenths(s, 3600) + "h"@
    }
}

/// What is left of a term that ends at `e`.
pub open spec fn left_text(e: u64, now: u64) -> Seq<char> {
    seconds_text(if e >= now {
        (e - now) as nat
    } else {
        0
    })
}

/// How an entry is named in a refusal it caused.
pub open spec fn blame_text(p: Pin, now: u64) -> Seq<char> {
    let place = p.model@ + " on "@ + kind_text(p.provider);
    match (p.owner, p.expires_at) {
        (Some(who), Some(e)) => place + " (leased by "@ + who@ + ", "@ + left_text(e, now)
            + " left)"@,
        (None, Some(e)) => place + " (leased, "@ + left_text(e, now) + " left)"@,
        (Some(who), None) => place + " (pinned by "@ + who@ + ")"@,
        (None, None) => place,
    }
}

/// Coarse on purpose: a refusal needs the order of magnitude, and a lease
/// measured to the second would imply a precision the expiry does not have.
pub fn human_seconds(s: u64) -> (r: String)
    ensures
        r@ == seconds_text(s as nat),
{
    if s == 0 {
        "expired".to_owned()
    } else if s < 90 {
        cat2(number(s).as_str(), "s")
    } else if s < 5400 {
        cat2(number(s / 60).as_str(), "m")
    } else {
        // One decimal, because flooring turns a two-hour lease into "1h" the
        // moment it starts.
        cat2(show_quotient_tenths(s, 3600).as_str(), "h")
    }
}

impl Pin {
    /// Still protecting, as of `now`.
    pub fn live_at(&self, now: u64) -> (r: bool)
        ensures
            r == live(*self, now),
    {
        match self.expires_at {
            Some(e) => now < e,
            None => true,
        }
    }

    /// Whether this entry is about `model` on `provider`.
    pub fn is_about(&self, provider: ProviderKind, model: &str) -> (r: bool)
        ensures
            r == about(*self, provider, model@),
    {
        self.provider == provider && same(self.model.as_str(), model)
    }

    /// How this entry should be named in a refusal it caused.
    pub fn blame(&self, now: u64) -> (r: String)
        ensures
            r@ == blame_text(*self, now),
    {
        let place = cat3(self.model.as_str(), " on ", self.provider.as_str());
        match (&self.owner, self.expires_at) {
            (Some(who), Some(e)) => {
                let left = human_seconds(e.saturating_sub(now));
                let head = cat4(place.as_str(), " (leased by ", who.as_str(), ", ");
                cat3(head.as_str(), left.as_str(), " left)")
            },
            (None, Some(e)) => {
                let left = human_seconds(e.saturating_sub(now));
                cat4(place.as_str(), " (leased, ", left.as_str(), " left)")
            },
            (Some(who), None) => cat4(place.as_str(), " (pinned by ", who.as_str(), ")"),
            (None, None) => place,
        }
    }
}

/// What taking a lease did. Reported rather than swallowed, so a caller can
/// tell "you now hold it" from "a pin already protects this, and I left it
/// alone".
#[derive(Debug, Clone, Copy, PartialEq, Eq, Structural)]
pub enum LeaseOutcome {
    Taken,
    Extended,
    /// Asked for no more time than the lease already had. Nothing changed.
    AlreadyLonger,
    /// A pin holds this model. A lease would be a downgrade, so it was refused.
    RefusedPinned,
}

/// What releasing did.
#[derive(Debug, Clone, Copy, PartialEq, Eq, Structural)]
pub enum ReleaseOutcome {
    Released,
    /// Nothing held it. Asking for a state you are already in is a success.
    NotHeld,
    /// A pin held it, and a pin is not a lease's to clear. `unpin` is.
    WasPinned,
}

/// The pin store.
#[derive(Debug)]
pub struct Pins {
    schema: u32,
    pins: Vec<Pin>,
}

impl View for Pins {
    type V = Seq<Pin>;

    closed spec fn view(&self) -> Seq<Pin> {
        self.pins@
    }
}

/// Where the first entry about a model stands, or the length when there is none.
pub open spec fn place_of(s: Seq<Pin>, provider: ProviderKind, model: Seq<char>) -> int {
    first_index(s, |p: Pin| about(p, provider, model))
}

/// The entry that protects a model at `now`.
pub open spec fn holder(s: Seq<Pin>, provider: ProviderKind, model: Seq<char>, now: u64) -> Option<
    Pin,
> {
    first_match(s, |p: Pin| about(p, provider, model) && live(p, now))
}

/// Whether an entry protects this model without end.
pub open spec fn pins_down(p: Pin, provider: ProviderKind, model: Seq<char>) -> bool {
    about(p, provider, model) && p.expires_at is None
}

/// What adding an entry turns a store into, and whether it changed anything. A
/// lease gives way to a pin, and to nothing that ends.
pub open spec fn pinned(s: Seq<Pin>, pin: Pin) -> (Seq<Pin>, bool) {
    let i = place_of(s, pin.provider, pin.model@);
    if s.any(|p: Pin| pins_down(p, pin.provider, pin.model@)) {
        (s, false)
    } else if i == s.len() {
        (s.push(pin), true)
    } else if pin.expires_at is None {
        (s.update(i, pin), true)
    } else {
        (s, false)
    }
}

/// What a lease turns a store into, and what is said of it.
pub open spec fn leased(s: Seq<Pin>, pin: Pin) -> (Seq<Pin>, LeaseOutcome) {
    let i = place_of(s, pin.provider, pin.model@);
    if i == s.len() {
        (s.push(pin), LeaseOutcome::Taken)
    } else {
        match (s[i].expires_at, pin.expires_at) {
            (None, _) => (s, LeaseOutcome::RefusedPinned),
            (Some(had), Some(asked)) if asked > had => (
                s.update(
                    i,
                    Pin {
                        expires_at: Some(asked),
                        owner: if pin.owner is Some {
                            pin.owner
                        } else {
                            s[i].owner
                        },
                        ..s[i]
                    },
                ),
                LeaseOutcome::Extended,
            ),
            _ => (s, LeaseOutcome::AlreadyLonger),
        }
    }
}

/// What a release turns a store into, and what is said of it.
pub open spec fn released(s: Seq<Pin>, provider: ProviderKind, model: Seq<char>) -> (
    Seq<Pin>,
    ReleaseOutcome,
) {
    let i = place_of(s, provider, model);
    if i == s.len() {
        (s, ReleaseOutcome::NotHeld)
    } else if s[i].expires_at is None {
        (s, ReleaseOutcome::WasPinned)
    } else {
        (s.remove(i), ReleaseOutcome::Released)
    }
}

/// A store without its lapsed leases.
pub open spec fn swept(s: Seq<Pin>, now: u64) -> Seq<Pin> {
    s.filter(|p: Pin| live(p, now))
}

/// A store without any entry about a model.
pub open spec fn cleared(s: Seq<Pin>, provider: ProviderKind, model: Seq<char>) -> Seq<Pin> {
    s.filter(|p: Pin| !about(p, provider, model))
}

impl Clone for Pins {
    fn clone(&self) -> (r: Self)
        ensures
            r@ == self@,
            r.schema_number() == self.schema_number(),
    {
        let pins = self.pins.clone();
        proof {
            assert(pins@ =~= self.pins@);
        }
        Pins { schema: self.schema, pins }
    }
}

impl Default for Pins {
    fn default() -> (r: Self)
        ensures
            r@ == Seq::<Pin>::empty(),
            r.schema_number() == 1,
    {
        Pins::empty()
    }
}

impl Pins {
    pub closed spec fn schema_number(&self) -> u32 {
        self.schema
    }

    pub fn empty() -> (r: Pins)
        ensures
            r@ == Seq::<Pin>::empty(),
            r.schema_number() == 1,
    {
        Pins { schema: 1, pins: Vec::new() }
    }

    /// A store read back from where it was kept. A document that names no
    /// schema is of the first.
    pub fn from_parts(schema: Option<u32>, pins: Vec<Pin>) -> (r: Pins)
        ensures
            r@ == pins@,
            r.schema_number() == schema.unwrap_or(1),
    {
        Pins {
            schema: match schema {
                Some(n) => n,
                None => 1,
            },
            pins,
        }
    }

    pub fn schema(&self) -> (r: u32)
        ensures
            r == self.schema_number(),
    {
        self.schema
    }

    /// The place of the first entry about a model.
    fn place(&self, provider: ProviderKind, model: &str) -> (i: usize)
        ensures
            i == place_of(self@, provider, model@),
            i <= self@.len(),
    {
        let ghost p = |p: Pin| about(p, provider, model@);
        let mut i: usize = 0;
        while i < self.pins.len()
            invariant
                i <= self.pins.len(),
                p == (|p: Pin| about(p, provider, model@)),
                forall|j: int| 0 <= j < i ==> !p(#[trigger] self.pins@[j]),
            decreases self.pins.len() - i,
        {
            if self.pins[i].is_about(provider, model) {
                proof {
                    lemma_first_index_is(self.pins@, p, i as int);
                }
                return i;
            }
            i += 1;
        }
        proof {
            lemma_first_index_is(self.pins@, p, i as int);
        }
        i
    }

    /// Keyed on the pair: the same model id on another provider is a different
    /// artifact with a different footprint, and protecting one must not
    /// protect the other.
    ///
    /// **Ignores expiry, and is for display only.** Every decision goes
    /// through [`Pins::holds`], which takes the time.
    pub fn is_pinned(&self, provider: ProviderKind, model: &str) -> (r: bool)
        ensures
            r == self@.any(|p: Pin| about(p, provider, model@)),
    {
        proof {
            lemma_first_index(self@, |p: Pin| about(p, provider, model@));
        }
        self.place(provider, model) < self.pins.len()
    }

    /// The entry protecting this model right now, if any.
    ///
    /// The one question eviction asks.
    pub fn holds(&self, provider: ProviderKind, model: &str, now: u64) -> (r: Option<&Pin>)
        ensures
            match r {
                Some(p) => holder(self@, provider, model@, now) == Some(*p),
                None => holder(self@, provider, model@, now) is None,
            },
    {
        let ghost q = |p: Pin| about(p, provider, model@) && live(p, now);
        let mut i: usize = 0;
        while i < self.pins.len()
            invariant
                i <= self.pins.len(),
                q == (|p: Pin| about(p, provider, model@) && live(p, now)),
                forall|j: int| 0 <= j < i ==> !q(#[trigger] self.pins@[j]),
            decreases self.pins.len() - i,
        {
            if self.pins[i].is_about(provider, model) && self.pins[i].live_at(now) {
                proof {
                    lemma_first_index_is(self.pins@, q, i as int);
                }
                return Some(&self.pins[i]);
            }
            i += 1;
        }
        proof {
            lemma_first_index_is(self.pins@, q, i as int);
        }
        None
    }

    /// Drop every lapsed lease. Returns how many went.
    ///
    /// Housekeeping, not policy: it changes nothing about what is protected.
    pub fn sweep(&mut self, now: u64) -> (gone: usize)
        ensures
            final(self)@ == swept(old(self)@, now),
            final(self).schema_number() == old(self).schema_number(),
            gone == old(self)@.len() - final(self)@.len(),
    {
        let before: usize = self.pins.len();
        let ghost all = self.pins@;
        let ghost q = |p: Pin| live(p, now);
        let mut kept: Vec<Pin> = Vec::new();
        let mut i: usize = 0;
        while i < before
            invariant
                i <= before == all.len(),
                self.pins@ == all.skip(i as int),
                self.schema == old(self).schema,
                q == (|p: Pin| live(p, now)),
                kept@ == all.take(i as int).filter(q),
                kept@.len() <= i,
            decreases before - i,
        {
            let p = self.pins.remove(0);
            proof {
                lemma_filter_take(all, q, i as int);
                assert(self.pins@ =~= all.skip(i + 1));
            }
            if p.live_at(now) {
                kept.push(p);
            }
            i += 1;
        }
        proof {
            assert(all.take(i as int) =~= all);
        }
        let left: usize = kept.len();
        self.pins = kept;
        before - left
    }

    pub fn all(&self) -> (r: &[Pin])
        ensures
            r@ == self@,
    {
        self.pins.as_slice()
    }

    /// Take or renew a lease, refusing to weaken anything.
    ///
    /// A second lease over a live one moves the expiry to whichever is later.
    /// A lease over a *pin* is refused outright: replacing it would quietly
    /// convert permanent protection into temporary protection.
    pub fn lease(&mut self, pin: Pin) -> (r: LeaseOutcome)
        ensures
            (final(self)@, r) == leased(old(self)@, pin),
            final(self).schema_number() == old(self).schema_number(),
    {
        let i = self.place(pin.provider, pin.model.as_str());
        if i == self.pins.len() {
            self.pins.push(pin);
            return LeaseOutcome::Taken;
        }
        match (self.pins[i].expires_at, pin.expires_at) {
            (None, _) => LeaseOutcome::RefusedPinned,
            (Some(had), Some(asked)) => {
                if asked > had {
                    let mut entry = self.pins[i].clone();
                    entry.expires_at = Some(asked);
                    if pin.owner.is_some() {
                        entry.owner = pin.owner;
                    }
                    self.pins.set(i, entry);
                    LeaseOutcome::Extended
                } else {
                    LeaseOutcome::AlreadyLonger
                }
            },
            (Some(_), None) => LeaseOutcome::AlreadyLonger,
        }
    }

    /// `false` if it was already pinned. A lease on the model gives way to a
    /// pin, lapsed or not: protection that ends becomes protection that does
    /// not. An entry that ends itself replaces nothing: `lease` renews.
    pub fn add(&mut self, pin: Pin) -> (added: bool)
        ensures
            (final(self)@, added) == pinned(old(self)@, pin),
            final(self).schema_number() == old(self).schema_number(),
    {
        let ghost q = |p: Pin| pins_down(p, pin.provider, pin.model@);
        let mut k: usize = 0;
        while k < self.pins.len()
            invariant
                k <= self.pins@.len(),
                *self == *old(self),
                q == (|p: Pin| pins_down(p, pin.provider, pin.model@)),
                forall|j: int| 0 <= j < k ==> !q(#[trigger] self.pins@[j]),
            decreases self.pins.len() - k,
        {
            let p = &self.pins[k];
            if p.provider == pin.provider && same(p.model.as_str(), pin.model.as_str())
                && p.expires_at.is_none() {
                proof {
                    assert(q(self.pins@[k as int]));
                }
                return false;
            }
            k += 1;
        }
        let i = self.place(pin.provider, pin.model.as_str());
        if i == self.pins.len() {
            self.pins.push(pin);
            return true;
        }
        if pin.expires_at.is_some() {
            return false;
        }
        self.pins.set(i, pin);
        true
    }

    /// Give a lease back early.
    ///
    /// Refuses to touch a pin: `unpin` is the verb that clears permanent
    /// protection, and a client releasing its own lease must not be able to
    /// clear a pin somebody set by hand.
    pub fn release(&mut self, provider: ProviderKind, model: &str) -> (r: ReleaseOutcome)
        ensures
            (final(self)@, r) == released(old(self)@, provider, model@),
            final(self).schema_number() == old(self).schema_number(),
    {
        let i = self.place(provider, model);
        if i == self.pins.len() {
            return ReleaseOutcome::NotHeld;
        }
        if self.pins[i].expires_at.is_none() {
            return ReleaseOutcome::WasPinned;
        }
        let _ = self.pins.remove(i);
        ReleaseOutcome::Released
    }

    /// `false` if it was not pinned. Reported rather than swallowed so
    /// `unpin` can tell the operator nothing changed.
    pub fn remove(&mut self, provider: ProviderKind, model: &str) -> (removed: bool)
        ensures
            final(self)@ == cleared(old(self)@, provider, model@),
            removed == old(self)@.any(|p: Pin| about(p, provider, model@)),
            final(self).schema_number() == old(self).schema_number(),
    {
        let before: usize = self.pins.len();
        let ghost all = self.pins@;
        let ghost q = |p: Pin| !about(p, provider, model@);
        let ghost about_it = |p: Pin| about(p, provider, model@);
        let mut kept: Vec<Pin> = Vec::new();
        let mut any: bool = false;
        let mut i: usize = 0;
        while i < before
            invariant
                i <= before == all.len(),
                self.pins@ == all.skip(i as int),
                self.schema == old(self).schema,
                q == (|p: Pin| !about(p, provider, model@)),
                about_it == (|p: Pin| about(p, provider, model@)),
                kept@ == all.take(i as int).filter(q),
                any == exists|j: int| 0 <= j < i && about_it(#[trigger] all[j]),
            decreases before - i,
        {
            let p = self.pins.remove(0);
            proof {
                lemma_filter_take(all, q, i as int);
                assert(self.pins@ =~= all.skip(i + 1));
                assert(p == all[i as int]);
            }
            if p.is_about(provider, model) {
                proof {
                    assert(about_it(all[i as int]));
                }
                any = true;
            } else {
                kept.push(p);
            }
            i += 1;
        }
        proof {
            assert(all.take(i as int) =~= all);
        }
        self.pins = kept;
        any
    }
}

/// Whether anything protects a model at `now`.
pub open spec fn protected(s: Seq<Pin>, provider: ProviderKind, model: Seq<char>, now: u64) -> bool {
    exists|i: int|
        0 <= i < s.len() && about(#[trigger] s[i], provider, model) && live(s[i], now)
}

/// No two entries are about the same model on the same provider.
pub open spec fn one_each(s: Seq<Pin>) -> bool {
    forall|i: int, j: int|
        0 <= i < j < s.len() ==> !about(#[trigger] s[i], (#[trigger] s[j]).provider, s[j].model@)
}

/// A model is held exactly when some live entry is about it, and the holder is such an entry.
pub proof fn held_iff_protected(s: Seq<Pin>, provider: ProviderKind, model: Seq<char>, now: u64)
    ensures
        holder(s, provider, model, now) is Some <==> protected(s, provider, model, now),
        holder(s, provider, model, now) matches Some(p) ==> s.contains(p) && about(
            p,
            provider,
            model,
        ) && live(p, now),
{
    let q = |p: Pin| about(p, provider, model) && live(p, now);
    lemma_first_index(s, q);
    if protected(s, provider, model, now) {
        let i = choose|i: int|
            0 <= i < s.len() && about(#[trigger] s[i], provider, model) && live(s[i], now);
        assert(q(s[i]));
        assert(s.any(q));
    }
}

/// Protection is keyed on the pair: an entry about a model on one provider
/// protects nothing on another.
pub proof fn protection_is_keyed_on_the_pair(
    pin: Pin,
    provider: ProviderKind,
    model: Seq<char>,
    now: u64,
)
    requires
        pin.provider != provider || pin.model@ != model,
    ensures
        !protected(seq![pin], provider, model, now),
{
}

/// Sweeping changes no answer, at the time it is done or at any later one.
pub proof fn sweep_changes_no_answer(
    s: Seq<Pin>,
    swept_at: u64,
    provider: ProviderKind,
    model: Seq<char>,
    now: u64,
)
    requires
        swept_at <= now,
    ensures
        holder(swept(s, swept_at), provider, model, now) == holder(s, provider, model, now),
    decreases s.len(),
{
    let q = |p: Pin| about(p, provider, model) && live(p, now);
    let k = |p: Pin| live(p, swept_at);
    lemma_first_index(s, q);
    lemma_first_index(s.filter(k), q);
    lemma_first_of_filter(s, k, q);
}

/// Filtering by something every match satisfies does not move the first match.
proof fn lemma_first_of_filter<T>(s: Seq<T>, keep: spec_fn(T) -> bool, q: spec_fn(T) -> bool)
    requires
        forall|x: T| #[trigger] q(x) ==> keep(x),
    ensures
        first_match(s.filter(keep), q) == first_match(s, q),
    decreases s.len(),
{
    reveal(Seq::filter);
    lemma_first_index(s, q);
    if s.len() > 0 {
        let t = s.drop_last();
        let x = s.last();
        lemma_first_of_filter(t, keep, q);
        lemma_first_index(t, q);
        lemma_first_index(t.filter(keep), q);
        let i = first_index(t, q);
        if i < t.len() {
            assert forall|j: int| 0 <= j < i implies !q(#[trigger] s[j]) by {
                assert(!q(t[j]));
            }
            assert(s[i] == t[i]);
            lemma_first_index_is(s, q, i);
            let f = t.filter(keep);
            let m = first_index(f, q);
            assert(m < f.len());
            let g = s.filter(keep);
            assert(g == f || g == f.push(x));
            assert forall|j: int| 0 <= j < m implies !q(#[trigger] g[j]) by {
                assert(!q(f[j]));
            }
            assert(g[m] == f[m]);
            lemma_first_index_is(g, q, m);
        } else {
            let f = t.filter(keep);
            assert(first_index(f, q) == f.len());
            assert forall|j: int| 0 <= j < t.len() implies !q(#[trigger] s[j]) by {
                assert(!q(t[j]));
            }
            if q(x) {
                lemma_first_index_is(s, q, t.len() as int);
                let g = f.push(x);
                assert(s.filter(keep) == g);
                assert forall|j: int| 0 <= j < f.len() implies !q(#[trigger] g[j]) by {
                    assert(!q(f[j]));
                }
                lemma_first_index_is(g, q, f.len() as int);
            } else {
                lemma_first_index_is(s, q, s.len() as int);
                let g = s.filter(keep);
                assert(g == f || g == f.push(x));
                assert forall|j: int| 0 <= j < g.len() implies !q(#[trigger] g[j]) by {
                    if j < f.len() {
                        assert(!q(f[j]));
                    }
                }
                lemma_first_index_is(g, q, g.len() as int);
            }
        }
    }
}

/// Taking a lease weakens nothing: whatever was protected stays protected, for
/// every model and at every time.
pub proof fn a_lease_weakens_nothing(
    s: Seq<Pin>,
    pin: Pin,
    provider: ProviderKind,
    model: Seq<char>,
    now: u64,
)
    requires
        protected(s, provider, model, now),
    ensures
        protected(leased(s, pin).0, provider, model, now),
{
    let after = leased(s, pin).0;
    lemma_first_index(s, |p: Pin| about(p, pin.provider, pin.model@));
    let i = choose|i: int|
        0 <= i < s.len() && about(#[trigger] s[i], provider, model) && live(s[i], now);
    assert(about(after[i], provider, model) && live(after[i], now));
}

/// Whatever a lease answers, the model is protected until the time asked for.
pub proof fn a_lease_protects_for_its_term(s: Seq<Pin>, pin: Pin, now: u64)
    requires
        live(pin, now),
        pin.expires_at is Some,
    ensures
        protected(leased(s, pin).0, pin.provider, pin.model@, now),
{
    let q = |p: Pin| about(p, pin.provider, pin.model@);
    lemma_first_index(s, q);
    let i = place_of(s, pin.provider, pin.model@);
    let after = leased(s, pin).0;
    if i < s.len() {
        assert(q(s[i]));
        assert(about(after[i], pin.provider, pin.model@) && live(after[i], now));
    } else {
        assert(about(after[s.len() as int], pin.provider, pin.model@));
    }
}

/// A pin is out of a lease's reach: neither taking one over it nor releasing
/// it changes the store.
pub proof fn a_pin_is_not_a_leases_to_change(s: Seq<Pin>, pin: Pin)
    requires
        holder_entry(s, pin.provider, pin.model@) matches Some(p) && p.expires_at is None,
    ensures
        leased(s, pin) == (s, LeaseOutcome::RefusedPinned),
        released(s, pin.provider, pin.model@) == (s, ReleaseOutcome::WasPinned),
{
    lemma_first_index(s, |p: Pin| about(p, pin.provider, pin.model@));
}

/// The first entry about a model, live or not.
pub open spec fn holder_entry(s: Seq<Pin>, provider: ProviderKind, model: Seq<char>) -> Option<
    Pin,
> {
    first_match(s, |p: Pin| about(p, provider, model))
}

/// A lease that was taken can be given back, and the store is then as it was.
pub proof fn release_undoes_a_taken_lease(s: Seq<Pin>, pin: Pin)
    requires
        leased(s, pin).1 == LeaseOutcome::Taken,
        pin.expires_at is Some,
    ensures
        released(leased(s, pin).0, pin.provider, pin.model@) == (s, ReleaseOutcome::Released),
{
    let q = |p: Pin| about(p, pin.provider, pin.model@);
    lemma_first_index(s, q);
    let after = s.push(pin);
    assert forall|j: int| 0 <= j < s.len() implies !q(#[trigger] after[j]) by {
        assert(!q(s[j]));
    }
    lemma_first_index_is(after, q, s.len() as int);
    assert(after.remove(s.len() as int) =~= s);
}

/// Clearing a model leaves every other model exactly as protected as before,
/// and itself not at all.
pub proof fn clearing_reaches_one_model_only(
    s: Seq<Pin>,
    provider: ProviderKind,
    model: Seq<char>,
    other: ProviderKind,
    other_model: Seq<char>,
    now: u64,
)
    ensures
        !protected(cleared(s, provider, model), provider, model, now),
        other != provider || other_model != model ==> (protected(
            cleared(s, provider, model),
            other,
            other_model,
            now,
        ) <==> protected(s, other, other_model, now)),
{
    let k = |p: Pin| !about(p, provider, model);
    lemma_filter_members(s, k);
    let c = cleared(s, provider, model);
    assert forall|i: int| 0 <= i < c.len() implies !about(#[trigger] c[i], provider, model) by {
        assert(k(c[i]));
    }
    if other != provider || other_model != model {
        if protected(s, other, other_model, now) {
            let i = choose|i: int|
                0 <= i < s.len() && about(#[trigger] s[i], other, other_model) && live(s[i], now);
            assert(s.contains(s[i]) && k(s[i]));
            assert(c.contains(s[i]));
            let j = c.index_of(s[i]);
            assert(about(c[j], other, other_model) && live(c[j], now));
        }
        if protected(c, other, other_model, now) {
            let i = choose|i: int|
                0 <= i < c.len() && about(#[trigger] c[i], other, other_model) && live(c[i], now);
            assert(s.contains(c[i]));
            let j = s.index_of(c[i]);
            assert(about(s[j], other, other_model) && live(s[j], now));
        }
    }
}

/// A pinned model is held at every time, whatever lease there was on it
/// before, and nothing changes where it was pinned already.
pub proof fn a_pin_protects_without_end(s: Seq<Pin>, pin: Pin, now: u64)
    requires
        pin.expires_at is None,
    ensures
        holder(pinned(s, pin).0, pin.provider, pin.model@, now) is Some,
        pinned(s, pin).1 <==> !s.any(|p: Pin| pins_down(p, pin.provider, pin.model@)),
        !pinned(s, pin).1 ==> pinned(s, pin).0 == s,
{
    let q = |p: Pin| about(p, pin.provider, pin.model@);
    let d = |p: Pin| pins_down(p, pin.provider, pin.model@);
    let after = pinned(s, pin).0;
    lemma_first_index(s, q);
    held_iff_protected(after, pin.provider, pin.model@, now);
    if s.any(d) {
        let k = choose|k: int| 0 <= k < s.len() && d(#[trigger] s[k]);
        assert(about(after[k], pin.provider, pin.model@) && live(after[k], now));
    } else {
        let k = place_of(s, pin.provider, pin.model@);
        assert(after[k] == pin);
        assert(about(after[k], pin.provider, pin.model@) && live(after[k], now));
    }
}

/// Adding weakens nothing: what was held at a time still is.
pub proof fn adding_weakens_nothing(
    s: Seq<Pin>,
    pin: Pin,
    provider: ProviderKind,
    model: Seq<char>,
    now: u64,
)
    requires
        holder(s, provider, model, now) is Some,
    ensures
        holder(pinned(s, pin).0, provider, model, now) is Some,
{
    let after = pinned(s, pin).0;
    held_iff_protected(s, provider, model, now);
    held_iff_protected(after, provider, model, now);
    lemma_first_index(s, |p: Pin| about(p, pin.provider, pin.model@));
    let k = choose|k: int|
        0 <= k < s.len() && about(#[trigger] s[k], provider, model) && live(s[k], now);
    assert(about(after[k], provider, model) && live(after[k], now));
}

/// A store with one entry for each model keeps one entry for each model,
/// whatever is leased, added, released, swept or cleared.
pub proof fn every_operation_keeps_one_entry_each(s: Seq<Pin>, pin: Pin, now: u64)
    requires
        one_each(s),
    ensures
        one_each(leased(s, pin).0),
        one_each(pinned(s, pin).0),
        one_each(released(s, pin.provider, pin.model@).0),
        one_each(swept(s, now)),
        one_each(cleared(s, pin.provider, pin.model@)),
{
    let q = |p: Pin| about(p, pin.provider, pin.model@);
    lemma_first_index(s, q);
    if !s.any(q) {
        let t = s.push(pin);
        assert forall|i: int, j: int| 0 <= i < j < t.len() implies !about(
            #[trigger] t[i],
            (#[trigger] t[j]).provider,
            t[j].model@,
        ) by {
            assert(!q(s[i]));
            if j < s.len() {
                assert(!about(s[i], s[j].provider, s[j].model@));
            }
        }
    }
    let held = pinned(s, pin).0;
    assert(one_each(held)) by {
        if s.any(q) {
            assert forall|i: int, j: int| 0 <= i < j < held.len() implies !about(
                #[trigger] held[i],
                (#[trigger] held[j]).provider,
                held[j].model@,
            ) by {
                assert(!about(s[i], s[j].provider, s[j].model@));
            }
        }
    }
    let after = leased(s, pin).0;
    assert(one_each(after)) by {
        if s.any(q) {
            assert forall|i: int, j: int| 0 <= i < j < after.len() implies !about(
                #[trigger] after[i],
                (#[trigger] after[j]).provider,
                after[j].model@,
            ) by {
                assert(!about(s[i], s[j].provider, s[j].model@));
            }
        }
    }
    let given = released(s, pin.provider, pin.model@).0;
    assert(one_each(given)) by {
        let k = place_of(s, pin.provider, pin.model@);
        assert forall|i: int, j: int| 0 <= i < j < given.len() implies !about(
            #[trigger] given[i],
            (#[trigger] given[j]).provider,
            given[j].model@,
        ) by {
            if given.len() < s.len() {
                let a = if i < k {
                    i
                } else {
                    i + 1
                };
                let b = if j < k {
                    j
                } else {
                    j + 1
                };
                assert(given[i] == s[a] && given[j] == s[b]);
                assert(!about(s[a], s[b].provider, s[b].model@));
            } else {
                assert(!about(s[i], s[j].provider, s[j].model@));
            }
        }
    }
    lemma_filter_keeps_one_each(s, |p: Pin| live(p, now));
    lemma_filter_keeps_one_each(s, |p: Pin| !about(p, pin.provider, pin.model@));
}

proof fn lemma_filter_keeps_one_each(s: Seq<Pin>, k: spec_fn(Pin) -> bool)
    requires
        one_each(s),
    ensures
        one_each(s.filter(k)),
    decreases s.len(),
{
    reveal(Seq::filter);
    if s.len() > 0 {
        let t = s.drop_last();
        assert(one_each(t)) by {
            assert forall|i: int, j: int| 0 <= i < j < t.len() implies !about(
                #[trigger] t[i],
                (#[trigger] t[j]).provider,
                t[j].model@,
            ) by {
                assert(!about(s[i], s[j].provider, s[j].model@));
            }
        }
        lemma_filter_keeps_one_each(t, k);
        let f = t.filter(k);
        lemma_filter_members(t, k);
        if k(s.last()) {
            let g = f.push(s.last());
            assert forall|i: int, j: int| 0 <= i < j < g.len() implies !about(
                #[trigger] g[i],
                (#[trigger] g[j]).provider,
                g[j].model@,
            ) by {
                if j == f.len() {
                    assert(t.contains(f[i]));
                    let m = t.index_of(f[i]);
                    assert(!about(s[m], s[s.len() - 1].provider, s[s.len() - 1].model@));
                } else {
                    assert(!about(f[i], f[j].provider, f[j].model@));
                }
            }
        }
    }
}

/// Whether an entry is the first about a model on a provider.
pub open spec fn first_about(s: Seq<Pin>, provider: ProviderKind, model: Seq<char>, i: int) -> bool {
    &&& 0 <= i < s.len()
    &&& s[i].provider == provider
    &&& s[i].model@ == model
    &&& forall|j: int|
        0 <= j < i ==> (#[trigger] s[j]).provider != provider || s[j].model@ != model
}

proof fn lemma_first_about(s: Seq<Pin>, provider: ProviderKind, model: Seq<char>)
    ensures
        0 <= place_of(s, provider, model) <= s.len(),
        place_of(s, provider, model) < s.len() ==> first_about(
            s,
            provider,
            model,
            place_of(s, provider, model),
        ),
        forall|i: int| #[trigger]
            first_about(s, provider, model, i) ==> i == place_of(s, provider, model),
{
    let q = |p: Pin| about(p, provider, model);
    lemma_first_index(s, q);
    let f = place_of(s, provider, model);
    if f < s.len() {
        assert(q(s[f]));
        assert forall|j: int| 0 <= j < f implies (#[trigger] s[j]).provider != provider
            || s[j].model@ != model by {
            assert(!q(s[j]));
        }
    }
    assert forall|i: int| #[trigger] first_about(s, provider, model, i) implies i == f by {
        assert(q(s[i]));
        assert(s.any(q));
        if f < i {
            assert(s[f].provider != provider || s[f].model@ != model);
        }
    }
}

/// A model is held at a time exactly when an entry about it, on that provider,
/// has no expiry or one that is still to come; what holds it is the first such
/// entry.
pub proof fn a_model_is_held_until_its_entry_ends(
    s: Seq<Pin>,
    provider: ProviderKind,
    model: Seq<char>,
    now: u64,
)
    ensures
        match holder(s, provider, model, now) {
            Some(p) => exists|i: int|
                {
                    &&& 0 <= i < s.len()
                    &&& #[trigger] s[i] == p
                    &&& p.provider == provider
                    &&& p.model@ == model
                    &&& p.expires_at is None || now < p.expires_at->0
                    &&& forall|j: int|
                        0 <= j < i && (#[trigger] s[j]).provider == provider && s[j].model@ == model
                            ==> s[j].expires_at is Some && s[j].expires_at->0 <= now
                },
            None => forall|j: int|
                0 <= j < s.len() && (#[trigger] s[j]).provider == provider && s[j].model@ == model
                    ==> s[j].expires_at is Some && s[j].expires_at->0 <= now,
        },
{
    let q = |p: Pin| about(p, provider, model) && live(p, now);
    lemma_first_index(s, q);
    let f = first_index(s, q);
    assert forall|j: int| 0 <= j < f && (#[trigger] s[j]).provider == provider && s[j].model@
        == model implies s[j].expires_at is Some && s[j].expires_at->0 <= now by {
        assert(!q(s[j]));
    }
    if f < s.len() {
        assert(q(s[f]));
    }
}

/// What taking a lease does: where nothing is about the model it is added as it
/// is. Over a pin it is refused and changes nothing. Over a lease that ends
/// sooner it moves the end to its own, and the owner to its own where it has one,
/// and nothing else; over any other it changes nothing.
pub proof fn a_lease_is_added_moves_the_end_or_changes_nothing(s: Seq<Pin>, pin: Pin, i: int)
    ensures
        (forall|k: int| !#[trigger] first_about(s, pin.provider, pin.model@, k)) ==> leased(s, pin)
            == (s.push(pin), LeaseOutcome::Taken),
        first_about(s, pin.provider, pin.model@, i) && s[i].expires_at is None ==> leased(s, pin)
            == (s, LeaseOutcome::RefusedPinned),
        first_about(s, pin.provider, pin.model@, i) && s[i].expires_at is Some && (
        pin.expires_at is None || pin.expires_at->0 <= s[i].expires_at->0) ==> leased(s, pin) == (
            s,
            LeaseOutcome::AlreadyLonger,
        ),
        first_about(s, pin.provider, pin.model@, i) && s[i].expires_at is Some
            && pin.expires_at is Some && pin.expires_at->0 > s[i].expires_at->0 ==> {
            let t = leased(s, pin).0;
            &&& leased(s, pin).1 == LeaseOutcome::Extended
            &&& t.len() == s.len()
            &&& forall|k: int| 0 <= k < s.len() && k != i ==> #[trigger] t[k] == s[k]
            &&& t[i].expires_at == pin.expires_at
            &&& t[i].owner == if pin.owner is Some {
                pin.owner
            } else {
                s[i].owner
            }
            &&& t[i].provider == s[i].provider
            &&& t[i].model == s[i].model
            &&& t[i].at == s[i].at
            &&& t[i].note == s[i].note
        },
{
    lemma_first_about(s, pin.provider, pin.model@);
}

/// What adding an entry does: where nothing is about the model it is added as it
/// is. Where something is, a pin takes the place of the first lease, unless the
/// model is pinned already, and what ends itself changes nothing.
pub proof fn a_pin_takes_the_place_of_a_lease(s: Seq<Pin>, pin: Pin, i: int)
    ensures
        (forall|k: int| !#[trigger] first_about(s, pin.provider, pin.model@, k)) ==> pinned(s, pin)
            == (s.push(pin), true),
        first_about(s, pin.provider, pin.model@, i) && pin.expires_at is None && (forall|k: int|
            0 <= k < s.len() && (#[trigger] s[k]).provider == pin.provider && s[k].model@
                == pin.model@ ==> s[k].expires_at is Some) ==> pinned(s, pin) == (
            s.update(i, pin),
            true,
        ),
        first_about(s, pin.provider, pin.model@, i) && pin.expires_at is Some ==> pinned(s, pin)
            == (s, false),
        (exists|k: int|
            0 <= k < s.len() && (#[trigger] s[k]).provider == pin.provider && s[k].model@
                == pin.model@ && s[k].expires_at is None) ==> pinned(s, pin) == (s, false),
{
    lemma_first_about(s, pin.provider, pin.model@);
    let d = |p: Pin| pins_down(p, pin.provider, pin.model@);
    if s.any(d) {
        let k = choose|k: int| 0 <= k < s.len() && d(#[trigger] s[k]);
        assert(s[k].expires_at is None);
        let q = |p: Pin| about(p, pin.provider, pin.model@);
        lemma_first_index(s, q);
        assert(q(s[k]));
        assert(s.any(q));
        assert(first_about(
            s,
            pin.provider,
            pin.model@,
            place_of(s, pin.provider, pin.model@),
        ));
    }
    if exists|k: int|
        0 <= k < s.len() && (#[trigger] s[k]).provider == pin.provider && s[k].model@ == pin.model@
            && s[k].expires_at is None {
        let k = choose|k: int|
            0 <= k < s.len() && (#[trigger] s[k]).provider == pin.provider && s[k].model@
                == pin.model@ && s[k].expires_at is None;
        assert(d(s[k]));
        assert(s.any(d));
    }
}

/// What a release does: it takes the first entry about a model out where that is
/// a lease, and otherwise changes nothing and says why.
pub proof fn a_release_takes_out_a_lease(
    s: Seq<Pin>,
    provider: ProviderKind,
    model: Seq<char>,
    i: int,
)
    ensures
        (forall|k: int| !#[trigger] first_about(s, provider, model, k)) ==> released(
            s,
            provider,
            model,
        ) == (s, ReleaseOutcome::NotHeld),
        first_about(s, provider, model, i) && s[i].expires_at is None ==> released(
            s,
            provider,
            model,
        ) == (s, ReleaseOutcome::WasPinned),
        first_about(s, provider, model, i) && s[i].expires_at is Some ==> released(
            s,
            provider,
            model,
        ) == (s.remove(i), ReleaseOutcome::Released),
{
    lemma_first_about(s, provider, model);
}

/// One more entry stays in a sweep exactly when it has not lapsed, and in a
/// clearing exactly when it is about another model or another provider; both
/// leave an empty store empty.
pub proof fn a_sweep_keeps_what_has_not_lapsed(
    s: Seq<Pin>,
    p: Pin,
    now: u64,
    provider: ProviderKind,
    model: Seq<char>,
)
    ensures
        swept(Seq::empty(), now) == Seq::<Pin>::empty(),
        swept(s.push(p), now) == if p.expires_at is None || now < p.expires_at->0 {
            swept(s, now).push(p)
        } else {
            swept(s, now)
        },
        cleared(Seq::empty(), provider, model) == Seq::<Pin>::empty(),
        cleared(s.push(p), provider, model) == if p.provider != provider || p.model@ != model {
            cleared(s, provider, model).push(p)
        } else {
            cleared(s, provider, model)
        },
{
    let l = |p: Pin| live(p, now);
    let c = |p: Pin| !about(p, provider, model);
    s.lemma_filter_push(p, l);
    s.lemma_filter_push(p, c);
    lemma_filter_members(Seq::<Pin>::empty(), l);
    lemma_filter_members(Seq::<Pin>::empty(), c);
    assert(swept(Seq::empty(), now) =~= Seq::<Pin>::empty());
    assert(cleared(Seq::empty(), provider, model) =~= Seq::<Pin>::empty());
}

} // verus!
