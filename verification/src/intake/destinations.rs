//! Which providers could take this model, and where each would put it.
//!
//! **Not every provider handles every format.** The question is asked once,
//! against the repo's own build, and answered with the placement a pull would
//! use. Every provider is reported, including the ones that cannot take it,
//! each with its reason.
use vstd::prelude::*;

use crate::intake::fit::Fit;
use crate::intake::hf::Repo;
use crate::intake::run::{
    choose_build, chosen, countable, ending, label_text, lone_part, part_alone, parts_in, placed,
    placement, planned, price_build, priced, wanted, Build, Ending, Place, Planning,
};
use crate::inventory::artifact::{store_text, Format};
use crate::memory::Machine;
use crate::provider::{kind_text, ProviderKind};
use crate::text::{cat3, cat4, opt_text};

verus! {

#[derive(Debug)]
pub struct Destination {
    pub provider: String,
    /// Whether a pull into it would be planned at all. The fit is a separate
    /// question and a softer one, so a `true` here does not promise it will
    /// run.
    pub ok: bool,
    /// Why not. Empty when `ok`.
    pub reason: String,
    pub store: Option<String>,
    pub target_dir: Option<String>,
    /// What Ollama would be asked to pull, for the transport that is not a
    /// file drop.
    pub registry_name: Option<String>,
    pub fit: Option<Fit>,
}

#[derive(Debug)]
pub struct DestinationsDoc {
    pub schema: u32,
    pub verb: &'static str,
    pub repo: String,
    /// The build every destination was judged against: one file, or a shard
    /// set folded into one.
    pub file: String,
    pub format: Option<Format>,
    pub bytes: Option<u64>,
    pub destinations: Vec<Destination>,
    /// Present when the repo has no build at all. Then `destinations` is empty
    /// and this is the whole answer.
    pub refusal: Option<String>,
}

/// Where a pull to a provider would put a build, or why it would not: a part
/// alone goes nowhere.
pub open spec fn pulled(
    provider: ProviderKind,
    repo_id: Seq<char>,
    build: Build,
    home: Option<&str>,
) -> Result<Place, Seq<char>> {
    match part_alone(build.files@) {
        Some(why) => Err(why),
        None => placed(provider, repo_id, build, home),
    }
}

/// Whether a destination is what a provider comes to.
pub open spec fn offered(
    d: Destination,
    provider: ProviderKind,
    repo_id: Seq<char>,
    build: Build,
    home: Option<&str>,
    machine: Machine,
    disk: u64,
) -> bool {
    &&& d.provider@ == kind_text(provider)
    &&& match pulled(provider, repo_id, build, home) {
        Ok(p) => {
            &&& d.ok
            &&& d.reason@ == ""@
            &&& opt_text(d.store) == Some(store_text(p.store))
            &&& opt_text(d.target_dir) == p.target_dir
            &&& opt_text(d.registry_name) == p.registry_name
            &&& priced(d.fit, build.bytes, machine, disk)
        },
        Err(e) => {
            &&& !d.ok
            &&& d.reason@ == e
            &&& d.store is None
            &&& d.target_dir is None
            &&& d.registry_name is None
            &&& d.fit is None
        },
    }
}

/// What every document of destinations starts with.
pub open spec fn headed(d: DestinationsDoc, repo_id: Seq<char>) -> bool {
    d.schema == 1 && d.verb@ == "destinations"@ && d.repo@ == repo_id
}

/// Whether a document says only that there is nothing to place.
pub open spec fn refused_with(d: DestinationsDoc, repo_id: Seq<char>, reason: Seq<char>) -> bool {
    &&& headed(d, repo_id)
    &&& d.file@ == ""@
    &&& d.format is None
    &&& d.bytes is None
    &&& d.destinations@.len() == 0
    &&& opt_text(d.refusal) == Some(reason)
}

/// Whether a document is the answer for a repo that was read.
pub open spec fn answered(
    d: DestinationsDoc,
    repo_id: Seq<char>,
    build: Build,
    providers: Seq<ProviderKind>,
    home: Option<&str>,
    machine: Machine,
    disks: Seq<u64>,
) -> bool {
    &&& headed(d, repo_id)
    &&& d.refusal is None
    &&& d.file@ == label_text(build.files@)
    &&& d.bytes == build.bytes
    &&& d.format == Some(build.files@[0].format)
    &&& d.destinations@.len() == providers.len()
    &&& forall|i: int|
        0 <= i < providers.len() ==> offered(
            #[trigger] d.destinations@[i],
            providers[i],
            repo_id,
            build,
            home,
            machine,
            disks[i],
        )
}

/// Ask every provider, off one read of the repo. `free_disk_bytes` is what is
/// free under each provider's place, because the stores are not all on one
/// filesystem and disk is half the admission.
pub fn for_repo(
    read: Result<&Repo, &str>,
    machine: &Machine,
    repo_id: &str,
    providers: &[ProviderKind],
    want_file: Option<&str>,
    home: Option<&str>,
    free_disk_bytes: &[u64],
) -> (doc: DestinationsDoc)
    requires
        read matches Ok(repo) ==> countable(repo.files@),
        free_disk_bytes@.len() == providers@.len(),
    ensures
        match read {
            Err(e) => refused_with(doc, repo_id@, "could not read `"@ + repo_id@ + "`: "@ + e@),
            Ok(repo) => match wanted(repo.files@, want_file) {
                None => refused_with(
                    doc,
                    repo_id@,
                    "`"@ + repo_id@
                        + "` publishes no build any provider here can load as published"@,
                ),
                Some(parts) => exists|b: Build| #[trigger]
                    parts_in(b) == parts && answered(
                        doc,
                        repo_id@,
                        b,
                        providers@,
                        home,
                        *machine,
                        free_disk_bytes@,
                    ),
            },
        },
{
    let mut doc = DestinationsDoc {
        schema: 1,
        verb: "destinations",
        repo: repo_id.to_owned(),
        file: "".to_owned(),
        format: None,
        bytes: None,
        destinations: Vec::new(),
        refusal: None,
    };
    let repo = match read {
        Ok(r) => r,
        Err(e) => {
            doc.refusal = Some(cat4("could not read `", repo_id, "`: ", e));
            return doc;
        },
    };
    // The same choice a pull makes, so what is offered here is what would
    // actually be pulled.
    let build = match choose_build(repo, want_file) {
        Some(b) => b,
        None => {
            doc.refusal = Some(
                cat3(
                    "`",
                    repo_id,
                    "` publishes no build any provider here can load as published",
                ),
            );
            return doc;
        },
    };
    let mut list: Vec<Destination> = Vec::new();
    let mut i: usize = 0;
    while i < providers.len()
        invariant
            i <= providers@.len(),
            free_disk_bytes@.len() == providers@.len(),
            build.files@.len() > 0,
            list@.len() == i,
            forall|k: int|
                0 <= k < i ==> offered(
                    #[trigger] list@[k],
                    providers@[k],
                    repo_id@,
                    build,
                    home,
                    *machine,
                    free_disk_bytes@[k],
                ),
        decreases providers.len() - i,
    {
        let provider = providers[i].as_str().to_owned();
        let found = match lone_part(&build) {
            Some(why) => Err(why),
            None => placement(providers[i], repo_id, &build, home),
        };
        let d = match found {
            Ok(p) => Destination {
                provider,
                ok: true,
                reason: "".to_owned(),
                store: Some(p.store.as_str().to_owned()),
                target_dir: p.target_dir,
                registry_name: p.registry_name,
                fit: price_build(machine, &build, free_disk_bytes[i]),
            },
            Err(reason) => Destination {
                provider,
                ok: false,
                reason,
                store: None,
                target_dir: None,
                registry_name: None,
                fit: None,
            },
        };
        list.push(d);
        i += 1;
    }
    doc.file = build.label();
    doc.bytes = build.bytes;
    doc.format = Some(build.files[0].format);
    doc.destinations = list;
    proof {
        assert(parts_in(build) == wanted(repo.files@, want_file)->0);
        assert(answered(
            doc,
            repo_id@,
            build,
            providers@,
            home,
            *machine,
            free_disk_bytes@,
        ));
    }
    doc
}

/// What is offered is what a pull would do: a provider is offered a place
/// exactly when a pull to it is given one, it is the same place, and a refusal
/// comes with the same reason.
pub proof fn an_offer_is_what_a_pull_would_do(
    doc: DestinationsDoc,
    p: Planning,
    repo: &Repo,
    repo_id: &str,
    want_file: Option<&str>,
    b: Build,
    providers: Seq<ProviderKind>,
    i: int,
    home: Option<&str>,
    machine: Machine,
    disks: Seq<u64>,
)
    requires
        wanted(repo.files@, want_file) == Some(parts_in(b)),
        answered(doc, repo_id@, b, providers, home, machine, disks),
        0 <= i < providers.len(),
        planned(p, Ok(repo), repo_id, want_file, providers[i], home),
    ensures
        doc.destinations@[i].ok <==> p is Placed,
        match p {
            Planning::Placed { doc: d, .. } => {
                &&& opt_text(doc.destinations@[i].store) == opt_text(d.store)
                &&& opt_text(doc.destinations@[i].target_dir) == opt_text(d.target_dir)
                &&& opt_text(doc.destinations@[i].registry_name) == opt_text(d.registry_name)
            },
            Planning::Refused(d) => ending(d.outcome) == (Ending::Refused {
                reason: doc.destinations@[i].reason@,
            }),
        },
{
    assert(offered(doc.destinations@[i], providers[i], repo_id@, b, home, machine, disks[i]));
    assert(b.files@ == parts_in(b).files);
    assert forall|c: Build| #[trigger] parts_in(c) == parts_in(b) implies placed(
        providers[i],
        repo_id@,
        c,
        home,
    ) == placed(providers[i], repo_id@, b, home) by {
        assert(c.files@ == parts_in(b).files);
        assert(b.files@ == parts_in(b).files);
    }
    if let Planning::Placed { doc: d, build, .. } = p {
        assert(parts_in(build) == parts_in(b));
        assert(opt_text(d.store) == chosen(d).store);
        assert(opt_text(d.target_dir) == chosen(d).target_dir);
        assert(opt_text(d.registry_name) == chosen(d).registry_name);
    }
}

} // verus!
