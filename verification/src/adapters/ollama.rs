//! Ollama: residency is controlled by `keep_alive` on an ordinary request.
use vstd::prelude::*;

use crate::adapters::lmstudio::{narrow, narrowed};
use crate::adapters::when::{unix_seconds, unix_time};
use crate::document::{
    fields, lemma_in_order_members, no_fields, put, record, sheet, sheets, whole, word, Doc,
};
use crate::json::{
    as_items, as_text, as_unsigned, field, items_of, opt_tree, plain_number, text_of, tree, trees,
    unsigned_of, Json, Tree,
};
use crate::provider::{LoadedModel, ProbeError, ProviderKind, State};
use crate::seqs::lemma_filter_take;
use crate::text::same;

verus! {

/// Ollama: two listings, and requests that keep or drop a model.
#[derive(Debug, Clone, Copy, PartialEq, Eq, Structural)]
pub struct Ollama;

/// The name an entry gives its model: `name`, or `model` where there is none.
pub open spec fn name_of(t: Tree) -> Option<Seq<char>> {
    match as_text(field(t, "name"@)) {
        Some(n) => Some(n),
        None => as_text(field(t, "model"@)),
    }
}

fn entry_name(m: &Json) -> (r: Option<String>)
    ensures
        crate::text::opt_text(r) == name_of(tree(*m)),
{
    match text_of(m.get("name")) {
        Some(n) => Some(n),
        None => text_of(m.get("model")),
    }
}

pub open spec fn named(t: Tree) -> bool {
    name_of(t) is Some
}

/// When an entry says its model will be dropped.
pub open spec fn expiry_of(t: Tree) -> Option<u64> {
    match as_text(field(t, "expires_at"@)) {
        Some(s) => unix_seconds(s),
        None => None,
    }
}

/// What a resident entry says. This listing is the only source of a serving window.
pub open spec fn says_resident(m: LoadedModel, t: Tree) -> bool {
    &&& name_of(t) == Some(m.id@)
    &&& m.state == State::Loaded
    &&& m.context_tokens == narrowed(as_unsigned(field(t, "context_length"@)))
    &&& m.weights_bytes == as_unsigned(field(t, "size"@))
    &&& m.expires_at_unix == expiry_of(t)
    &&& m.model_type is None
    &&& m.artifact_path is None
}

/// What an entry on disk says. `size` is a file property and safe to read; its
/// window is a capability figure and deliberately not read.
pub open spec fn says_on_disk(m: LoadedModel, t: Tree) -> bool {
    &&& name_of(t) == Some(m.id@)
    &&& m.state == State::NotLoaded
    &&& m.context_tokens is None
    &&& m.weights_bytes == as_unsigned(field(t, "size"@))
    &&& m.expires_at_unix is None
    &&& m.model_type is None
    &&& m.artifact_path is None
}

/// The resident entries of a listing.
pub open spec fn resident_entries(ps: Seq<Tree>) -> Seq<Tree> {
    ps.filter(|t: Tree| named(t))
}

/// Whether a listing already holds an entry of this name.
pub open spec fn already_listed(resident: Seq<Tree>, name: Seq<char>) -> bool {
    exists|i: int| 0 <= i < resident.len() && name_of(#[trigger] resident[i]) == Some(name)
}

/// Whether an entry on disk is to be listed beside the resident ones.
pub open spec fn only_on_disk(t: Tree, resident: Seq<Tree>) -> bool {
    name_of(t) matches Some(n) && !already_listed(resident, n)
}

/// The entries on disk that are not resident.
pub open spec fn disk_entries(tags: Option<Tree>, resident: Seq<Tree>) -> Seq<Tree> {
    match tags {
        Some(t) => match as_items(field(t, "models"@)) {
            Some(items) => items.filter(|x: Tree| only_on_disk(x, resident)),
            None => Seq::empty(),
        },
        None => Seq::empty(),
    }
}

impl Ollama {
    /// The models Ollama reports: what it holds, then what it has on disk and does
    /// not hold. A listing of the disk that could not be had is not fatal.
    pub fn list(ps: &Json, tags: Option<&Json>) -> (r: Result<Vec<LoadedModel>, ProbeError>)
        ensures
            match r {
                Ok(models) => as_items(field(tree(*ps), "models"@)) matches Some(items) && {
                    let here = resident_entries(items);
                    let disk = disk_entries(opt_tree(tags), here);
                    &&& models@.len() == here.len() + disk.len()
                    &&& forall|i: int|
                        0 <= i < here.len() ==> says_resident(#[trigger] models@[i], here[i])
                    &&& forall|i: int|
                        here.len() <= i < models@.len() ==> says_on_disk(
                            #[trigger] models@[i],
                            disk[i - here.len()],
                        )
                },
                Err(e) => as_items(field(tree(*ps), "models"@)) is None && e
                    == (ProbeError::KindMismatch { expected: ProviderKind::Ollama }),
            },
    {
        let entries = match items_of(ps.get("models")) {
            Some(items) => items,
            None => {
                return Err(ProbeError::KindMismatch { expected: ProviderKind::Ollama });
            },
        };
        let ghost items = trees(entries@);
        let ghost p = |t: Tree| named(t);
        let mut out: Vec<LoadedModel> = Vec::new();
        let mut i: usize = 0;
        while i < entries.len()
            invariant
                i <= entries@.len(),
                items == trees(entries@),
                p == (|t: Tree| named(t)),
                out@.len() == items.take(i as int).filter(p).len(),
                forall|k: int|
                    0 <= k < out@.len() ==> says_resident(
                        #[trigger] out@[k],
                        items.take(i as int).filter(p)[k],
                    ),
            decreases entries.len() - i,
        {
            let m = &entries[i];
            proof {
                lemma_filter_take(items, p, i as int);
                assert(items[i as int] == tree(*m));
            }
            if let Some(id) = entry_name(m) {
                let expires_at_unix = match text_of(m.get("expires_at")) {
                    Some(s) => unix_time(s.as_str()),
                    None => None,
                };
                out.push(
                    LoadedModel {
                        id,
                        state: State::Loaded,
                        context_tokens: narrow(unsigned_of(m.get("context_length"))),
                        weights_bytes: unsigned_of(m.get("size")),
                        expires_at_unix,
                        model_type: None,
                        artifact_path: None,
                    },
                );
            }
            i += 1;
        }
        proof {
            assert(items.take(i as int) =~= items);
        }
        let ghost here = resident_entries(items);
        let held: usize = out.len();
        let disk = match tags {
            Some(t) => items_of(t.get("models")),
            None => None,
        };
        if let Some(on_disk) = disk {
            let ghost all = trees(on_disk@);
            let ghost q = |t: Tree| only_on_disk(t, here);
            let mut k: usize = 0;
            while k < on_disk.len()
                invariant
                    k <= on_disk@.len(),
                    all == trees(on_disk@),
                    q == (|t: Tree| only_on_disk(t, here)),
                    held == here.len(),
                    out@.len() == held + all.take(k as int).filter(q).len(),
                    forall|j: int|
                        0 <= j < held ==> says_resident(#[trigger] out@[j], here[j]),
                    forall|j: int|
                        held <= j < out@.len() ==> says_on_disk(
                            #[trigger] out@[j],
                            all.take(k as int).filter(q)[j - held],
                        ),
                decreases on_disk.len() - k,
            {
                let m = &on_disk[k];
                proof {
                    lemma_filter_take(all, q, k as int);
                    assert(all[k as int] == tree(*m));
                }
                if let Some(id) = entry_name(m) {
                    let mut seen: bool = false;
                    let mut j: usize = 0;
                    while j < held
                        invariant
                            j <= held == here.len(),
                            held <= out@.len(),
                            forall|x: int|
                                0 <= x < held ==> says_resident(#[trigger] out@[x], here[x]),
                            seen == exists|x: int|
                                0 <= x < j && name_of(#[trigger] here[x]) == Some(id@),
                        decreases held - j,
                    {
                        proof {
                            assert(says_resident(out@[j as int], here[j as int]));
                        }
                        if same(out[j].id.as_str(), id.as_str()) {
                            seen = true;
                        }
                        j += 1;
                    }
                    if !seen {
                        out.push(
                            LoadedModel {
                                id,
                                state: State::NotLoaded,
                                context_tokens: None,
                                weights_bytes: unsigned_of(m.get("size")),
                                expires_at_unix: None,
                                model_type: None,
                                artifact_path: None,
                            },
                        );
                    }
                }
                k += 1;
            }
            proof {
                assert(all.take(k as int) =~= all);
            }
        }
        Ok(out)
    }
}

/// Whether a model's own description says it embeds.
pub open spec fn embeds(shown: Option<Tree>) -> bool {
    shown matches Some(t) && as_items(field(t, "capabilities"@)) matches Some(caps)
        && exists|i: int| 0 <= i < caps.len() && as_text(Some(#[trigger] caps[i])) == Some("embedding"@)
}

impl Ollama {
    /// Which endpoint controls a model's residency. There is no single one that
    /// loads anything this server serves, so it is asked what the model can do; a
    /// failed lookup falls back to the common case.
    pub fn endpoint(shown: Option<&Json>) -> (r: &'static str)
        ensures
            r@ == if embeds(opt_tree(shown)) {
                "/api/embed"@
            } else {
                "/api/generate"@
            },
    {
        let caps = match shown {
            Some(v) => items_of(v.get("capabilities")),
            None => None,
        };
        if let Some(list) = caps {
            let ghost all = trees(list@);
            let mut i: usize = 0;
            while i < list.len()
                invariant
                    i <= list@.len(),
                    all == trees(list@),
                    shown is Some,
                    as_items(field(opt_tree(shown)->0, "capabilities"@)) == Some(all),
                    forall|k: int|
                        0 <= k < i ==> as_text(Some(#[trigger] all[k])) != Some("embedding"@),
                decreases list.len() - i,
            {
                proof {
                    assert(all[i as int] == tree(list@[i as int]));
                }
                if let Some(s) = text_of(Some(&list[i])) {
                    if same(s.as_str(), "embedding") {
                        proof {
                            assert(as_text(Some(all[i as int])) == Some("embedding"@));
                        }
                        return "/api/embed";
                    }
                }
                i += 1;
            }
        }
        "/api/generate"
    }
}

/// How long a load stays resident without use, by the server's own clock: a
/// model nobody used should eventually leave, and pins are how one is kept.
pub const KEEP_ALIVE: &'static str = "10m";

/// How long a model is to stay.
#[derive(Debug, Clone, Copy, PartialEq, Eq, Structural)]
pub enum Stay {
    /// Dropped at once.
    Drop,
    /// Kept for the ordinary term.
    Keep,
}

pub open spec fn keep_alive(stay: Stay) -> Tree {
    match stay {
        Stay::Drop => plain_number(0),
        Stay::Keep => Tree::Text("10m"@),
    }
}

/// What a request that changes residency says. It carries no content: the
/// prompt or the input is empty, always.
pub open spec fn residency_fields(
    path: Seq<char>,
    model: Seq<char>,
    stay: Stay,
    window: Option<u32>,
) -> Seq<(Seq<char>, Tree)> {
    let content = if path == "/api/embed"@ {
        "input"@
    } else {
        "prompt"@
    };
    let base = seq![
        ("model"@, Tree::Text(model)),
        (content, Tree::Text(Seq::empty())),
        ("keep_alive"@, keep_alive(stay)),
    ];
    match window {
        Some(n) => base.push(("options"@, record(seq![("num_ctx"@, plain_number(n as u64))]))),
        None => base,
    }
}

/// The request that changes residency.
pub open spec fn residency_tree(
    path: Seq<char>,
    model: Seq<char>,
    stay: Stay,
    window: Option<u32>,
) -> Tree {
    record(residency_fields(path, model, stay, window))
}

impl Ollama {
    /// The request that changes residency and carries no content. A window travels
    /// in `options`, where this server takes one.
    pub fn residency_body(path: &str, model: &str, stay: Stay, window: Option<u32>) -> (r: Doc)
        ensures
            sheet(r) == residency_tree(path@, model@, stay, window),
    {
        let content = if same(path, "/api/embed") {
            "input"
        } else {
            "prompt"
        };
        let mut entries = no_fields();
        put(&mut entries, "model", word(model));
        put(&mut entries, content, word(""));
        let keep = match stay {
            Stay::Drop => whole(0),
            Stay::Keep => word(KEEP_ALIVE),
        };
        put(&mut entries, "keep_alive", keep);
        if let Some(n) = window {
            let mut options = no_fields();
            put(&mut options, "num_ctx", whole(n as u64));
            proof {
                assert(sheets(options@) =~= seq![("num_ctx"@, plain_number(n as u64))]);
            }
            put(&mut entries, "options", fields(options));
        }
        proof {
            reveal_strlit("");
            assert(""@ =~= Seq::<char>::empty());
            assert(sheets(entries@) =~= residency_fields(path@, model@, stay, window));
        }
        fields(entries)
    }

    /// The request that asks what a model can do.
    pub fn show_body(model: &str) -> (r: Doc)
        ensures
            sheet(r) == record(seq![("model"@, Tree::Text(model@))]),
    {
        let mut entries = no_fields();
        put(&mut entries, "model", word(model));
        proof {
            assert(sheets(entries@) =~= seq![("model"@, Tree::Text(model@))]);
        }
        fields(entries)
    }
}

/// No request that changes residency carries anything but an empty prompt or
/// an empty input.
pub proof fn a_residency_request_carries_no_content(
    path: Seq<char>,
    model: Seq<char>,
    stay: Stay,
    window: Option<u32>,
)
    ensures
        field(residency_tree(path, model, stay, window), "prompt"@) matches Some(t) ==> t
            == Tree::Text(Seq::empty()),
        field(residency_tree(path, model, stay, window), "input"@) matches Some(t) ==> t
            == Tree::Text(Seq::empty()),
{
    reveal_strlit("prompt");
    reveal_strlit("input");
    reveal_strlit("model");
    reveal_strlit("keep_alive");
    reveal_strlit("options");
    let t = residency_tree(path, model, stay, window);
    let e = t->Object_0;
    let said = residency_fields(path, model, stay, window);
    assert("prompt"@.len() == 6);
    assert("input"@.len() == 5);
    assert("model"@.len() == 5 && "model"@[0] == 'm');
    assert("input"@[0] == 'i');
    assert("keep_alive"@.len() == 10);
    assert("options"@.len() == 7);
    crate::seqs::lemma_first_index(e, |x: (Seq<char>, Tree)| crate::json::under(x, "prompt"@));
    crate::seqs::lemma_first_index(e, |x: (Seq<char>, Tree)| crate::json::under(x, "input"@));
    assert forall|i: int| 0 <= i < e.len() && ((#[trigger] e[i]).0 == "prompt"@ || e[i].0
        == "input"@) implies e[i].1 == Tree::Text(Seq::empty()) by {
        assert(e.contains(e[i]));
        lemma_in_order_members(said, e[i]);
    }
}

/// The body of the one request that asks a self-managed server to hold a
/// model: one fixed token, never content.
pub const WARM_UP_SENTINEL: &'static str = "llm-harmony";

pub open spec fn warm_up_tree(model: Seq<char>) -> Tree {
    record(
        seq![
            ("model"@, Tree::Text(model)),
            ("prompt"@, Tree::Text("llm-harmony"@)),
            ("max_tokens"@, plain_number(1)),
            ("temperature"@, plain_number(0)),
        ],
    )
}

pub fn warm_up_body(model: &str) -> (r: Doc)
    ensures
        sheet(r) == warm_up_tree(model@),
{
    let mut entries = no_fields();
    put(&mut entries, "model", word(model));
    put(&mut entries, "prompt", word(WARM_UP_SENTINEL));
    put(&mut entries, "max_tokens", whole(1));
    put(&mut entries, "temperature", whole(0));
    proof {
        assert(sheets(entries@) =~= seq![
            ("model"@, Tree::Text(model@)),
            ("prompt"@, Tree::Text("llm-harmony"@)),
            ("max_tokens"@, plain_number(1)),
            ("temperature"@, plain_number(0)),
        ]);
    }
    fields(entries)
}

} // verus!
