//! LM Studio: a REST listing, and a command line that loads and unloads.
use vstd::prelude::*;

use crate::json::{
    as_items, as_text, as_unsigned, field, items_of, text_of, tree, trees, unsigned_of, Json, Tree,
};
use crate::provider::{LoadRequest, LoadedModel, ProbeError, ProviderKind, State};
use crate::seqs::lemma_filter_take;
use crate::text::{decimal, number, opt_text, same, texts};

verus! {

/// LM Studio: a REST listing, and a CLI that loads and unloads.
#[derive(Debug, Clone, Copy, PartialEq, Eq, Structural)]
pub struct LmStudio;

/// Whether a document is LM Studio's listing. It answers *every* unknown path
/// with an error body and success, so a status code proves nothing.
pub open spec fn is_listing(t: Tree) -> bool {
    field(t, "error"@) is None && as_items(field(t, "data"@)) is Some
}

pub open spec fn state_of(t: Tree) -> State {
    let s = as_text(field(t, "state"@));
    if s == Some("loaded"@) {
        State::Loaded
    } else if s == Some("loading"@) {
        State::Loading
    } else {
        State::NotLoaded
    }
}

/// Whether an entry names a model.
pub open spec fn names_model(t: Tree) -> bool {
    as_text(field(t, "id"@)) is Some
}

/// A window narrowed to 32 bits.
pub open spec fn narrowed(n: Option<u64>) -> Option<u32> {
    match n {
        Some(v) => Some((v % 0x1_0000_0000) as u32),
        None => None,
    }
}

pub fn narrow(n: Option<u64>) -> (r: Option<u32>)
    ensures
        r == narrowed(n),
{
    match n {
        Some(v) => Some((v % 0x1_0000_0000) as u32),
        None => None,
    }
}

/// What an entry says. `loaded_context_length` is the serving window and is
/// read only of a resident model; `max_context_length` is a capability figure
/// and never read.
pub open spec fn says(m: LoadedModel, t: Tree) -> bool {
    &&& as_text(field(t, "id"@)) == Some(m.id@)
    &&& m.state == state_of(t)
    &&& m.context_tokens == if state_of(t) == State::Loaded {
        narrowed(as_unsigned(field(t, "loaded_context_length"@)))
    } else {
        None
    }
    &&& m.weights_bytes is None
    &&& m.expires_at_unix is None
    &&& opt_text(m.model_type) == as_text(field(t, "type"@))
    &&& m.artifact_path is None
}

/// Whether a list of models is what the entries that name one say, in order.
pub open spec fn lists(models: Seq<LoadedModel>, items: Seq<Tree>) -> bool {
    let named = items.filter(|t: Tree| names_model(t));
    models.len() == named.len() && forall|i: int|
        0 <= i < models.len() ==> says(#[trigger] models[i], named[i])
}

impl LmStudio {
    /// The models an LM Studio listing reports, or that it is not one.
    pub fn list(v: &Json) -> (r: Result<Vec<LoadedModel>, ProbeError>)
        ensures
            match r {
                Ok(models) => is_listing(tree(*v)) && lists(
                    models@,
                    as_items(field(tree(*v), "data"@))->0,
                ),
                Err(e) => !is_listing(tree(*v)) && e == (ProbeError::KindMismatch {
                    expected: ProviderKind::LmStudio,
                }),
            },
    {
        if v.get("error").is_some() {
            return Err(ProbeError::KindMismatch { expected: ProviderKind::LmStudio });
        }
        let entries = match items_of(v.get("data")) {
            Some(items) => items,
            None => {
                return Err(ProbeError::KindMismatch { expected: ProviderKind::LmStudio });
            },
        };
        let ghost items = trees(entries@);
        let ghost p = |t: Tree| names_model(t);
        let mut out: Vec<LoadedModel> = Vec::new();
        let mut i: usize = 0;
        while i < entries.len()
            invariant
                i <= entries@.len(),
                items == trees(entries@),
                p == (|t: Tree| names_model(t)),
                out@.len() == items.take(i as int).filter(p).len(),
                forall|k: int|
                    0 <= k < out@.len() ==> says(
                        #[trigger] out@[k],
                        items.take(i as int).filter(p)[k],
                    ),
            decreases entries.len() - i,
        {
            let m = &entries[i];
            proof {
                lemma_filter_take(items, p, i as int);
                assert(items[i as int] == tree(*m));
            }
            if let Some(id) = text_of(m.get("id")) {
                let state = match text_of(m.get("state")) {
                    Some(s) => if same(s.as_str(), "loaded") {
                        State::Loaded
                    } else if same(s.as_str(), "loading") {
                        State::Loading
                    } else {
                        State::NotLoaded
                    },
                    None => State::NotLoaded,
                };
                let context_tokens = if state == State::Loaded {
                    narrow(unsigned_of(m.get("loaded_context_length")))
                } else {
                    None
                };
                out.push(
                    LoadedModel {
                        id,
                        state,
                        context_tokens,
                        weights_bytes: None,
                        expires_at_unix: None,
                        model_type: text_of(m.get("type")),
                        artifact_path: None,
                    },
                );
            }
            i += 1;
        }
        proof {
            assert(items.take(i as int) =~= items);
        }
        Ok(out)
    }
}

/// The command that loads a model. `--yes` because an interactive prompt would
/// hang a caller that cannot answer it; the window and the idle term only when
/// they were asked for.
pub open spec fn load_words(request: LoadRequest) -> Seq<Seq<char>> {
    let base = seq!["lms"@, "load"@, request.model@, "--yes"@];
    let windowed = match request.context_tokens {
        Some(n) => base.push("--context-length"@).push(decimal(n as nat)),
        None => base,
    };
    match request.ttl_seconds {
        Some(n) => windowed.push("--ttl"@).push(decimal(n as nat)),
        None => windowed,
    }
}

fn push_word(v: &mut Vec<String>, w: String)
    ensures
        texts(final(v)@) == texts(old(v)@).push(w@),
{
    let ghost was = v@;
    v.push(w);
    proof {
        assert(texts(v@) =~= texts(was).push(w@));
    }
}

impl LmStudio {
    pub fn load_argv(request: &LoadRequest) -> (argv: Vec<String>)
        ensures
            texts(argv@) == load_words(*request),
    {
        let mut argv: Vec<String> = Vec::new();
        proof {
            assert(texts(argv@) =~= Seq::<Seq<char>>::empty());
        }
        push_word(&mut argv, "lms".to_owned());
        push_word(&mut argv, "load".to_owned());
        push_word(&mut argv, request.model.clone());
        push_word(&mut argv, "--yes".to_owned());
        proof {
            assert(texts(argv@) =~= seq!["lms"@, "load"@, request.model@, "--yes"@]);
        }
        if let Some(n) = request.context_tokens {
            push_word(&mut argv, "--context-length".to_owned());
            push_word(&mut argv, number(n as u64));
        }
        if let Some(n) = request.ttl_seconds {
            push_word(&mut argv, "--ttl".to_owned());
            push_word(&mut argv, number(n));
        }
        argv
    }
}

impl LmStudio {
    /// The command that unloads a model.
    pub fn unload_argv(model: &str) -> (argv: Vec<String>)
        ensures
            texts(argv@) == seq!["lms"@, "unload"@, model@],
    {
        let mut argv: Vec<String> = Vec::new();
        push_word(&mut argv, "lms".to_owned());
        push_word(&mut argv, "unload".to_owned());
        push_word(&mut argv, model.to_owned());
        proof {
            assert(texts(argv@) =~= seq!["lms"@, "unload"@, model@]);
        }
        argv
    }
}

/// How running the command ended.
#[derive(Debug)]
pub enum RunEnd {
    Succeeded,
    /// Ran, and exited with this code, or by a signal; and what it said.
    Exited { code: Option<i32>, stderr: String },
    /// The command could not be found.
    NotFound,
    /// The command could not be run for another reason.
    Broken { reason: String },
}

/// A signed number in decimal.
pub open spec fn signed_text(n: int) -> Seq<char> {
    if n < 0 {
        "-"@ + decimal((-n) as nat)
    } else {
        decimal(n as nat)
    }
}

pub fn signed(n: i32) -> (r: String)
    ensures
        r@ == signed_text(n as int),
{
    if n < 0 {
        let m: u64 = (-(n as i64)) as u64;
        crate::text::cat2("-", number(m).as_str())
    } else {
        number(n as u64)
    }
}

/// What a command that did not succeed is reported as, if it did not. A missing
/// binary is a named failure, never a silent no-op.
pub open spec fn run_failure(argv: Seq<Seq<char>>, end: RunEnd) -> Option<Seq<char>> {
    match end {
        RunEnd::Succeeded => None,
        RunEnd::Exited { code, stderr } => Some(
            "`"@ + crate::text::joined(argv, " "@) + "` exited "@ + signed_text(
                match code {
                    Some(c) => c as int,
                    None => -1,
                },
            ) + ": "@ + crate::text::trimmed(stderr@),
        ),
        RunEnd::NotFound => Some(
            "`lms` is not on PATH; LM Studio has no other control surface"@,
        ),
        RunEnd::Broken { reason } => Some(reason@),
    }
}

/// What running `argv` came to.
pub fn run_outcome(argv: &Vec<String>, end: &RunEnd) -> (r: Result<
    (),
    crate::provider::ActuateError,
>)
    ensures
        match r {
            Ok(()) => run_failure(texts(argv@), *end) is None,
            Err(e) => e matches crate::provider::ActuateError::Failed { reason } && run_failure(
                texts(argv@),
                *end,
            ) == Some(reason@),
        },
{
    match end {
        RunEnd::Succeeded => Ok(()),
        RunEnd::Exited { code, stderr } => {
            let shown: i32 = match code {
                Some(c) => *c,
                None => -1,
            };
            Err(
                crate::provider::ActuateError::Failed {
                    reason: crate::text::cat6(
                        "`",
                        crate::text::join(argv, " ").as_str(),
                        "` exited ",
                        signed(shown).as_str(),
                        ": ",
                        crate::text::trim(stderr.as_str()).as_str(),
                    ),
                },
            )
        },
        RunEnd::NotFound => Err(
            crate::provider::ActuateError::Failed {
                reason: "`lms` is not on PATH; LM Studio has no other control surface".to_owned(),
            },
        ),
        RunEnd::Broken { reason } => Err(
            crate::provider::ActuateError::Failed { reason: reason.clone() },
        ),
    }
}

} // verus!
