//! What reading and asking the providers promises, in terms of the documents they
//! answer with and are sent.
use vstd::prelude::*;

use crate::adapters::llamacpp;
use crate::adapters::lmstudio;
use crate::adapters::ollama;
use crate::adapters::vllm;
use crate::adapters::when::unix_seconds;
use crate::document::{in_order, keyed_in, lemma_in_order_members, record};
use crate::json::{
    as_double, as_flag, as_items, as_text, as_unsigned, field, plain_number, then_field, under, Tree,
};
use crate::provider::{LoadRequest, LoadedModel, State};
use crate::rounding::gibibytes;
use crate::seqs::{first_index, lemma_filter_places, lemma_first_index};
use crate::text::{decimal, opt_text, text_lt};

verus! {

/// Whether a model is what an entry of LM Studio says: its id and its type; its
/// state, loaded or loading only where the entry says so; and its window only
/// where it is loaded, and then the one it serves at.
pub open spec fn lmstudio_says(m: LoadedModel, t: Tree) -> bool {
    let word = as_text(field(t, "state"@));
    &&& as_text(field(t, "id"@)) == Some(m.id@)
    &&& opt_text(m.model_type) == as_text(field(t, "type"@))
    &&& m.state == State::Loaded <==> word == Some("loaded"@)
    &&& m.state == State::Loading <==> word == Some("loading"@)
    &&& m.state != State::Loaded ==> m.context_tokens is None
    &&& m.state == State::Loaded ==> (m.context_tokens is Some <==> as_unsigned(
        field(t, "loaded_context_length"@),
    ) is Some)
    &&& m.state == State::Loaded && m.context_tokens is Some && as_unsigned(
        field(t, "loaded_context_length"@),
    )->0 <= u32::MAX ==> m.context_tokens->0 == as_unsigned(field(t, "loaded_context_length"@))->0
    &&& m.weights_bytes is None && m.expires_at_unix is None && m.artifact_path is None
}

/// An LM Studio listing holds a model for every entry with an id, in their order,
/// and for no other.
pub proof fn lmstudio_lists_what_it_names(models: Seq<LoadedModel>, items: Seq<Tree>) -> (at: Seq<
    int,
>)
    requires
        lmstudio::lists(models, items),
    ensures
        at.len() == models.len(),
        forall|k: int|
            0 <= k < at.len() ==> 0 <= #[trigger] at[k] < items.len() && lmstudio_says(
                models[k],
                items[at[k]],
            ),
        forall|j: int, k: int| 0 <= j < k < at.len() ==> #[trigger] at[j] < #[trigger] at[k],
        forall|i: int|
            0 <= i < items.len() && as_text(field(#[trigger] items[i], "id"@)) is Some
                ==> at.contains(i),
{
    reveal_strlit("loaded");
    reveal_strlit("loading");
    assert("loaded"@.len() == 6 && "loading"@.len() == 7);
    let p = |t: Tree| lmstudio::names_model(t);
    let at = lemma_filter_places(items, p);
    assert forall|k: int| 0 <= k < at.len() implies 0 <= #[trigger] at[k] < items.len()
        && lmstudio_says(models[k], items[at[k]]) by {
        assert(lmstudio::says(models[k], items.filter(p)[k]));
    }
    assert forall|i: int|
        0 <= i < items.len() && as_text(field(#[trigger] items[i], "id"@)) is Some implies at.contains(
        i,
    ) by {
        assert(p(items[i]));
    }
    at
}

/// Whether a model is what an entry of llama.cpp's router says: its id, its state
/// by the status it gives, and the path its command line serves it from.
pub open spec fn llamacpp_says(m: LoadedModel, t: Tree) -> bool {
    let word = as_text(then_field(field(t, "status"@), "value"@));
    &&& as_text(field(t, "id"@)) == Some(m.id@)
    &&& m.state == State::Loaded <==> word == Some("loaded"@)
    &&& m.state == State::Loading <==> word == Some("loading"@) || word == Some("starting"@)
    &&& m.context_tokens is None && m.weights_bytes is None && m.expires_at_unix is None
        && m.model_type is None
    &&& as_items(then_field(field(t, "status"@), "args"@)) is None ==> m.artifact_path is None
    &&& forall|k: int|
        as_items(then_field(field(t, "status"@), "args"@)) is Some && #[trigger] follows_model(
            as_items(then_field(field(t, "status"@), "args"@))->0,
            k,
        ) ==> opt_text(m.artifact_path) == as_text(
            Some(as_items(then_field(field(t, "status"@), "args"@))->0[k]),
        )
}

/// Whether a place of a command line is right behind its first `--model`.
pub open spec fn follows_model(args: Seq<Tree>, k: int) -> bool {
    &&& 0 < k < args.len()
    &&& as_text(Some(args[k - 1])) == Some("--model"@)
    &&& forall|j: int| 0 <= j < k - 1 ==> as_text(Some(#[trigger] args[j])) != Some("--model"@)
}

/// A router's listing holds a model for every entry with an id, in their order,
/// and for no other.
pub proof fn llamacpp_lists_what_it_names(models: Seq<LoadedModel>, items: Seq<Tree>) -> (at: Seq<
    int,
>)
    requires
        llamacpp::lists(models, items),
    ensures
        at.len() == models.len(),
        forall|k: int|
            0 <= k < at.len() ==> 0 <= #[trigger] at[k] < items.len() && llamacpp_says(
                models[k],
                items[at[k]],
            ),
        forall|j: int, k: int| 0 <= j < k < at.len() ==> #[trigger] at[j] < #[trigger] at[k],
        forall|i: int|
            0 <= i < items.len() && as_text(field(#[trigger] items[i], "id"@)) is Some
                ==> at.contains(i),
{
    reveal_strlit("loaded");
    reveal_strlit("loading");
    reveal_strlit("starting");
    assert("loaded"@.len() == 6 && "loading"@.len() == 7 && "starting"@.len() == 8);
    let p = |t: Tree| llamacpp::names_model(t);
    let at = lemma_filter_places(items, p);
    assert forall|k: int| 0 <= k < at.len() implies 0 <= #[trigger] at[k] < items.len()
        && llamacpp_says(models[k], items[at[k]]) by {
        assert(llamacpp::says(models[k], items.filter(p)[k]));
        let t = items[at[k]];
        if let Some(args) = as_items(then_field(field(t, "status"@), "args"@)) {
            let q = |x: Tree| llamacpp::is_model_flag(x);
            lemma_first_index(args, q);
            let f = first_index(args, q);
            assert forall|n: int| #[trigger] follows_model(args, n) implies n == f + 1 by {
                assert(q(args[n - 1]));
                assert(args.any(q));
                if f < n - 1 {
                    assert(q(args[f]));
                    assert(as_text(Some(args[f])) != Some("--model"@));
                }
            }
        }
    }
    assert forall|i: int|
        0 <= i < items.len() && as_text(field(#[trigger] items[i], "id"@)) is Some implies at.contains(
        i,
    ) by {
        assert(p(items[i]));
    }
    at
}

/// Whether a model is what an entry of vLLM's status says: loaded exactly where
/// its flag is set, at the memory it names, from the source it names.
pub open spec fn vllm_says(m: LoadedModel, t: Tree) -> bool {
    &&& as_text(field(t, "id"@)) == Some(m.id@)
    &&& m.state == State::Loaded <==> as_flag(field(t, "loaded"@)) == Some(true)
    &&& m.state != State::Loading
    &&& m.weights_bytes is Some <==> as_double(field(t, "memory_gb"@)) is Some
    &&& m.weights_bytes is Some ==> m.weights_bytes->0 == gibibytes(
        as_double(field(t, "memory_gb"@))->0,
    )
    &&& opt_text(m.artifact_path) == as_text(field(t, "source"@))
    &&& m.context_tokens is None && m.expires_at_unix is None && m.model_type is None
}

/// A status document holds a model for every entry with an id, in their order,
/// and for no other.
pub proof fn vllm_lists_what_it_names(models: Seq<LoadedModel>, items: Seq<Tree>) -> (at: Seq<int>)
    requires
        vllm::lists(models, items),
    ensures
        at.len() == models.len(),
        forall|k: int|
            0 <= k < at.len() ==> 0 <= #[trigger] at[k] < items.len() && vllm_says(
                models[k],
                items[at[k]],
            ),
        forall|j: int, k: int| 0 <= j < k < at.len() ==> #[trigger] at[j] < #[trigger] at[k],
        forall|i: int|
            0 <= i < items.len() && as_text(field(#[trigger] items[i], "id"@)) is Some
                ==> at.contains(i),
{
    let p = |t: Tree| vllm::names_model(t);
    let at = lemma_filter_places(items, p);
    assert forall|k: int| 0 <= k < at.len() implies 0 <= #[trigger] at[k] < items.len() && vllm_says(
        models[k],
        items[at[k]],
    ) by {
        assert(vllm::says(models[k], items.filter(p)[k]));
    }
    assert forall|i: int|
        0 <= i < items.len() && as_text(field(#[trigger] items[i], "id"@)) is Some implies at.contains(
        i,
    ) by {
        assert(p(items[i]));
    }
    at
}

/// The name of an entry of Ollama's: its `name`, or its `model` without one.
pub open spec fn goes_by(t: Tree, name: Seq<char>) -> bool {
    as_text(field(t, "name"@)) == Some(name) || (as_text(field(t, "name"@)) is None && as_text(
        field(t, "model"@),
    ) == Some(name))
}

/// What Ollama holds is listed as loaded, each at its size, its window and its
/// expiry; and what is on its disk as not loaded, each at its size and with
/// neither, unless one of that name is held. An entry without a name is not
/// listed.
#[verifier::rlimit(40)]
pub proof fn ollama_lists_what_it_holds_and_what_is_on_disk(
    models: Seq<LoadedModel>,
    items: Seq<Tree>,
    tags: Option<Tree>,
    i: int,
    k: int,
)
    requires
        ({
            let here = ollama::resident_entries(items);
            let disk = ollama::disk_entries(tags, here);
            &&& models.len() == here.len() + disk.len()
            &&& forall|i: int|
                0 <= i < here.len() ==> ollama::says_resident(#[trigger] models[i], here[i])
            &&& forall|i: int|
                here.len() <= i < models.len() ==> ollama::says_on_disk(
                    #[trigger] models[i],
                    disk[i - here.len()],
                )
        }),
    ensures
        0 <= i < items.len() && (exists|n: Seq<char>| goes_by(items[i], n)) ==> exists|m: int|
            {
                &&& 0 <= m < models.len()
                &&& (#[trigger] models[m]).state == State::Loaded
                &&& goes_by(items[i], models[m].id@)
                &&& models[m].weights_bytes == as_unsigned(field(items[i], "size"@))
            },
        0 <= k < models.len() && models[k].state == State::Loaded ==> exists|e: int|
            {
                &&& 0 <= e < items.len()
                &&& goes_by(#[trigger] items[e], models[k].id@)
                &&& models[k].weights_bytes == as_unsigned(field(items[e], "size"@))
                &&& models[k].context_tokens is Some <==> as_unsigned(
                    field(items[e], "context_length"@),
                ) is Some
                &&& models[k].context_tokens is Some && as_unsigned(
                    field(items[e], "context_length"@),
                )->0 <= u32::MAX ==> models[k].context_tokens->0 == as_unsigned(
                    field(items[e], "context_length"@),
                )->0
                &&& as_text(field(items[e], "expires_at"@)) is None
                    ==> models[k].expires_at_unix is None
                &&& as_text(field(items[e], "expires_at"@)) is Some ==> models[k].expires_at_unix
                    == unix_seconds(as_text(field(items[e], "expires_at"@))->0)
            },
        0 <= k < models.len() && models[k].state != State::Loaded ==> {
            &&& models[k].state == State::NotLoaded
            &&& models[k].context_tokens is None
            &&& models[k].expires_at_unix is None
            &&& tags is Some
            &&& as_items(field(tags->0, "models"@)) is Some
            &&& forall|e: int|
                0 <= e < items.len() ==> !goes_by(#[trigger] items[e], models[k].id@)
            &&& exists|e: int|
                {
                    &&& 0 <= e < as_items(field(tags->0, "models"@))->0.len()
                    &&& goes_by(
                        #[trigger] as_items(field(tags->0, "models"@))->0[e],
                        models[k].id@,
                    )
                    &&& models[k].weights_bytes == as_unsigned(
                        field(as_items(field(tags->0, "models"@))->0[e], "size"@),
                    )
                }
        },
{
    let here = ollama::resident_entries(items);
    let disk = ollama::disk_entries(tags, here);
    let p = |t: Tree| ollama::named(t);
    let at = lemma_filter_places(items, p);
    if 0 <= i < items.len() && (exists|n: Seq<char>| goes_by(items[i], n)) {
        let n = choose|n: Seq<char>| goes_by(items[i], n);
        assert(p(items[i]));
        assert(at.contains(i));
        let m = at.index_of(i);
        assert(here[m] == items[i]);
        assert(ollama::says_resident(models[m], here[m]));
    }
    if 0 <= k < models.len() {
        if k < here.len() {
            assert(ollama::says_resident(models[k], here[k]));
            let e = at[k];
            assert(items[e] == here[k]);
        } else {
            let x = disk[k - here.len()];
            assert(ollama::says_on_disk(models[k], x));
            let all = as_items(field(tags->0, "models"@))->0;
            let q = |t: Tree| ollama::only_on_disk(t, here);
            let to = lemma_filter_places(all, q);
            let e = to[k - here.len()];
            assert(all[e] == x);
            assert(q(all[e]));
            assert(goes_by(all[e], models[k].id@));
            assert forall|e: int| 0 <= e < items.len() implies !goes_by(
                #[trigger] items[e],
                models[k].id@,
            ) by {
                if goes_by(items[e], models[k].id@) {
                    assert(p(items[e]));
                    assert(at.contains(e));
                    let m = at.index_of(e);
                    assert(ollama::name_of(here[m]) == Some(models[k].id@));
                }
            }
        }
    }
}

/// A key that was given stays when entries are put in order.
proof fn lemma_key_stays(s: Seq<(Seq<char>, Tree)>, i: int)
    requires
        0 <= i < s.len(),
    ensures
        exists|k: int| 0 <= k < in_order(s).len() && (#[trigger] in_order(s)[k]).0 == s[i].0,
    decreases s.len(),
{
    let t = s.drop_last();
    let before = in_order(t);
    let e = s.last();
    if i < t.len() {
        lemma_key_stays(t, i);
        assert(t[i] == s[i]);
        let k = choose|k: int| 0 <= k < before.len() && (#[trigger] before[k]).0 == s[i].0;
        lemma_keyed_in_keeps(before, e.0, e.1, s[i].0);
    } else {
        lemma_keyed_in_keeps(before, e.0, e.1, e.0);
    }
    let all = keyed_in(before, e.0, e.1);
    assert(in_order(s) == all);
    let k = choose|k: int| 0 <= k < all.len() && (#[trigger] all[k]).0 == s[i].0;
    assert(in_order(s)[k].0 == s[i].0);
}

proof fn lemma_keyed_in_keeps(s: Seq<(Seq<char>, Tree)>, k: Seq<char>, v: Tree, key: Seq<char>)
    requires
        key == k || exists|i: int| 0 <= i < s.len() && (#[trigger] s[i]).0 == key,
    ensures
        exists|i: int|
            0 <= i < keyed_in(s, k, v).len() && (#[trigger] keyed_in(s, k, v)[i]).0 == key,
    decreases s.len(),
{
    let r = keyed_in(s, k, v);
    if s.len() == 0 {
        assert(r[0].0 == key);
    } else {
        let t = s.drop_last();
        let last = s.len() - 1;
        if s.last().0 == k {
            if key == k {
                assert(r[last].0 == key);
            } else {
                let i = choose|i: int| 0 <= i < s.len() && (#[trigger] s[i]).0 == key;
                assert(i < last);
                assert(r[i] == s[i]);
            }
        } else if text_lt(s.last().0, k) {
            if key == k {
                assert(r[s.len() as int].0 == key);
            } else {
                let i = choose|i: int| 0 <= i < s.len() && (#[trigger] s[i]).0 == key;
                assert(r[i] == s[i]);
            }
        } else {
            let front = keyed_in(t, k, v);
            if key == s.last().0 {
                assert(r[front.len() as int].0 == key);
            } else {
                if key != k {
                    let i = choose|i: int| 0 <= i < s.len() && (#[trigger] s[i]).0 == key;
                    assert(t[i].0 == key);
                }
                lemma_keyed_in_keeps(t, k, v, key);
                let i = choose|i: int| 0 <= i < front.len() && (#[trigger] front[i]).0 == key;
                assert(r[i] == front[i]);
            }
        }
    }
}

/// What a record holds under a key that was given once is what was given.
proof fn lemma_field_of(s: Seq<(Seq<char>, Tree)>, i: int)
    requires
        0 <= i < s.len(),
        forall|j: int| 0 <= j < s.len() && j != i ==> (#[trigger] s[j]).0 != s[i].0,
    ensures
        field(record(s), s[i].0) == Some(s[i].1),
{
    let e = in_order(s);
    let key = s[i].0;
    let p = |x: (Seq<char>, Tree)| under(x, key);
    lemma_key_stays(s, i);
    let k = choose|k: int| 0 <= k < e.len() && (#[trigger] e[k]).0 == key;
    lemma_first_index(e, p);
    assert(p(e[k]));
    assert(e.any(p));
    let f = first_index(e, p);
    assert(p(e[f]));
    assert(e.contains(e[f]));
    lemma_in_order_members(s, e[f]);
    let j = s.index_of(e[f]);
    assert(s[j].0 == key);
    assert(j == i);
}

/// A request that changes residency names its model, says to drop it at once or
/// to keep it for its term, and carries the window where there is one.
#[verifier::rlimit(40)]
pub proof fn a_residency_request_says_what_is_meant(
    path: Seq<char>,
    model: Seq<char>,
    stay: ollama::Stay,
    window: Option<u32>,
)
    ensures
        ({
            let t = ollama::residency_tree(path, model, stay, window);
            &&& field(t, "model"@) == Some(Tree::Text(model))
            &&& stay == ollama::Stay::Drop ==> field(t, "keep_alive"@) == Some(plain_number(0))
            &&& stay == ollama::Stay::Keep ==> field(t, "keep_alive"@) == Some(Tree::Text("10m"@))
            &&& window is Some ==> then_field(field(t, "options"@), "num_ctx"@) == Some(
                plain_number(window->0 as u64),
            )
            &&& path == "/api/embed"@ ==> field(t, "input"@) == Some(Tree::Text(Seq::empty()))
            &&& path != "/api/embed"@ ==> field(t, "prompt"@) == Some(Tree::Text(Seq::empty()))
        }),
{
    reveal_strlit("prompt");
    reveal_strlit("input");
    reveal_strlit("model");
    reveal_strlit("keep_alive");
    reveal_strlit("options");
    assert("prompt"@.len() == 6);
    assert("input"@.len() == 5 && "input"@[0] == 'i');
    assert("model"@.len() == 5 && "model"@[0] == 'm');
    assert("keep_alive"@.len() == 10);
    assert("options"@.len() == 7);
    let s = ollama::residency_fields(path, model, stay, window);
    lemma_field_of(s, 0);
    lemma_field_of(s, 1);
    lemma_field_of(s, 2);
    if let Some(n) = window {
        lemma_field_of(s, 3);
        let inner = seq![("num_ctx"@, plain_number(n as u64))];
        lemma_field_of(inner, 0);
    }
}

/// A load is asked of LM Studio by the model's own id, with the window and the
/// time to live that were asked for, each behind its flag, and with nothing where
/// none was.
pub proof fn a_load_command_says_what_was_asked(r: LoadRequest)
    ensures
        ({
            let w = lmstudio::load_words(r);
            let n: int = if r.context_tokens is Some {
                6
            } else {
                4
            };
            &&& w[0] == "lms"@ && w[1] == "load"@ && w[2] == r.model@ && w[3] == "--yes"@
            &&& r.context_tokens is Some ==> w[4] == "--context-length"@ && w[5] == decimal(
                r.context_tokens->0 as nat,
            )
            &&& r.ttl_seconds is Some ==> w.len() == n + 2 && w[n] == "--ttl"@ && w[n + 1]
                == decimal(r.ttl_seconds->0 as nat)
            &&& r.ttl_seconds is None ==> w.len() == n
        }),
{
}

} // verus!
