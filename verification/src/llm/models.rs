//! The catalogues of models that providers offer.

use serde_json::Value;
use vstd::prelude::*;

use crate::llm::error::{Error, ErrorView};
use crate::llm::json::{
    get_list, get_text, json_document, json_get, json_items, json_of, json_whole, list_member,
    member, parse_json, text_member, JsonView,
};
use crate::style_mapper::opt_text;
use crate::text::{chars_eq, chars_of, decimal, to_decimal};

verus! {

/// A model of a catalogue.
#[derive(Debug)]
pub struct ModelInfo {
    /// What the provider calls it.
    pub id: String,
    /// What it can do, in words.
    pub capabilities: String,
}

/// A model of a catalogue.
#[verifier::ext_equal]
pub struct ModelView {
    pub id: Seq<char>,
    pub capabilities: Seq<char>,
}

impl View for ModelInfo {
    type V = ModelView;

    open spec fn view(&self) -> ModelView {
        ModelView { id: self.id@, capabilities: self.capabilities@ }
    }
}

/// The models of a vector.
pub open spec fn models_view(v: Seq<ModelInfo>) -> Seq<ModelView> {
    v.map_values(|m: ModelInfo| m@)
}

/// How a provider lays out its catalogue.
#[derive(Debug, Clone, Copy, PartialEq, Eq, Structural)]
pub enum Catalogue {
    /// `data` with `id` and `context_window`.
    OpenAi,
    /// `data` with `id` and `display_name`.
    Anthropic,
    /// `models` with `name` and the `parameter_size` of `details`.
    Ollama,
}

/// The key of the list of models.
pub open spec fn list_key(c: Catalogue) -> Seq<char> {
    match c {
        Catalogue::Ollama => "models"@,
        _ => "data"@,
    }
}

/// What is wrong with a catalogue without its list.
pub open spec fn list_reason(c: Catalogue) -> Seq<char> {
    match c {
        Catalogue::Ollama => "expected `models` array"@,
        _ => "expected `data` array"@,
    }
}

/// An optional text, or another.
pub open spec fn text_or(t: Option<Seq<char>>, other: Seq<char>) -> Seq<char> {
    match t {
        Some(s) => s,
        None => other,
    }
}

/// The name that a catalogue gives a model; nothing where it gives none.
pub open spec fn model_id(c: Catalogue, entry: JsonView) -> Seq<char> {
    match c {
        Catalogue::Ollama => text_or(text_member(entry, "name"@), Seq::empty()),
        _ => text_or(text_member(entry, "id"@), Seq::empty()),
    }
}

/// What a catalogue says of a model.
pub open spec fn model_capabilities(c: Catalogue, entry: JsonView) -> Seq<char> {
    match c {
        Catalogue::OpenAi => match member(entry, "context_window"@) {
            Some(w) => match json_whole(w) {
                Some(n) => "ctx: "@ + decimal(n as nat),
                None => "Available"@,
            },
            None => "Available"@,
        },
        Catalogue::Anthropic => {
            let display = text_or(text_member(entry, "display_name"@), Seq::empty());
            if display.len() == 0 {
                "Available"@
            } else {
                "Display: "@ + display
            }
        },
        Catalogue::Ollama => {
            let size = match member(entry, "details"@) {
                Some(d) => text_or(text_member(d, "parameter_size"@), "?"@),
                None => "?"@,
            };
            size + " params"@
        },
    }
}

/// The models among the first `k` entries. One without a name is left out.
pub open spec fn listed_models(c: Catalogue, entries: Seq<JsonView>, k: int) -> Seq<ModelView>
    decreases k,
{
    if k <= 0 {
        Seq::empty()
    } else {
        let before = listed_models(c, entries, k - 1);
        let id = model_id(c, entries[k - 1]);
        if id.len() == 0 {
            before
        } else {
            before.push(ModelView { id, capabilities: model_capabilities(c, entries[k - 1]) })
        }
    }
}

fn read_id(c: Catalogue, entry: &Value) -> (r: String)
    ensures
        r@ == model_id(c, json_of(*entry)),
{
    let id = match c {
        Catalogue::Ollama => get_text(entry, "name"),
        _ => get_text(entry, "id"),
    };
    match id {
        Some(s) => s.to_owned(),
        None => {
            let r = String::new();
            assert(r@ =~= Seq::empty());
            r
        },
    }
}

fn read_capabilities(c: Catalogue, entry: &Value) -> (r: String)
    ensures
        r@ == model_capabilities(c, json_of(*entry)),
{
    match c {
        Catalogue::OpenAi => {
            if let Some(w) = json_get(entry, "context_window") {
                if let Some(n) = w.as_u64() {
                    let mut r = "ctx: ".to_owned();
                    r.append(&to_decimal(n));
                    return r;
                }
            }
            "Available".to_owned()
        },
        Catalogue::Anthropic => {
            if let Some(display) = get_text(entry, "display_name") {
                if !display.is_empty() {
                    let mut r = "Display: ".to_owned();
                    r.append(display);
                    return r;
                }
            }
            "Available".to_owned()
        },
        Catalogue::Ollama => {
            let mut r = "?".to_owned();
            if let Some(d) = json_get(entry, "details") {
                if let Some(size) = get_text(d, "parameter_size") {
                    r = size.to_owned();
                }
            }
            r.append(" params");
            r
        },
    }
}

/// The models of a catalogue.
pub open spec fn catalogue_models(c: Catalogue, provider: Seq<char>, body: Seq<char>) -> Result<
    Seq<ModelView>,
    ErrorView,
> {
    match json_document(body) {
        Err(e) => Err(ErrorView::Json(e)),
        Ok(v) => match list_member(v, list_key(c)) {
            None => Err(ErrorView::BadResponse { provider, reason: list_reason(c) }),
            Some(entries) => Ok(listed_models(c, entries, entries.len() as int)),
        },
    }
}

/// The models of the entries of a catalogue.
pub fn models_of_entries(c: Catalogue, entries: &Vec<Value>) -> (r: Vec<ModelInfo>)
    ensures
        models_view(r@) == listed_models(c, json_items(entries@), entries@.len() as int),
{
    let ghost all = json_items(entries@);
    let mut r: Vec<ModelInfo> = Vec::new();
    let mut i: usize = 0;
    assert(models_view(r@) =~= Seq::empty());
    while i < entries.len()
        invariant
            i <= entries@.len(),
            all == json_items(entries@),
            models_view(r@) == listed_models(c, all, i as int),
        decreases entries@.len() - i,
    {
        assert(all[i as int] == json_of(entries@[i as int]));
        let id = read_id(c, &entries[i]);
        if !id.as_str().is_empty() {
            let m = ModelInfo { id, capabilities: read_capabilities(c, &entries[i]) };
            let ghost before = models_view(r@);
            r.push(m);
            assert(models_view(r@) =~= before.push(m@));
        }
        i += 1;
    }
    r
}

/// The models of a catalogue, given the reply of the provider.
pub fn list_models(c: Catalogue, provider: &'static str, body: &str) -> (r: Result<
    Vec<ModelInfo>,
    Error,
>)
    ensures
        match r {
            Ok(models) => catalogue_models(c, provider@, body@) == Ok::<Seq<ModelView>, ErrorView>(
                models_view(models@),
            ),
            Err(e) => catalogue_models(c, provider@, body@) == Err::<Seq<ModelView>, ErrorView>(
                e@,
            ),
        },
{
    let doc = match parse_json(body) {
        Ok(v) => v,
        Err(e) => {
            return Err(Error::Json(e));
        },
    };
    let entries = match c {
        Catalogue::Ollama => get_list(&doc, "models"),
        _ => get_list(&doc, "data"),
    };
    match entries {
        Some(entries) => Ok(models_of_entries(c, entries)),
        None => {
            let reason = match c {
                Catalogue::Ollama => "expected `models` array".to_owned(),
                _ => "expected `data` array".to_owned(),
            };
            Err(Error::BadResponse { provider, reason })
        },
    }
}

// ---------------------------------------------------------------------------
// The model of a catalogue that is asked
// ---------------------------------------------------------------------------

/// How the name of Anthropic's usual model ends.
pub const ANTHROPIC_VERSION: &'static str = "3-5-sonnet-20241022";

/// The name ends in the version.
pub open spec fn has_version(id: Seq<char>, version: Seq<char>) -> bool {
    version.len() <= id.len() && id.skip(id.len() - version.len()) == version
}

/// The first model at or after the `i`-th with the given version.
pub open spec fn version_at(models: Seq<ModelView>, version: Seq<char>, i: int) -> Option<Seq<char>>
    decreases models.len() - i,
{
    if i >= models.len() {
        None
    } else if has_version(models[i].id, version) {
        Some(models[i].id)
    } else {
        version_at(models, version, i + 1)
    }
}

fn is_version(id: &str, version: &str) -> (r: bool)
    ensures
        r == has_version(id@, version@),
{
    let a = chars_of(id);
    let b = chars_of(version);
    if a.len() < b.len() {
        return false;
    }
    let from: usize = a.len() - b.len();
    assert(a@.subrange(from as int, a@.len() as int) =~= a@.skip(from as int));
    chars_eq(vstd::slice::slice_subrange(a.as_slice(), from, a.len()), &b)
}

/// The first model of a catalogue with the given version.
pub fn pick_model(models: &Vec<ModelInfo>, version: &str) -> (r: Option<String>)
    ensures
        opt_text(r) == version_at(models_view(models@), version@, 0),
{
    let ghost all = models_view(models@);
    let mut i: usize = 0;
    while i < models.len()
        invariant
            i <= models@.len(),
            all == models_view(models@),
            version_at(all, version@, 0) == version_at(all, version@, i as int),
        decreases models@.len() - i,
    {
        assert(all[i as int] == models@[i as int]@);
        if is_version(&models[i].id, version) {
            return Some(models[i].id.as_str().to_owned());
        }
        i += 1;
    }
    None
}

proof fn lemma_version_from(models: Seq<ModelView>, version: Seq<char>, from: int, i: int)
    requires
        0 <= from <= i < models.len(),
        has_version(models[i].id, version),
        forall|j: int| from <= j < i ==> !has_version((#[trigger] models[j]).id, version),
    ensures
        version_at(models, version, from) == Some(models[i].id),
    decreases i - from,
{
    if from < i {
        assert(!has_version(models[from].id, version));
        lemma_version_from(models, version, from + 1, i);
    }
}

proof fn lemma_no_version_from(models: Seq<ModelView>, version: Seq<char>, from: int)
    requires
        0 <= from,
        forall|j: int|
            from <= j < models.len() ==> !has_version((#[trigger] models[j]).id, version),
    ensures
        version_at(models, version, from) is None,
    decreases models.len() - from,
{
    if from < models.len() {
        assert(!has_version(models[from].id, version));
        lemma_no_version_from(models, version, from + 1);
    }
}

/// Of the models whose names end in a version the first is picked, and none where no name does.
pub proof fn law_first_with_the_version_is_picked(
    models: Seq<ModelView>,
    version: Seq<char>,
    i: int,
    family: Seq<char>,
)
    ensures
        0 <= i < models.len() && models[i].id == family + version && (forall|j: int|
            0 <= j < i ==> !has_version((#[trigger] models[j]).id, version)) ==> version_at(
            models,
            version,
            0,
        ) == Some(family + version),
        (forall|j: int| 0 <= j < models.len() ==> !has_version((#[trigger] models[j]).id, version))
            ==> version_at(models, version, 0) is None,
{
    assert((family + version).skip((family + version).len() - version.len()) =~= version);
    if 0 <= i < models.len() && models[i].id == family + version && (forall|j: int|
        0 <= j < i ==> !has_version((#[trigger] models[j]).id, version)) {
        lemma_version_from(models, version, 0, i);
    }
    if forall|j: int| 0 <= j < models.len() ==> !has_version((#[trigger] models[j]).id, version) {
        lemma_no_version_from(models, version, 0);
    }
}

} // verus!
