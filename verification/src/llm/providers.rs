//! Providers of language models: their names, endpoints and configuration.

use vstd::prelude::*;

use crate::llm::error::{Error, ErrorView};
use crate::llm::models::Catalogue;
use crate::paragraph_text::texts_view;
use crate::style_mapper::opt_text;
use crate::text::str_eq;

verus! {

/// A provider of language models.
#[derive(Debug, Clone, Copy, PartialEq, Eq, Structural)]
pub enum ProviderKind {
    /// OpenAI.
    OpenAi,
    /// Anthropic.
    Anthropic,
    /// A local Ollama server.
    Ollama,
    /// Groq.
    Groq,
    /// OpenRouter.
    OpenRouter,
    /// Together.
    Together,
    /// Cerebras.
    Cerebras,
    /// Mistral.
    Mistral,
    /// Nebius AI Studio.
    Nebius,
    /// Scaleway.
    Scaleway,
    /// Poe.
    Poe,
    /// Google Gemini.
    Google,
}

/// The form of a provider's requests and replies.
#[derive(Debug, Clone, Copy, PartialEq, Eq, Structural)]
pub enum WireFormat {
    /// Chat completions, as OpenAI and most gateways have them.
    ChatCompletions,
    /// Messages, as Anthropic has them.
    Messages,
    /// Generate, as Ollama has it.
    Generate,
}

/// The name of a provider.
pub open spec fn provider_name(kind: ProviderKind) -> Seq<char> {
    match kind {
        ProviderKind::OpenAi => "openai"@,
        ProviderKind::Anthropic => "anthropic"@,
        ProviderKind::Ollama => "ollama"@,
        ProviderKind::Groq => "groq"@,
        ProviderKind::OpenRouter => "openrouter"@,
        ProviderKind::Together => "together"@,
        ProviderKind::Cerebras => "cerebras"@,
        ProviderKind::Mistral => "mistral"@,
        ProviderKind::Nebius => "nebius"@,
        ProviderKind::Scaleway => "scaleway"@,
        ProviderKind::Poe => "poe"@,
        ProviderKind::Google => "google"@,
    }
}

/// The address of a provider where the configuration gives none.
pub open spec fn default_base(kind: ProviderKind) -> Seq<char> {
    match kind {
        ProviderKind::OpenAi => "https://api.openai.com/v1"@,
        ProviderKind::Anthropic => "https://api.anthropic.com/v1"@,
        ProviderKind::Ollama => "http://localhost:11434/api"@,
        ProviderKind::Groq => "https://api.groq.com/openai/v1"@,
        ProviderKind::OpenRouter => "https://openrouter.ai/api/v1"@,
        ProviderKind::Together => "https://api.together.xyz/v1"@,
        ProviderKind::Cerebras => "https://api.cerebras.ai/v1"@,
        ProviderKind::Mistral => "https://api.mistral.ai/v1"@,
        ProviderKind::Nebius => "https://api.studio.nebius.ai/v1"@,
        ProviderKind::Scaleway => "https://api.scaleway.ai/v1"@,
        ProviderKind::Poe => "https://api.poe.com/v1"@,
        ProviderKind::Google => "https://generativelanguage.googleapis.com/v1beta/openai"@,
    }
}

/// The form of a provider's requests and replies.
pub open spec fn wire_format(kind: ProviderKind) -> WireFormat {
    match kind {
        ProviderKind::Anthropic => WireFormat::Messages,
        ProviderKind::Ollama => WireFormat::Generate,
        _ => WireFormat::ChatCompletions,
    }
}

/// The environment variable with a provider's key. A local server needs none.
pub open spec fn key_variable(kind: ProviderKind) -> Option<Seq<char>> {
    match kind {
        ProviderKind::OpenAi => Some("OPENAI_API_KEY"@),
        ProviderKind::Anthropic => Some("ANTHROPIC_API_KEY"@),
        ProviderKind::Ollama => None,
        ProviderKind::Groq => Some("GROQ_API_KEY"@),
        ProviderKind::OpenRouter => Some("OPENROUTER_API_KEY"@),
        ProviderKind::Together => Some("TOGETHER_API_KEY"@),
        ProviderKind::Cerebras => Some("CEREBRAS_API_KEY"@),
        ProviderKind::Mistral => Some("MISTRAL_API_KEY"@),
        ProviderKind::Nebius => Some("NEBIUS_API_KEY"@),
        ProviderKind::Scaleway => Some("SCALEWAY_API_KEY"@),
        ProviderKind::Poe => Some("POE_API_KEY"@),
        ProviderKind::Google => Some("GOOGLEAI_API_KEY"@),
    }
}

/// A provider that can be asked where no model is named.
pub open spec fn has_usual_model(kind: ProviderKind) -> bool {
    kind == ProviderKind::OpenAi || kind == ProviderKind::Anthropic || kind == ProviderKind::Groq
        || kind == ProviderKind::Ollama
}

/// The model that is asked where none is named. Anthropic's stands in its catalogue: the
/// caller says which it is.
pub open spec fn usual_model(kind: ProviderKind, listed: Option<Seq<char>>) -> Option<Seq<char>> {
    match kind {
        ProviderKind::OpenAi => Some("gpt-4o-mini"@),
        ProviderKind::Anthropic => listed,
        ProviderKind::Groq => Some("llama-3.3-70b-versatile"@),
        ProviderKind::Ollama => Some("llama3.2"@),
        _ => None,
    }
}

impl ProviderKind {
    /// The provider's name.
    pub fn name(self) -> (r: &'static str)
        ensures
            r@ == provider_name(self),
    {
        match self {
            ProviderKind::OpenAi => "openai",
            ProviderKind::Anthropic => "anthropic",
            ProviderKind::Ollama => "ollama",
            ProviderKind::Groq => "groq",
            ProviderKind::OpenRouter => "openrouter",
            ProviderKind::Together => "together",
            ProviderKind::Cerebras => "cerebras",
            ProviderKind::Mistral => "mistral",
            ProviderKind::Nebius => "nebius",
            ProviderKind::Scaleway => "scaleway",
            ProviderKind::Poe => "poe",
            ProviderKind::Google => "google",
        }
    }

    /// The provider's address where the configuration gives none.
    pub fn default_base_url(self) -> (r: &'static str)
        ensures
            r@ == default_base(self),
    {
        match self {
            ProviderKind::OpenAi => "https://api.openai.com/v1",
            ProviderKind::Anthropic => "https://api.anthropic.com/v1",
            ProviderKind::Ollama => "http://localhost:11434/api",
            ProviderKind::Groq => "https://api.groq.com/openai/v1",
            ProviderKind::OpenRouter => "https://openrouter.ai/api/v1",
            ProviderKind::Together => "https://api.together.xyz/v1",
            ProviderKind::Cerebras => "https://api.cerebras.ai/v1",
            ProviderKind::Mistral => "https://api.mistral.ai/v1",
            ProviderKind::Nebius => "https://api.studio.nebius.ai/v1",
            ProviderKind::Scaleway => "https://api.scaleway.ai/v1",
            ProviderKind::Poe => "https://api.poe.com/v1",
            ProviderKind::Google => "https://generativelanguage.googleapis.com/v1beta/openai",
        }
    }

    /// The form of the provider's requests and replies.
    pub fn wire(self) -> (r: WireFormat)
        ensures
            r == wire_format(self),
    {
        match self {
            ProviderKind::Anthropic => WireFormat::Messages,
            ProviderKind::Ollama => WireFormat::Generate,
            _ => WireFormat::ChatCompletions,
        }
    }

    /// The environment variable with the provider's key.
    pub fn key_env(self) -> (r: Option<&'static str>)
        ensures
            match r {
                Some(v) => key_variable(self) == Some(v@),
                None => key_variable(self) is None,
            },
    {
        match self {
            ProviderKind::OpenAi => Some("OPENAI_API_KEY"),
            ProviderKind::Anthropic => Some("ANTHROPIC_API_KEY"),
            ProviderKind::Ollama => None,
            ProviderKind::Groq => Some("GROQ_API_KEY"),
            ProviderKind::OpenRouter => Some("OPENROUTER_API_KEY"),
            ProviderKind::Together => Some("TOGETHER_API_KEY"),
            ProviderKind::Cerebras => Some("CEREBRAS_API_KEY"),
            ProviderKind::Mistral => Some("MISTRAL_API_KEY"),
            ProviderKind::Nebius => Some("NEBIUS_API_KEY"),
            ProviderKind::Scaleway => Some("SCALEWAY_API_KEY"),
            ProviderKind::Poe => Some("POE_API_KEY"),
            ProviderKind::Google => Some("GOOGLEAI_API_KEY"),
        }
    }

    /// Whether the provider can be asked where no model is named.
    pub fn has_default_model(self) -> (r: bool)
        ensures
            r == has_usual_model(self),
    {
        match self {
            ProviderKind::OpenAi | ProviderKind::Anthropic | ProviderKind::Groq
            | ProviderKind::Ollama => true,
            _ => false,
        }
    }

    /// The model that is asked where none is named, given the one that was found in the
    /// catalogue of Anthropic, if any.
    pub fn default_model(self, listed: Option<String>) -> (r: Option<String>)
        ensures
            opt_text(r) == usual_model(self, opt_text(listed)),
    {
        match self {
            ProviderKind::OpenAi => Some("gpt-4o-mini".to_owned()),
            ProviderKind::Anthropic => listed,
            ProviderKind::Groq => Some("llama-3.3-70b-versatile".to_owned()),
            ProviderKind::Ollama => Some("llama3.2".to_owned()),
            _ => None,
        }
    }
}

// ---------------------------------------------------------------------------
// Configuration
// ---------------------------------------------------------------------------

/// The configuration of a provider.
#[derive(Debug)]
pub struct ProviderConfig {
    /// The provider.
    pub kind: ProviderKind,
    /// The key. A local server needs none.
    pub api_key: Option<String>,
    /// The model.
    pub model: String,
    /// The address, where it is not the provider's own.
    pub base_url: Option<String>,
}

/// A provider that can be asked.
#[derive(Debug)]
pub struct ProviderSettings {
    /// The provider.
    pub kind: ProviderKind,
    /// The key, where the provider needs one.
    pub api_key: Option<String>,
    /// The model.
    pub model: String,
    /// The address.
    pub base_url: String,
}

/// A provider that can be asked.
#[verifier::ext_equal]
pub struct SettingsView {
    pub kind: ProviderKind,
    pub api_key: Option<Seq<char>>,
    pub model: Seq<char>,
    pub base_url: Seq<char>,
}

impl View for ProviderSettings {
    type V = SettingsView;

    open spec fn view(&self) -> SettingsView {
        SettingsView {
            kind: self.kind,
            api_key: opt_text(self.api_key),
            model: self.model@,
            base_url: self.base_url@,
        }
    }
}

/// What a configuration comes to: every provider but a local server needs a key, and an
/// address that is not given is the provider's own.
pub open spec fn resolved(cfg: ProviderConfig) -> Result<SettingsView, ErrorView> {
    if cfg.kind != ProviderKind::Ollama && cfg.api_key is None {
        Err(ErrorView::Config(provider_name(cfg.kind) + " requires api_key"@))
    } else {
        Ok(
            SettingsView {
                kind: cfg.kind,
                api_key: if cfg.kind == ProviderKind::Ollama {
                    None
                } else {
                    opt_text(cfg.api_key)
                },
                model: cfg.model@,
                base_url: match cfg.base_url {
                    Some(url) => url@,
                    None => default_base(cfg.kind),
                },
            },
        )
    }
}

impl ProviderConfig {
    /// The provider that the configuration describes.
    pub fn into_provider(self) -> (r: Result<ProviderSettings, Error>)
        ensures
            match r {
                Ok(s) => resolved(self) == Ok::<SettingsView, ErrorView>(s@),
                Err(e) => resolved(self) == Err::<SettingsView, ErrorView>(e@),
            },
    {
        if self.kind != ProviderKind::Ollama && self.api_key.is_none() {
            let mut reason = self.kind.name().to_owned();
            reason.append(" requires api_key");
            return Err(Error::Config(reason));
        }
        let api_key = if self.kind == ProviderKind::Ollama {
            None
        } else {
            self.api_key
        };
        let base_url = match self.base_url {
            Some(url) => url,
            None => self.kind.default_base_url().to_owned(),
        };
        Ok(ProviderSettings { kind: self.kind, api_key, model: self.model, base_url })
    }
}

/// Where translations are asked for.
pub open spec fn translate_path(wire: WireFormat) -> Seq<char> {
    match wire {
        WireFormat::ChatCompletions => "/chat/completions"@,
        WireFormat::Messages => "/messages"@,
        WireFormat::Generate => "/generate"@,
    }
}

/// Where the catalogue of models is.
pub open spec fn models_path(wire: WireFormat) -> Seq<char> {
    match wire {
        WireFormat::Generate => "/tags"@,
        _ => "/models"@,
    }
}

impl ProviderSettings {
    /// The address that is asked for translations.
    pub fn translate_url(&self) -> (r: String)
        ensures
            r@ == self@.base_url + translate_path(wire_format(self@.kind)),
    {
        let mut r = self.base_url.as_str().to_owned();
        match self.kind.wire() {
            WireFormat::ChatCompletions => {
                r.append("/chat/completions");
            },
            WireFormat::Messages => {
                r.append("/messages");
            },
            WireFormat::Generate => {
                r.append("/generate");
            },
        }
        r
    }

    /// The address of the catalogue of models.
    pub fn models_url(&self) -> (r: String)
        ensures
            r@ == self@.base_url + models_path(wire_format(self@.kind)),
    {
        let mut r = self.base_url.as_str().to_owned();
        match self.kind.wire() {
            WireFormat::Generate => {
                r.append("/tags");
            },
            _ => {
                r.append("/models");
            },
        }
        r
    }

    /// How the catalogue of models is laid out.
    pub fn catalogue(&self) -> (r: Catalogue)
        ensures
            r == match wire_format(self@.kind) {
                WireFormat::ChatCompletions => Catalogue::OpenAi,
                WireFormat::Messages => Catalogue::Anthropic,
                WireFormat::Generate => Catalogue::Ollama,
            },
    {
        match self.kind.wire() {
            WireFormat::ChatCompletions => Catalogue::OpenAi,
            WireFormat::Messages => Catalogue::Anthropic,
            WireFormat::Generate => Catalogue::Ollama,
        }
    }
}

// ---------------------------------------------------------------------------
// Choice of providers
// ---------------------------------------------------------------------------

/// The providers in the order in which they are considered.
pub open spec fn considered() -> Seq<ProviderKind> {
    seq![
        ProviderKind::OpenAi,
        ProviderKind::Anthropic,
        ProviderKind::Groq,
        ProviderKind::OpenRouter,
        ProviderKind::Together,
        ProviderKind::Cerebras,
        ProviderKind::Mistral,
        ProviderKind::Nebius,
        ProviderKind::Scaleway,
        ProviderKind::Poe,
        ProviderKind::Google,
    ]
}

/// Those of the first `k` providers whose key is among the variables that are set.
pub open spec fn with_keys(kinds: Seq<ProviderKind>, set: Seq<Seq<char>>, k: int) -> Seq<
    ProviderKind,
>
    decreases k,
{
    if k <= 0 {
        Seq::empty()
    } else {
        let before = with_keys(kinds, set, k - 1);
        match key_variable(kinds[k - 1]) {
            Some(v) => if set.contains(v) {
                before.push(kinds[k - 1])
            } else {
                before
            },
            None => before,
        }
    }
}

/// Those of the first `k` providers that can be asked: those with a usual model, and the
/// first where a model is named.
pub open spec fn askable(kinds: Seq<ProviderKind>, model_named: bool, k: int) -> Seq<ProviderKind>
    decreases k,
{
    if k <= 0 {
        Seq::empty()
    } else {
        let before = askable(kinds, model_named, k - 1);
        if has_usual_model(kinds[k - 1]) || (k == 1 && model_named) {
            before.push(kinds[k - 1])
        } else {
            before
        }
    }
}

fn is_set(set: &Vec<String>, name: &str) -> (r: bool)
    ensures
        r == texts_view(set@).contains(name@),
{
    let mut i: usize = 0;
    while i < set.len()
        invariant
            i <= set@.len(),
            forall|j: int| 0 <= j < i ==> #[trigger] texts_view(set@)[j] != name@,
        decreases set@.len() - i,
    {
        assert(texts_view(set@)[i as int] == set@[i as int]@);
        if str_eq(&set[i], name) {
            return true;
        }
        i += 1;
    }
    false
}

/// The providers whose keys are among the environment variables that are set.
fn find_keyed(set: &Vec<String>) -> (r: Vec<ProviderKind>)
    ensures
        r@ == with_keys(considered(), texts_view(set@), considered().len() as int),
{
    let kinds: Vec<ProviderKind> = vec![
        ProviderKind::OpenAi,
        ProviderKind::Anthropic,
        ProviderKind::Groq,
        ProviderKind::OpenRouter,
        ProviderKind::Together,
        ProviderKind::Cerebras,
        ProviderKind::Mistral,
        ProviderKind::Nebius,
        ProviderKind::Scaleway,
        ProviderKind::Poe,
        ProviderKind::Google,
    ];
    assert(kinds@ =~= considered());
    let mut r: Vec<ProviderKind> = Vec::new();
    let mut i: usize = 0;
    while i < kinds.len()
        invariant
            i <= kinds@.len(),
            kinds@ == considered(),
            r@ == with_keys(kinds@, texts_view(set@), i as int),
        decreases kinds@.len() - i,
    {
        if let Some(v) = kinds[i].key_env() {
            if is_set(set, v) {
                r.push(kinds[i]);
            }
        }
        i += 1;
    }
    r
}

/// The providers to ask, one after the other, where the user names none: those whose keys
/// are among the environment variables that are set and that have a usual model. The
/// first of those with a key is also asked where a model is named. A local server is not
/// among them: it is for the user to ask for it.
pub fn auto_pick_providers(set: &Vec<String>, model_named: bool) -> (r: Vec<ProviderKind>)
    ensures
        ({
            let keyed = with_keys(considered(), texts_view(set@), considered().len() as int);
            r@ == askable(keyed, model_named, keyed.len() as int)
        }),
{
    let keyed = find_keyed(set);
    let mut r: Vec<ProviderKind> = Vec::new();
    let mut i: usize = 0;
    while i < keyed.len()
        invariant
            i <= keyed@.len(),
            r@ == askable(keyed@, model_named, i as int),
        decreases keyed@.len() - i,
    {
        if keyed[i].has_default_model() || (i == 0 && model_named) {
            r.push(keyed[i]);
        }
        i += 1;
    }
    r
}

/// Why there is no configuration for a provider.
pub open spec fn config_problem(
    kind: ProviderKind,
    model: Option<Seq<char>>,
    listed: Option<Seq<char>>,
    key: Option<Seq<char>>,
) -> Option<Seq<char>> {
    if key_variable(kind) is Some && key is None {
        Some(
            provider_name(kind) + " provider: env var "@ + key_variable(kind)->0 + " not set"@,
        )
    } else if model is None && usual_model(kind, listed) is None {
        Some(provider_name(kind) + " provider: no model named"@)
    } else {
        None
    }
}

/// The configuration of a provider, given the model that was named, if any, the one that
/// was found in the catalogue of Anthropic, if any, and the value of its key's environment
/// variable.
pub fn build_provider_config(
    kind: ProviderKind,
    model: Option<String>,
    listed: Option<String>,
    key: Option<String>,
) -> (r: Result<ProviderConfig, Error>)
    ensures
        match r {
            Ok(c) => {
                &&& config_problem(kind, opt_text(model), opt_text(listed), opt_text(key)) is None
                &&& c.kind == kind
                &&& opt_text(c.api_key) == (if key_variable(kind) is Some {
                    opt_text(key)
                } else {
                    None
                })
                &&& c.model@ == (match model {
                    Some(m) => m@,
                    None => usual_model(kind, opt_text(listed))->0,
                })
                &&& c.base_url is None
            },
            Err(e) => match config_problem(kind, opt_text(model), opt_text(listed), opt_text(key)) {
                Some(p) => e@ == ErrorView::Config(p),
                None => false,
            },
        },
{
    let api_key = match kind.key_env() {
        Some(var) => {
            if key.is_none() {
                let mut reason = kind.name().to_owned();
                reason.append(" provider: env var ");
                reason.append(var);
                reason.append(" not set");
                return Err(Error::Config(reason));
            }
            key
        },
        None => None,
    };
    let model = match model {
        Some(m) => m,
        None => match kind.default_model(listed) {
            Some(m) => m,
            None => {
                let mut reason = kind.name().to_owned();
                reason.append(" provider: no model named");
                return Err(Error::Config(reason));
            },
        },
    };
    Ok(ProviderConfig { kind, api_key, model, base_url: None })
}

} // verus!
