//! What holds of prompts, replies, providers and catalogues.

use vstd::prelude::*;
use vstd::utf8::{char_is_scalar, encode_utf8};

use crate::llm::json::JsonView;
use crate::llm::models::{listed_models, model_capabilities, model_id, Catalogue, ModelView};
use crate::llm::prompt::{style_clause, translation_prompt, PromptStyle};
use crate::llm::providers::{
    askable, config_problem, considered, default_base, has_usual_model, key_variable, models_path,
    provider_name, resolved, translate_path, wire_format, with_keys, ProviderConfig, ProviderKind,
    WireFormat,
};
use crate::llm::reply::{
    block_text, byte_count, byte_len, fitting, is_success, text_block, truncated, ContentBlock,
};
use crate::style_mapper::opt_text;

verus! {

// ---------------------------------------------------------------------------
// Prompts
// ---------------------------------------------------------------------------

/// A prompt names the two languages, the source first, asks for the style, and ends in the
/// text.
pub proof fn law_prompts_hold_what_they_ask_for(
    text: Seq<char>,
    src: Seq<char>,
    tgt: Seq<char>,
    style: PromptStyle,
)
    ensures
        exists|a: Seq<char>, b: Seq<char>, c: Seq<char>|
            #![trigger prompt_of(a, src, tgt, b, style, c, text)]
            translation_prompt(text, src, tgt, style) == prompt_of(
                a,
                src,
                tgt,
                b,
                style,
                c,
                text,
            ),
        style_clause(PromptStyle::Fluent) != style_clause(PromptStyle::PreserveOrder),
        "Preserve the word order"@.is_prefix_of(style_clause(PromptStyle::PreserveOrder)),
        "Write natural, fluent"@.is_prefix_of(style_clause(PromptStyle::Fluent)),
{
    let a = "Translate the following text"@;
    let b = ". "@;
    let c = " Return only the translation, without notes or quotation marks.\n\n"@;
    reveal_strlit("Translate the following text from ");
    reveal_strlit("Translate the following text");
    reveal_strlit(" from ");
    assert("Translate the following text from "@ =~= a + " from "@);
    assert(translation_prompt(text, src, tgt, style) =~= prompt_of(a, src, tgt, b, style, c, text));
    reveal_strlit("Preserve the word order");
    reveal_strlit("Write natural, fluent");
    reveal_strlit("Write natural, fluent prose.");
    reveal_strlit(
        "Preserve the word order of the source as far as the target language allows, so that the words can be aligned.",
    );
    let p = style_clause(PromptStyle::PreserveOrder);
    let f = style_clause(PromptStyle::Fluent);
    assert(p[0] != f[0]);
    assert("Preserve the word order"@ =~= p.take(23));
    assert("Write natural, fluent"@ =~= f.take(21));
}

/// A prompt: the languages, the style and the text, and what stands between them.
pub open spec fn prompt_of(
    a: Seq<char>,
    src: Seq<char>,
    tgt: Seq<char>,
    b: Seq<char>,
    style: PromptStyle,
    c: Seq<char>,
    text: Seq<char>,
) -> Seq<char> {
    a + " from "@ + src + " to "@ + tgt + b + style_clause(style) + c + text
}

// ---------------------------------------------------------------------------
// Replies
// ---------------------------------------------------------------------------

/// The statuses of success are those of two hundred and some.
pub proof fn law_success(status: u16)
    ensures
        is_success(status) <==> status as int / 100 == 2,
{
}

proof fn lemma_one_char(c: char)
    ensures
        encode_utf8(seq![c]).len() == byte_len(c),
{
    char_is_scalar(c);
    reveal_with_fuel(encode_utf8, 2);
    assert(seq![c].drop_first() =~= Seq::empty());
}

proof fn lemma_utf8_concat(a: Seq<char>, b: Seq<char>)
    ensures
        encode_utf8(a + b) == encode_utf8(a) + encode_utf8(b),
    decreases a.len(),
{
    if a.len() == 0 {
        assert(a + b =~= b);
        assert(encode_utf8(a) + encode_utf8(b) =~= encode_utf8(b));
    } else {
        lemma_utf8_concat(a.drop_first(), b);
        assert((a + b).drop_first() =~= a.drop_first() + b);
        assert((a + b)[0] == a[0]);
        assert(encode_utf8(a + b) =~= encode_utf8(a) + encode_utf8(b));
    }
}

proof fn lemma_bytes(s: Seq<char>, k: int)
    requires
        0 <= k <= s.len(),
    ensures
        byte_count(s, k) == encode_utf8(s.take(k)).len(),
    decreases k,
{
    if k > 0 {
        lemma_bytes(s, k - 1);
        lemma_one_char(s[k - 1]);
        lemma_utf8_concat(s.take(k - 1), seq![s[k - 1]]);
        assert(s.take(k) =~= s.take(k - 1) + seq![s[k - 1]]);
    } else {
        assert(s.take(0) =~= Seq::empty());
    }
}

proof fn lemma_fits(s: Seq<char>, n: int, k: int)
    requires
        0 <= n,
        0 <= k <= s.len(),
    ensures
        0 <= fitting(s, n, k) <= k,
        byte_count(s, fitting(s, n, k)) <= n,
        fitting(s, n, k) < k ==> byte_count(s, fitting(s, n, k) + 1) > n,
    decreases k,
{
    if k > 0 && byte_count(s, k) > n {
        lemma_fits(s, n, k - 1);
    }
}

/// A text that fits is not shortened; of another as many characters are kept as fit, and an
/// ellipsis follows.
pub proof fn law_texts_are_cut_to_fit(s: Seq<char>, n: int)
    requires
        0 <= n,
    ensures
        encode_utf8(s).len() <= n ==> truncated(s, n) == s,
        encode_utf8(s).len() > n ==> exists|k: int|
            #![trigger s.take(k)]
            {
                &&& 0 <= k < s.len()
                &&& truncated(s, n) == s.take(k).push('…')
                &&& encode_utf8(s.take(k)).len() <= n
                &&& encode_utf8(s.take(k + 1)).len() > n
            },
{
    let all = s.len() as int;
    lemma_bytes(s, all);
    assert(s.take(all) =~= s);
    if encode_utf8(s).len() > n {
        lemma_fits(s, n, all);
        let k = fitting(s, n, all);
        lemma_bytes(s, k);
        lemma_bytes(s, k + 1);
        assert(truncated(s, n) == s.take(k).push('…'));
    }
}

/// The text of a message is that of its first block of text.
pub proof fn law_first_text_block_counts(blocks: Seq<ContentBlock>, i: int)
    requires
        0 <= i < blocks.len(),
        blocks[i].block_type@ == "text"@,
        forall|j: int| 0 <= j < i ==> (#[trigger] blocks[j]).block_type@ != "text"@,
    ensures
        block_text(blocks) == opt_text(blocks[i].text),
{
    lemma_text_block(blocks, 0, i);
}

proof fn lemma_text_block(blocks: Seq<ContentBlock>, from: int, i: int)
    requires
        0 <= from <= i < blocks.len(),
        blocks[i].block_type@ == "text"@,
        forall|j: int| from <= j < i ==> (#[trigger] blocks[j]).block_type@ != "text"@,
    ensures
        text_block(blocks, from) == Some(i),
    decreases i - from,
{
    if from < i {
        assert(blocks[from].block_type@ != "text"@);
        lemma_text_block(blocks, from + 1, i);
    }
}

/// A message without blocks of text has no text.
pub proof fn law_no_text_block(blocks: Seq<ContentBlock>, from: int)
    requires
        0 <= from,
        forall|j: int| from <= j < blocks.len() ==> (#[trigger] blocks[j]).block_type@ != "text"@,
    ensures
        text_block(blocks, from) is None,
        from == 0 ==> block_text(blocks) is None,
    decreases blocks.len() - from,
{
    if from < blocks.len() {
        assert(blocks[from].block_type@ != "text"@);
        law_no_text_block(blocks, from + 1);
    }
}

// ---------------------------------------------------------------------------
// Providers
// ---------------------------------------------------------------------------

/// A letter of the alphabet in upper case.
pub open spec fn upper(c: char) -> char {
    if 'a' <= c && c <= 'z' {
        (c as u8 - 32) as char
    } else {
        c
    }
}

proof fn lemma_key_name(kind: ProviderKind)
    requires
        kind != ProviderKind::Ollama,
        kind != ProviderKind::Google,
    ensures
        key_variable(kind) == Some(
            provider_name(kind).map_values(|c: char| upper(c)) + "_API_KEY"@,
        ),
{
    let name = provider_name(kind).map_values(|c: char| upper(c));
    reveal_strlit("_API_KEY");
    reveal_strlit("openai");
    reveal_strlit("anthropic");
    reveal_strlit("groq");
    reveal_strlit("openrouter");
    reveal_strlit("together");
    reveal_strlit("cerebras");
    reveal_strlit("mistral");
    reveal_strlit("nebius");
    reveal_strlit("scaleway");
    reveal_strlit("poe");
    reveal_strlit("OPENAI_API_KEY");
    reveal_strlit("ANTHROPIC_API_KEY");
    reveal_strlit("GROQ_API_KEY");
    reveal_strlit("OPENROUTER_API_KEY");
    reveal_strlit("TOGETHER_API_KEY");
    reveal_strlit("CEREBRAS_API_KEY");
    reveal_strlit("MISTRAL_API_KEY");
    reveal_strlit("NEBIUS_API_KEY");
    reveal_strlit("SCALEWAY_API_KEY");
    reveal_strlit("POE_API_KEY");
    assert(key_variable(kind)->0 =~= name + "_API_KEY"@);
}

/// The variable with a provider's key is its name in upper case, and `_API_KEY`. A local server
/// needs none; Google's is another.
pub proof fn law_key_variables(kind: ProviderKind)
    ensures
        kind == ProviderKind::Ollama <==> key_variable(kind) is None,
        kind == ProviderKind::Google ==> key_variable(kind) == Some("GOOGLEAI_API_KEY"@),
        kind != ProviderKind::Ollama && kind != ProviderKind::Google ==> key_variable(kind) == Some(
            provider_name(kind).map_values(|c: char| upper(c)) + "_API_KEY"@,
        ),
{
    if kind != ProviderKind::Ollama && kind != ProviderKind::Google {
        lemma_key_name(kind);
    }
}

/// What each form of requests is asked for, and where.
pub proof fn law_forms_have_their_paths(kind: ProviderKind)
    ensures
        wire_format(kind) is Messages <==> kind == ProviderKind::Anthropic,
        wire_format(kind) is Generate <==> kind == ProviderKind::Ollama,
        translate_path(WireFormat::ChatCompletions) == "/chat/completions"@,
        translate_path(WireFormat::Messages) == "/messages"@,
        translate_path(WireFormat::Generate) == "/generate"@,
        models_path(WireFormat::Generate) == "/tags"@,
        models_path(WireFormat::Messages) == "/models"@,
        models_path(WireFormat::ChatCompletions) == "/models"@,
{
}

proof fn lemma_with_keys(kinds: Seq<ProviderKind>, set: Seq<Seq<char>>, k: int, kind: ProviderKind)
    requires
        0 <= k <= kinds.len(),
    ensures
        with_keys(kinds, set, k).contains(kind) <==> kinds.take(k).contains(kind) && key_variable(
            kind,
        ) is Some && set.contains(key_variable(kind)->0),
    decreases k,
{
    let all = with_keys(kinds, set, k);
    if k > 0 {
        lemma_with_keys(kinds, set, k - 1, kind);
        let before = with_keys(kinds, set, k - 1);
        let last = kinds[k - 1];
        let t = kinds.take(k);
        assert(t =~= kinds.take(k - 1).push(last));
        if before.contains(kind) {
            let p = choose|p: int| 0 <= p < before.len() && before[p] == kind;
            assert(all[p] == kind);
        }
        if kinds.take(k - 1).contains(kind) {
            let u = kinds.take(k - 1);
            let p = choose|p: int| 0 <= p < u.len() && u[p] == kind;
            assert(t[p] == kind);
        }
        if t.contains(kind) && !kinds.take(k - 1).contains(kind) {
            let p = choose|p: int| 0 <= p < t.len() && t[p] == kind;
            if p < k - 1 {
                assert(kinds.take(k - 1)[p] == kind);
            }
            assert(last == kind);
        }
        assert(t[k - 1] == last);
        if all.len() > before.len() {
            assert(all[before.len() as int] == last);
        }
        if all.contains(kind) && !before.contains(kind) {
            let p = choose|p: int| 0 <= p < all.len() && all[p] == kind;
            if p < before.len() {
                assert(before[p] == kind);
            }
        }
    } else {
        assert(kinds.take(0) =~= Seq::empty());
    }
}

proof fn lemma_askable(kinds: Seq<ProviderKind>, model_named: bool, k: int, kind: ProviderKind)
    requires
        0 <= k <= kinds.len(),
    ensures
        askable(kinds, model_named, k).contains(kind) ==> kinds.contains(kind) && (has_usual_model(
            kind,
        ) || (model_named && kinds[0] == kind)),
        kinds.take(k).contains(kind) && has_usual_model(kind) ==> askable(
            kinds,
            model_named,
            k,
        ).contains(kind),
        model_named && k > 0 ==> askable(kinds, model_named, k).len() > 0 && askable(
            kinds,
            model_named,
            k,
        )[0] == kinds[0],
    decreases k,
{
    let all = askable(kinds, model_named, k);
    if k > 0 {
        lemma_askable(kinds, model_named, k - 1, kind);
        let before = askable(kinds, model_named, k - 1);
        let last = kinds[k - 1];
        let t = kinds.take(k);
        if all.len() > before.len() {
            assert(all[before.len() as int] == last);
        }
        if before.contains(kind) {
            let p = choose|p: int| 0 <= p < before.len() && before[p] == kind;
            assert(all[p] == kind);
        }
        if t.contains(kind) && has_usual_model(kind) {
            let p = choose|p: int| 0 <= p < t.len() && t[p] == kind;
            if p < k - 1 {
                assert(kinds.take(k - 1)[p] == kind);
            }
        }
        if all.contains(kind) {
            let p = choose|p: int| 0 <= p < all.len() && all[p] == kind;
            if p < before.len() {
                assert(before[p] == kind);
            }
        }
    } else {
        assert(kinds.take(0) =~= Seq::empty());
    }
}

/// The providers that are picked: each has its key set; one that can be asked without a model
/// is picked wherever its key is set; and a local server is never picked.
pub proof fn law_providers_are_picked_by_their_keys(
    set: Seq<Seq<char>>,
    model_named: bool,
    kind: ProviderKind,
)
    ensures
        ({
            let keyed = with_keys(considered(), set, considered().len() as int);
            let picked = askable(keyed, model_named, keyed.len() as int);
            &&& picked.contains(kind) ==> key_variable(kind) is Some && set.contains(
                key_variable(kind)->0,
            )
            &&& kind != ProviderKind::Ollama && set.contains(key_variable(kind)->0)
                && has_usual_model(kind) ==> picked.contains(kind)
            &&& !picked.contains(ProviderKind::Ollama)
            &&& !model_named && picked.contains(kind) ==> kind == ProviderKind::OpenAi || kind
                == ProviderKind::Anthropic || kind == ProviderKind::Groq
        }),
{
    let all = considered();
    let n = all.len() as int;
    let keyed = with_keys(all, set, n);
    assert(all.take(n) =~= all);
    assert(keyed.take(keyed.len() as int) =~= keyed);
    lemma_with_keys(all, set, n, kind);
    lemma_askable(keyed, model_named, keyed.len() as int, kind);
    lemma_with_keys(all, set, n, ProviderKind::Ollama);
    lemma_askable(keyed, model_named, keyed.len() as int, ProviderKind::Ollama);
    if kind != ProviderKind::Ollama {
        assert(n == 11);
        assert(all[0] == kind || all[1] == kind || all[2] == kind || all[3] == kind || all[4]
            == kind || all[5] == kind || all[6] == kind || all[7] == kind || all[8] == kind
            || all[9] == kind || all[10] == kind);
        assert(all.contains(kind));
    }
}

/// No two providers have the same name.
pub proof fn law_names_tell_providers_apart(a: ProviderKind, b: ProviderKind)
    ensures
        provider_name(a) == provider_name(b) <==> a == b,
{
    reveal_strlit("openai");
    reveal_strlit("anthropic");
    reveal_strlit("groq");
    reveal_strlit("openrouter");
    reveal_strlit("together");
    reveal_strlit("cerebras");
    reveal_strlit("mistral");
    reveal_strlit("nebius");
    reveal_strlit("scaleway");
    reveal_strlit("poe");
    reveal_strlit("google");
    reveal_strlit("ollama");
    let x = provider_name(a);
    let y = provider_name(b);
    assert(x[0] != y[0] || x[1] != y[1] || x.len() != y.len() || a == b);
}

/// The own address of a provider names it, and is reached safely; only a local server's is
/// another.
pub proof fn law_addresses_name_their_providers(kind: ProviderKind)
    requires
        kind != ProviderKind::Ollama,
    ensures
        "https://"@.is_prefix_of(default_base(kind)),
        exists|i: int|
            0 <= i && i + provider_name(kind).len() <= default_base(kind).len()
                && #[trigger] default_base(kind).subrange(i, i + provider_name(kind).len())
                == provider_name(kind),
{
    let name = provider_name(kind);
    let base = default_base(kind);
    let n = name.len() as int;
    reveal_strlit("https://");
    match kind {
        ProviderKind::OpenAi => {
            reveal_strlit("openai");
            reveal_strlit("https://api.openai.com/v1");
            assert(base.subrange(12, 12 + n) =~= name);
        },
        ProviderKind::Anthropic => {
            reveal_strlit("anthropic");
            reveal_strlit("https://api.anthropic.com/v1");
            assert(base.subrange(12, 12 + n) =~= name);
        },
        ProviderKind::Groq => {
            reveal_strlit("groq");
            reveal_strlit("https://api.groq.com/openai/v1");
            assert(base.subrange(12, 12 + n) =~= name);
        },
        ProviderKind::OpenRouter => {
            reveal_strlit("openrouter");
            reveal_strlit("https://openrouter.ai/api/v1");
            assert(base.subrange(8, 8 + n) =~= name);
        },
        ProviderKind::Together => {
            reveal_strlit("together");
            reveal_strlit("https://api.together.xyz/v1");
            assert(base.subrange(12, 12 + n) =~= name);
        },
        ProviderKind::Cerebras => {
            reveal_strlit("cerebras");
            reveal_strlit("https://api.cerebras.ai/v1");
            assert(base.subrange(12, 12 + n) =~= name);
        },
        ProviderKind::Mistral => {
            reveal_strlit("mistral");
            reveal_strlit("https://api.mistral.ai/v1");
            assert(base.subrange(12, 12 + n) =~= name);
        },
        ProviderKind::Nebius => {
            reveal_strlit("nebius");
            reveal_strlit("https://api.studio.nebius.ai/v1");
            assert(base.subrange(19, 19 + n) =~= name);
        },
        ProviderKind::Scaleway => {
            reveal_strlit("scaleway");
            reveal_strlit("https://api.scaleway.ai/v1");
            assert(base.subrange(12, 12 + n) =~= name);
        },
        ProviderKind::Poe => {
            reveal_strlit("poe");
            reveal_strlit("https://api.poe.com/v1");
            assert(base.subrange(12, 12 + n) =~= name);
        },
        ProviderKind::Google => {
            reveal_strlit("google");
            reveal_strlit("https://generativelanguage.googleapis.com/v1beta/openai");
            assert(base.subrange(27, 27 + n) =~= name);
        },
        ProviderKind::Ollama => {},
    }
    assert("https://"@ =~= base.take(8));
}

/// A configuration without a key is refused for every provider but a local server, which is
/// given none; an address that is given counts, and the model is the one that is named.
pub proof fn law_configurations_come_to_settings(cfg: ProviderConfig)
    ensures
        resolved(cfg) is Err <==> cfg.api_key is None && cfg.kind != ProviderKind::Ollama,
        resolved(cfg) matches Ok(s) ==> {
            &&& s.kind == cfg.kind
            &&& s.model == cfg.model@
            &&& s.api_key is None <==> cfg.kind == ProviderKind::Ollama
            &&& s.api_key matches Some(key) ==> cfg.api_key is Some && cfg.api_key->0@ == key
            &&& cfg.base_url matches Some(url) ==> s.base_url == url@
            &&& cfg.base_url is None && cfg.kind == ProviderKind::Ollama ==> s.base_url
                == "http://localhost:11434/api"@
            &&& cfg.base_url is None ==> s.base_url == default_base(cfg.kind)
        },
{
}

/// A provider can be configured where its key is set, or none is needed, and a model is named or
/// it has a usual one; Anthropic's has to be listed.
pub proof fn law_providers_can_be_configured(
    kind: ProviderKind,
    model: Option<Seq<char>>,
    listed: Option<Seq<char>>,
    key: Option<Seq<char>>,
)
    ensures
        config_problem(kind, model, listed, key) is None <==> {
            &&& key is Some || kind == ProviderKind::Ollama
            &&& model is Some || if kind == ProviderKind::Anthropic {
                listed is Some
            } else {
                has_usual_model(kind)
            }
        },
{
}

/// Providers are picked in the order in which they are considered.
pub proof fn law_providers_are_picked_in_order(
    kinds: Seq<ProviderKind>,
    set: Seq<Seq<char>>,
    model_named: bool,
    j: int,
    k: int,
)
    requires
        0 <= j <= k <= kinds.len(),
    ensures
        with_keys(kinds, set, j).is_prefix_of(with_keys(kinds, set, k)),
        askable(kinds, model_named, j).is_prefix_of(askable(kinds, model_named, k)),
    decreases k - j,
{
    let a = with_keys(kinds, set, k);
    let b = askable(kinds, model_named, k);
    if j == k {
        assert(a.take(a.len() as int) =~= a);
        assert(b.take(b.len() as int) =~= b);
    } else {
        law_providers_are_picked_in_order(kinds, set, model_named, j, k - 1);
        let c = with_keys(kinds, set, j);
        let d = askable(kinds, model_named, j);
        assert(a.take(c.len() as int) =~= with_keys(kinds, set, k - 1).take(c.len() as int));
        assert(b.take(d.len() as int) =~= askable(kinds, model_named, k - 1).take(
            d.len() as int,
        ));
    }
}

// ---------------------------------------------------------------------------
// Catalogues
// ---------------------------------------------------------------------------

/// Every entry of a catalogue that has a name is listed, with what it says, and none other.
pub proof fn law_named_models_are_listed(c: Catalogue, entries: Seq<JsonView>, k: int, m: ModelView)
    requires
        0 <= k <= entries.len(),
    ensures
        listed_models(c, entries, k).contains(m) <==> exists|i: int|
            0 <= i < k && m.id.len() > 0 && m.id == model_id(c, #[trigger] entries[i])
                && m.capabilities == model_capabilities(c, entries[i]),
    decreases k,
{
    let all = listed_models(c, entries, k);
    if k > 0 {
        law_named_models_are_listed(c, entries, k - 1, m);
        let before = listed_models(c, entries, k - 1);
        if all.len() > before.len() {
            assert(all[before.len() as int].id == model_id(c, entries[k - 1]));
        }
        if before.contains(m) {
            let p = choose|p: int| 0 <= p < before.len() && before[p] == m;
            assert(all[p] == m);
        }
        if all.contains(m) && !before.contains(m) {
            let p = choose|p: int| 0 <= p < all.len() && all[p] == m;
            if p < before.len() {
                assert(before[p] == m);
            }
            assert(m.id == model_id(c, entries[k - 1]));
        }
        if m.id.len() > 0 && m.id == model_id(c, entries[k - 1]) && m.capabilities
            == model_capabilities(c, entries[k - 1]) {
            assert(all[before.len() as int] == m);
        }
    }
}

} // verus!
