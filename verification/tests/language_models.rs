//! Languages, prompts and providers.

use crisp_docx::llm::error::Error;
use crisp_docx::llm::lang::{map_lang_to_code, Language};
use crisp_docx::llm::models::{list_models, pick_model, Catalogue, ANTHROPIC_VERSION};
use crisp_docx::llm::prompt::{build_translation_prompt, PromptStyle};
use crisp_docx::llm::providers::{
    auto_pick_providers, build_provider_config, ProviderConfig, ProviderKind, WireFormat,
};
use crisp_docx::llm::reply::{
    chat_content, check_status, generated_text, message_text, truncate, ContentBlock,
};
use crisp_docx::llm::translator::{
    prompt_style, Fallback, LlmTranslator, Step, TranslateOptions,
};

#[test]
fn human_names_resolve_to_iso_codes() {
    assert_eq!(map_lang_to_code("English"), "en");
    assert_eq!(map_lang_to_code("German"), "de");
    assert_eq!(map_lang_to_code("Deutsch"), "de");
    assert_eq!(map_lang_to_code("français"), "fr");
    assert_eq!(map_lang_to_code("中文"), "zh");
}

#[test]
fn iso_codes_pass_through() {
    assert_eq!(map_lang_to_code("en"), "en");
    assert_eq!(map_lang_to_code("de"), "de");
    // Uppercase code → lowercase
    assert_eq!(map_lang_to_code("EN"), "en");
}

#[test]
fn unknown_names_fall_through_verbatim() {
    // Codes and names that are not known pass through.
    assert_eq!(map_lang_to_code("eo"), "eo"); // Esperanto code
    assert_eq!(map_lang_to_code("Klingon"), "Klingon");
}

#[test]
fn prompt_uses_alignment_clause_when_requested() {
    let en = Language::parse("English");
    let de = Language::parse("German");
    let p = build_translation_prompt("Hello.", &en, &de, PromptStyle::PreserveOrder);
    assert!(p.contains("Hello."));
    assert!(p.contains("from English to German"));
    assert!(p.contains("Preserve the word order"));
    assert!(!p.contains("natural, fluent"));
}

#[test]
fn prompt_uses_fluency_clause_otherwise() {
    let en = Language::parse("English");
    let de = Language::parse("German");
    let p = build_translation_prompt("Hello.", &en, &de, PromptStyle::Fluent);
    assert!(p.contains("natural, fluent"));
    assert!(!p.contains("Preserve the word order"));
}

#[test]
fn language_parses_iso_code() {
    let l = Language::parse("de");
    assert_eq!(l.code, "de");
    assert_eq!(l.name, "German");
}

#[test]
fn language_parses_human_name() {
    let l = Language::parse("German");
    assert_eq!(l.name, "German");
    assert_eq!(l.code, "de");
}

#[test]
fn language_passes_unknown_through() {
    let l = Language::parse("Klingon");
    assert_eq!(l.name, "Klingon");
    assert_eq!(l.code, "Klingon");
}

#[test]
fn language_handles_native_names() {
    assert_eq!(Language::parse("Deutsch").code, "de");
    assert_eq!(Language::parse("français").code, "fr");
    assert_eq!(Language::parse("中文").code, "zh");
}

#[test]
fn names_are_trimmed_and_caseless() {
    assert_eq!(map_lang_to_code("  GERMAN "), "de");
    assert_eq!(map_lang_to_code(" Klingon "), " Klingon ");
    assert_eq!(map_lang_to_code(""), "");
    assert_eq!(Language::parse("Deutsch").name, "German");
    assert_eq!(Language::parse("EN").name, "English");
    assert_eq!(Language::parse("eo").name, "eo");
}

#[test]
fn the_prompt_word_for_word() {
    let en = Language::parse("en");
    let de = Language::parse("de");
    assert_eq!(
        build_translation_prompt("Hi.", &en, &de, prompt_style(false)),
        "Translate the following text from English to German. Write natural, fluent prose. \
         Return only the translation, without notes or quotation marks.\n\nHi."
    );
    assert_eq!(prompt_style(true), PromptStyle::PreserveOrder);
}

fn config(kind: ProviderKind, key: Option<&str>) -> ProviderConfig {
    ProviderConfig {
        kind,
        api_key: key.map(|k| k.to_string()),
        model: "m".to_string(),
        base_url: None,
    }
}

#[test]
fn provider_names_returns_chain_in_order() {
    let t = LlmTranslator::new()
        .add_provider(config(ProviderKind::Anthropic, Some("k")))
        .unwrap()
        .add_provider(config(ProviderKind::OpenAi, Some("k")))
        .unwrap()
        .add_provider(config(ProviderKind::Ollama, None))
        .unwrap();
    assert_eq!(t.provider_names(), vec!["anthropic", "openai", "ollama"]);
    assert_eq!(t.provider_count(), 3);
    let p = t.providers();
    assert_eq!(p[0].translate_url(), "https://api.anthropic.com/v1/messages");
    assert_eq!(p[1].translate_url(), "https://api.openai.com/v1/chat/completions");
    assert_eq!(p[2].translate_url(), "http://localhost:11434/api/generate");
    assert_eq!(p[1].models_url(), "https://api.openai.com/v1/models");
    assert_eq!(p[2].models_url(), "http://localhost:11434/api/tags");
    assert_eq!(p[0].catalogue(), Catalogue::Anthropic);
    assert_eq!(p[0].kind.wire(), WireFormat::Messages);
}

#[test]
fn every_provider_but_a_local_server_needs_a_key() {
    let e = LlmTranslator::new().add_provider(config(ProviderKind::Groq, None)).unwrap_err();
    assert_eq!(e.message(), "invalid provider config: groq requires api_key");
    assert!(config(ProviderKind::Ollama, None).into_provider().is_ok());
    let own = ProviderConfig { base_url: Some("http://h".to_string()), ..config(ProviderKind::Poe, Some("k")) };
    assert_eq!(own.into_provider().unwrap().base_url, "http://h");
}

#[test]
fn options_default_and_change() {
    let t = LlmTranslator::new();
    assert_eq!(t.options().temperature, 300);
    assert_eq!(TranslateOptions::default().max_tokens, 4000);
    let t = t.with_options(TranslateOptions { temperature: 0, max_tokens: 7 });
    assert_eq!(t.options().max_tokens, 7);
}

#[test]
fn empty_translator_errors_no_providers() {
    let t = LlmTranslator::new();
    assert!(matches!(Fallback::new(t.provider_count()).next(), Step::Failed(Error::NoProviders)));
}

#[test]
fn falls_back_to_next_provider_on_5xx() {
    let f = Fallback::new(2);
    assert!(matches!(f.next(), Step::Ask(0)));
    let (f, t) = f.answer(check_status("openai", 500, "upstream error".to_string()));
    assert!(t.is_none());
    assert!(matches!(f.next(), Step::Ask(1)));
    let (_, t) = f.answer(chat_content("openai", &vec![Some("Hallo.".to_string())]));
    assert_eq!(t.as_deref(), Some("Hallo."));
}

#[test]
fn all_providers_failing_returns_combined_error() {
    let f = Fallback::new(1);
    let (f, _) = f.answer(check_status("openai", 503, String::new()));
    assert!(matches!(f.next(), Step::Failed(Error::AllProvidersFailed { .. })));
}

#[test]
fn malformed_response_surfaces_bad_response_error() {
    let f = Fallback::new(1);
    let (f, _) = f.answer(chat_content("openai", &vec![]));
    match f.next() {
        Step::Failed(Error::AllProvidersFailed { last }) => {
            assert_eq!(
                last,
                "openai returned a malformed response: missing choices[0].message.content"
            );
        }
        other => panic!("unexpected: {other:?}"),
    }
}

#[test]
fn errors_in_words() {
    assert_eq!(
        Error::Api { provider: "poe", status: 503, body: "b".to_string() }.message(),
        "poe returned HTTP 503: b"
    );
    assert_eq!(
        Error::NoProviders.message(),
        "no providers configured \u{2014} call add_provider() first"
    );
    assert_eq!(Error::Io("x".to_string()).message(), "I/O error: x");
    assert_eq!(Error::Json("x".to_string()).message(), "JSON error: x");
}

#[test]
fn a_status_other_than_success_is_an_error() {
    assert_eq!(check_status("x", 200, "ok".to_string()).unwrap(), "ok");
    assert_eq!(check_status("x", 299, "ok".to_string()).unwrap(), "ok");
    match check_status("x", 500, "a".repeat(401)) {
        Err(Error::Api { status, body, .. }) => {
            assert_eq!(status, 500);
            assert_eq!(body, format!("{}\u{2026}", "a".repeat(400)));
        }
        other => panic!("unexpected: {other:?}"),
    }
    assert!(check_status("x", 300, String::new()).is_err());
}

#[test]
fn truncation_keeps_whole_characters() {
    assert_eq!(truncate("\u{e9}\u{e9}".to_string(), 3), "\u{e9}\u{2026}");
    assert_eq!(truncate("\u{e9}\u{e9}".to_string(), 4), "\u{e9}\u{e9}");
    assert_eq!(truncate("\u{1F600}".to_string(), 3), "\u{2026}");
}

#[test]
fn the_first_choice_is_the_translation() {
    assert_eq!(chat_content("x", &vec![Some(" Hallo.\n".to_string()), None]).unwrap(), "Hallo.");
    let e = chat_content("x", &vec![]).unwrap_err();
    assert_eq!(
        e.message(),
        "x returned a malformed response: missing choices[0].message.content"
    );
    assert!(chat_content("x", &vec![None, Some("a".to_string())]).is_err());
}

#[test]
fn the_first_block_of_text_is_the_translation() {
    let block = |t: &str, s: Option<&str>| ContentBlock {
        block_type: t.to_string(),
        text: s.map(|s| s.to_string()),
    };
    assert_eq!(
        message_text("a", &vec![block("tool", None), block("text", Some(" Hallo. "))]).unwrap(),
        "Hallo."
    );
    let e = message_text("a", &vec![block("text", None), block("text", Some("x"))]).unwrap_err();
    assert!(matches!(e, Error::BadResponse { provider: "a", .. }));
    assert_eq!(generated_text(" x "), "x");
}

#[test]
fn list_models_openai_extracts_ids() {
    let m = list_models(
        Catalogue::OpenAi,
        "openai",
        r#"{"data": [{"id": "gpt-4o", "context_window": 128000}, {"id": "gpt-4o-mini"}, {"id": ""}]}"#,
    )
    .unwrap();
    assert_eq!(m.len(), 2);
    assert_eq!(m[0].id, "gpt-4o");
    assert_eq!(m[0].capabilities, "ctx: 128000");
    assert_eq!(m[1].id, "gpt-4o-mini");
    assert_eq!(m[1].capabilities, "Available");
}

#[test]
fn list_models_anthropic_extracts_display_names() {
    let m = list_models(
        Catalogue::Anthropic,
        "anthropic",
        r#"{"data": [{"id": "3-5-sonnet-20241022", "display_name": "3.5 Sonnet"}]}"#,
    )
    .unwrap();
    assert_eq!(m.len(), 1);
    assert_eq!(m[0].id, "3-5-sonnet-20241022");
    assert_eq!(m[0].capabilities, "Display: 3.5 Sonnet");
}

#[test]
fn models_without_a_display_name_are_available() {
    let m = list_models(Catalogue::Anthropic, "anthropic", r#"{"data": [{"id": "x"}]}"#).unwrap();
    assert_eq!(m[0].capabilities, "Available");
}

#[test]
fn the_model_of_a_version_is_picked() {
    let list = |body: &str| list_models(Catalogue::Anthropic, "anthropic", body).unwrap();
    let m = list(r#"{"data": [{"id": "a-4-opus"}, {"id": "a-3-5-sonnet-20241022"}, {"id": "b-3-5-sonnet-20241022"}]}"#);
    assert_eq!(pick_model(&m, ANTHROPIC_VERSION).as_deref(), Some("a-3-5-sonnet-20241022"));
    let m = list(r#"{"data": [{"id": "a-4-opus"}, {"id": "a-3-5-sonnet-20241022-beta"}]}"#);
    assert_eq!(pick_model(&m, ANTHROPIC_VERSION), None);
    assert_eq!(pick_model(&m, "opus").as_deref(), Some("a-4-opus"));
}

#[test]
fn list_models_ollama_extracts_param_sizes() {
    let m = list_models(
        Catalogue::Ollama,
        "ollama",
        r#"{"models": [{"name": "llama3.2:3b", "details": {"parameter_size": "3B"}}, {"name": "qwen2.5:7b"}]}"#,
    )
    .unwrap();
    assert_eq!(m.len(), 2);
    assert_eq!(m[0].id, "llama3.2:3b");
    assert_eq!(m[0].capabilities, "3B params");
    assert_eq!(m[1].id, "qwen2.5:7b");
    assert_eq!(m[1].capabilities, "? params");
}

#[test]
fn catalogues_of_another_form_are_errors() {
    let e = list_models(Catalogue::OpenAi, "x", "{}").unwrap_err();
    assert_eq!(e.message(), "x returned a malformed response: expected `data` array");
    let e = list_models(Catalogue::Ollama, "x", r#"{"models": 3}"#).unwrap_err();
    assert_eq!(e.message(), "x returned a malformed response: expected `models` array");
    assert!(matches!(list_models(Catalogue::OpenAi, "x", "{"), Err(Error::Json(_))));
}

#[test]
fn providers_are_picked_by_their_keys() {
    let set = vec!["GROQ_API_KEY".to_string(), "OPENAI_API_KEY".to_string(), "HOME".to_string()];
    assert_eq!(auto_pick_providers(&set, false), vec![ProviderKind::OpenAi, ProviderKind::Groq]);
    assert!(auto_pick_providers(&vec![], true).is_empty());
    let set = vec!["GROQ_API_KEY".to_string(), "ANTHROPIC_API_KEY".to_string()];
    assert_eq!(
        auto_pick_providers(&set, true),
        vec![ProviderKind::Anthropic, ProviderKind::Groq]
    );
    let set = vec!["POE_API_KEY".to_string()];
    assert_eq!(auto_pick_providers(&set, true), vec![ProviderKind::Poe]);
    assert!(auto_pick_providers(&set, false).is_empty());
}

#[test]
fn anthropic_needs_no_named_model_to_be_picked() {
    let set = vec!["ANTHROPIC_API_KEY".to_string(), "MISTRAL_API_KEY".to_string()];
    assert_eq!(auto_pick_providers(&set, false), vec![ProviderKind::Anthropic]);
    let set = vec![
        "GROQ_API_KEY".to_string(),
        "ANTHROPIC_API_KEY".to_string(),
        "OPENAI_API_KEY".to_string(),
    ];
    assert_eq!(
        auto_pick_providers(&set, false),
        vec![ProviderKind::OpenAi, ProviderKind::Anthropic, ProviderKind::Groq]
    );
}

#[test]
fn the_usual_models() {
    let listed = || Some("a-3-5-sonnet-20241022".to_string());
    assert_eq!(ProviderKind::OpenAi.default_model(None).as_deref(), Some("gpt-4o-mini"));
    assert_eq!(ProviderKind::OpenAi.default_model(listed()).as_deref(), Some("gpt-4o-mini"));
    assert_eq!(
        ProviderKind::Anthropic.default_model(listed()).as_deref(),
        Some("a-3-5-sonnet-20241022")
    );
    assert_eq!(ProviderKind::Anthropic.default_model(None), None);
    assert_eq!(ProviderKind::Poe.default_model(listed()), None);
    assert!(ProviderKind::Anthropic.has_default_model());
    assert!(!ProviderKind::Poe.has_default_model());
}

#[test]
fn configurations_have_the_usual_models() {
    let key = || Some("k".to_string());
    let c = build_provider_config(ProviderKind::OpenAi, None, None, key()).unwrap();
    assert_eq!(c.model, "gpt-4o-mini");
    assert_eq!(c.api_key.as_deref(), Some("k"));
    let m = Some("m".to_string());
    let c = build_provider_config(ProviderKind::Ollama, m, None, key()).unwrap();
    assert_eq!(c.model, "m");
    assert!(c.api_key.is_none());
    let listed = Some("a-3-5-sonnet-20241022".to_string());
    let c = build_provider_config(ProviderKind::Anthropic, None, listed, key()).unwrap();
    assert_eq!(c.model, "a-3-5-sonnet-20241022");
    let e = build_provider_config(ProviderKind::Groq, None, None, None).unwrap_err();
    assert_eq!(e.message(), "invalid provider config: groq provider: env var GROQ_API_KEY not set");
    let e = build_provider_config(ProviderKind::Poe, None, None, key()).unwrap_err();
    assert_eq!(e.message(), "invalid provider config: poe provider: no model named");
}

#[test]
fn blank_languages_come_back_as_they_are() {
    assert_eq!(map_lang_to_code("   "), "   ");
    assert_eq!(map_lang_to_code("\t"), "\t");
    assert_eq!(Language::parse("   ").code, "   ");
}

#[test]
fn the_code_of_a_code_is_that_code() {
    for name in ["English", " GERMAN ", "EN", "eo", "Klingon", " Klingon ", "", "  ", "中文"] {
        let code = map_lang_to_code(name);
        assert_eq!(map_lang_to_code(&code), code);
    }
}
