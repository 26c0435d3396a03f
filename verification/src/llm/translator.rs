//! The chain of providers.
//!
//! Providers are asked in order; the first that answers wins. Where one fails the next is
//! asked, and where all have failed the last error is what is told.

use vstd::prelude::*;

use crate::llm::error::{error_words, Error, ErrorView};
use crate::llm::prompt::PromptStyle;
use crate::llm::providers::{
    provider_name, resolved, ProviderConfig, ProviderSettings, SettingsView,
};
use crate::style_mapper::opt_text;

verus! {

/// What a provider is asked for.
#[derive(Debug, Clone, Copy)]
pub struct TranslateOptions {
    /// The sampling temperature, in thousandths.
    pub temperature: u32,
    /// How many tokens the answer may have.
    pub max_tokens: u32,
}

impl Default for TranslateOptions {
    fn default() -> (r: Self)
        ensures
            r.temperature == 300,
            r.max_tokens == 4000,
    {
        TranslateOptions { temperature: 300, max_tokens: 4000 }
    }
}

/// A chain of providers.
#[derive(Debug)]
pub struct LlmTranslator {
    providers: Vec<ProviderSettings>,
    options: TranslateOptions,
}

/// The providers of a vector.
pub open spec fn settings_view(v: Seq<ProviderSettings>) -> Seq<SettingsView> {
    v.map_values(|s: ProviderSettings| s@)
}

/// The names of providers.
pub open spec fn names_of(chain: Seq<SettingsView>) -> Seq<Seq<char>> {
    chain.map_values(|s: SettingsView| provider_name(s.kind))
}

impl View for LlmTranslator {
    type V = Seq<SettingsView>;

    closed spec fn view(&self) -> Seq<SettingsView> {
        settings_view(self.providers@)
    }
}

impl LlmTranslator {
    /// The options that providers are asked with.
    pub closed spec fn asked_with(&self) -> TranslateOptions {
        self.options
    }

    /// A chain without providers.
    pub fn new() -> (r: Self)
        ensures
            r@ == Seq::<SettingsView>::empty(),
            r.asked_with() == (TranslateOptions { temperature: 300, max_tokens: 4000 }),
    {
        let providers: Vec<ProviderSettings> = Vec::new();
        assert(settings_view(providers@) =~= Seq::<SettingsView>::empty());
        LlmTranslator {
            providers,
            options: TranslateOptions { temperature: 300, max_tokens: 4000 },
        }
    }

    /// The chain with one more provider at its end.
    pub fn add_provider(self, cfg: ProviderConfig) -> (r: Result<Self, Error>)
        ensures
            match r {
                Ok(t) => resolved(cfg) is Ok && t@ == self@.push(resolved(cfg)->Ok_0)
                    && t.asked_with() == self.asked_with(),
                Err(e) => resolved(cfg) == Err::<SettingsView, ErrorView>(e@),
            },
    {
        let mut t = self;
        let p = match cfg.into_provider() {
            Ok(p) => p,
            Err(e) => {
                return Err(e);
            },
        };
        let ghost before = t.providers@;
        t.providers.push(p);
        assert(settings_view(t.providers@) =~= settings_view(before).push(p@));
        Ok(t)
    }

    /// The chain with other options.
    pub fn with_options(self, options: TranslateOptions) -> (r: Self)
        ensures
            r@ == self@,
            r.asked_with() == options,
    {
        LlmTranslator { providers: self.providers, options }
    }

    /// The options that providers are asked with.
    pub fn options(&self) -> (r: TranslateOptions)
        ensures
            r == self.asked_with(),
    {
        self.options
    }

    /// How many providers the chain has.
    pub fn provider_count(&self) -> (n: usize)
        ensures
            n == self@.len(),
    {
        self.providers.len()
    }

    /// The names of the providers, in order.
    pub fn provider_names(&self) -> (r: Vec<&'static str>)
        ensures
            r@.map_values(|s: &'static str| s@) == names_of(self@),
    {
        let mut r: Vec<&'static str> = Vec::new();
        let mut i: usize = 0;
        assert(r@.map_values(|s: &'static str| s@) =~= names_of(self@).take(0));
        while i < self.providers.len()
            invariant
                i <= self.providers@.len(),
                r@.map_values(|s: &'static str| s@) == names_of(self@).take(i as int),
            decreases self.providers@.len() - i,
        {
            let ghost before = r@;
            let name = self.providers[i].kind.name();
            r.push(name);
            proof {
                assert(self@[i as int] == self.providers@[i as int]@);
                assert(r@.map_values(|s: &'static str| s@) =~= before.map_values(
                    |s: &'static str| s@,
                ).push(name@));
                assert(names_of(self@).take(i + 1) =~= names_of(self@).take(i as int).push(name@));
            }
            i += 1;
        }
        assert(names_of(self@).take(i as int) =~= names_of(self@));
        r
    }

    /// The providers, in order.
    pub fn providers(&self) -> (r: &Vec<ProviderSettings>)
        ensures
            settings_view(r@) == self@,
    {
        &self.providers
    }
}

/// The style of the prompt: whether words are to be aligned.
pub fn prompt_style(use_alignment_hint: bool) -> (r: PromptStyle)
    ensures
        r == (if use_alignment_hint {
            PromptStyle::PreserveOrder
        } else {
            PromptStyle::Fluent
        }),
{
    if use_alignment_hint {
        PromptStyle::PreserveOrder
    } else {
        PromptStyle::Fluent
    }
}

// ---------------------------------------------------------------------------
// Fallback
// ---------------------------------------------------------------------------

/// What a chain of providers comes to, given what each of the providers from
/// `from` on would answer: the first translation, or that all have failed.
pub open spec fn chain_outcome(answers: Seq<Result<Seq<char>, ErrorView>>, from: int) -> Result<
    Seq<char>,
    ErrorView,
>
    decreases answers.len() - from,
{
    if answers.len() == 0 {
        Err(ErrorView::NoProviders)
    } else if from >= answers.len() {
        match answers.last() {
            Err(e) => Err(ErrorView::AllProvidersFailed { last: error_words(e) }),
            Ok(s) => Ok(s),
        }
    } else {
        match answers[from] {
            Ok(s) => Ok(s),
            Err(_) => chain_outcome(answers, from + 1),
        }
    }
}

/// What to do next.
#[derive(Debug)]
pub enum Step {
    /// Ask the provider at this position.
    Ask(usize),
    /// Stop with an error.
    Failed(Error),
}

/// How far the asking has come.
#[derive(Debug)]
pub struct Fallback {
    count: usize,
    asked: usize,
    last: Option<String>,
}

/// How far the asking has come: how many providers there are, how many have failed, and
/// the last error in words.
#[verifier::ext_equal]
pub struct FallbackView {
    pub count: int,
    pub failed: int,
    pub last: Option<Seq<char>>,
}

impl View for Fallback {
    type V = FallbackView;

    closed spec fn view(&self) -> FallbackView {
        FallbackView {
            count: self.count as int,
            failed: self.asked as int,
            last: opt_text(self.last),
        }
    }
}

/// The first `k` of the providers have failed, and nothing else has happened.
pub open spec fn after_failures(
    f: FallbackView,
    answers: Seq<Result<Seq<char>, ErrorView>>,
    k: int,
) -> bool {
    &&& f.count == answers.len()
    &&& f.failed == k
    &&& 0 <= k <= answers.len()
    &&& forall|i: int| 0 <= i < k ==> #[trigger] answers[i] is Err
    &&& f.last == (if k == 0 {
        None
    } else {
        Some(error_words(answers[k - 1]->Err_0))
    })
}

impl Fallback {
    /// The start: no provider has been asked.
    pub fn new(count: usize) -> (r: Self)
        ensures
            r@ == (FallbackView { count: count as int, failed: 0, last: None }),
    {
        Fallback { count, asked: 0, last: None }
    }

    /// The provider to ask, or the error where none is left.
    pub fn next(&self) -> (r: Step)
        ensures
            match r {
                Step::Ask(i) => self@.failed < self@.count && i == self@.failed,
                Step::Failed(e) => self@.failed >= self@.count && e@ == (if self@.count == 0 {
                    ErrorView::NoProviders
                } else {
                    ErrorView::AllProvidersFailed {
                        last: match self@.last {
                            Some(s) => s,
                            None => "unknown"@,
                        },
                    }
                }),
            },
    {
        if self.asked < self.count {
            return Step::Ask(self.asked);
        }
        if self.count == 0 {
            return Step::Failed(Error::NoProviders);
        }
        let last = match &self.last {
            Some(s) => s.as_str().to_owned(),
            None => "unknown".to_owned(),
        };
        Step::Failed(Error::AllProvidersFailed { last })
    }

    /// Takes the answer of the provider that was asked.
    pub fn answer(self, answer: Result<String, Error>) -> (r: (Self, Option<String>))
        requires
            self@.failed < self@.count,
        ensures
            match answer {
                Ok(s) => r.0@ == self@ && r.1 == Some(s),
                Err(e) => r.0@ == (FallbackView {
                    count: self@.count,
                    failed: self@.failed + 1,
                    last: Some(error_words(e@)),
                }) && r.1 is None,
            },
    {
        match answer {
            Ok(s) => (self, Some(s)),
            Err(e) => (
                Fallback {
                    count: self.count,
                    asked: self.asked + 1,
                    last: Some(e.message()),
                },
                None,
            ),
        }
    }
}

/// Providers are asked one after another, none twice, as long as they fail: with the first
/// `k` failed the next asked is the `k`-th, and its answer counts; with all failed the
/// outcome tells the error of the last.
pub proof fn law_first_answer_wins(
    f: FallbackView,
    answers: Seq<Result<Seq<char>, ErrorView>>,
    k: int,
)
    requires
        after_failures(f, answers, k),
    ensures
        k < answers.len() ==> chain_outcome(answers, 0) == (match answers[k] {
            Ok(s) => Ok::<Seq<char>, ErrorView>(s),
            Err(_) => chain_outcome(answers, k + 1),
        }),
        k < answers.len() && answers[k] is Err ==> after_failures(
            FallbackView {
                count: f.count,
                failed: f.failed + 1,
                last: Some(error_words(answers[k]->Err_0)),
            },
            answers,
            k + 1,
        ),
        k == answers.len() ==> chain_outcome(answers, 0) == Err::<Seq<char>, ErrorView>(
            if answers.len() == 0 {
                ErrorView::NoProviders
            } else {
                ErrorView::AllProvidersFailed { last: f.last->0 }
            },
        ),
{
    lemma_outcome_after(answers, 0, k);
}

proof fn lemma_outcome_after(answers: Seq<Result<Seq<char>, ErrorView>>, from: int, k: int)
    requires
        0 <= from <= k <= answers.len(),
        forall|i: int| from <= i < k ==> #[trigger] answers[i] is Err,
    ensures
        chain_outcome(answers, from) == chain_outcome(answers, k),
    decreases k - from,
{
    if from < k {
        assert(answers[from] is Err);
        lemma_outcome_after(answers, from + 1, k);
    }
}

} // verus!
