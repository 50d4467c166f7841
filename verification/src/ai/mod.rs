//! The language-model layer: messages, models, streaming and requests.

pub mod anthropic;
pub mod response;
pub mod stream;
pub mod types;

use vstd::prelude::*;

use crate::text;

pub use crate::ai::types::{now_ms, Api, Message, Model, ThinkingLevel, Usage, UserMessage};
use crate::ai::types::{models_of, Prices, ModelView};

verus! {

/// The default base URL for the Anthropic API.
pub const DEFAULT_ANTHROPIC_BASE_URL: &'static str = "https://api.anthropic.com";

/// A model of the registry: all of them think adaptively.
pub open spec fn registry_entry(id: Seq<char>, base: Seq<char>, prices: Prices) -> ModelView {
    ModelView {
        id,
        provider: "anthropic"@,
        api: Api::AnthropicMessages,
        max_tokens: 64_000,
        context_window: 1_000_000,
        base_url: base,
        reasoning: true,
        force_adaptive_thinking: true,
        supports_temperature: false,
        prices,
    }
}

/// The registry, for an API at `base` whose model ids start with `family`.
pub open spec fn registry(base: Seq<char>, family: Seq<char>) -> Seq<ModelView> {
    seq![
        registry_entry(
            family + "-sonnet-4-6"@,
            base,
            Prices { input: 300, output: 1500, cache_read: 30, cache_write: 375 },
        ),
        registry_entry(
            family + "-opus-4-8"@,
            base,
            Prices { input: 1500, output: 7500, cache_read: 150, cache_write: 1875 },
        ),
        registry_entry(
            family + "-haiku-4-5"@,
            base,
            Prices { input: 100, output: 500, cache_read: 10, cache_write: 125 },
        ),
    ]
}

fn model_entry(family: &str, tier: &str, base: &str, prices: Prices) -> (r: Model)
    ensures
        r@ == registry_entry(family@ + tier@, base@, prices),
{
    let mut id: String = family.to_string();
    id.append(tier);
    Model {
        id,
        provider: "anthropic".to_string(),
        api: Api::AnthropicMessages,
        max_tokens: 64_000,
        context_window: 1_000_000,
        base_url: base.to_string(),
        reasoning: true,
        force_adaptive_thinking: true,
        supports_temperature: false,
        prices,
    }
}

/// A curated model registry, for the API at `base`. `family` is the name that
/// the provider's model ids start with.
pub fn builtin_models(base: &str, family: &str) -> (r: Vec<Model>)
    ensures
        models_of(r@) == registry(base@, family@),
{
    let mut out: Vec<Model> = Vec::new();
    out.push(
        model_entry(
            family,
            "-sonnet-4-6",
            base,
            Prices { input: 300, output: 1500, cache_read: 30, cache_write: 375 },
        ),
    );
    out.push(
        model_entry(
            family,
            "-opus-4-8",
            base,
            Prices { input: 1500, output: 7500, cache_read: 150, cache_write: 1875 },
        ),
    );
    out.push(
        model_entry(
            family,
            "-haiku-4-5",
            base,
            Prices { input: 100, output: 500, cache_read: 10, cache_write: 125 },
        ),
    );
    assert(models_of(out@) =~= registry(base@, family@));
    out
}

/// The part of a pattern that names a provider, in lower case.
pub open spec fn pattern_provider(pattern: Seq<char>) -> Option<Seq<char>> {
    match text::cut_at_first(pattern, '/') {
        Some((p, _)) => Some(text::lower(p)),
        None => None,
    }
}

/// The part of a pattern that names a model, in lower case and without a
/// `:thinking` suffix.
pub open spec fn pattern_needle(pattern: Seq<char>) -> Seq<char> {
    let id = match text::cut_at_first(pattern, '/') {
        Some((_, id)) => id,
        None => pattern,
    };
    text::lower(
        match text::cut_at_first(id, ':') {
            Some((name, _)) => name,
            None => id,
        },
    )
}

/// Does a pattern pick this model? The provider must be the one named, and the
/// model's id must hold the needle.
pub open spec fn pattern_picks(pattern: Seq<char>, m: ModelView) -> bool {
    &&& pattern_provider(pattern) matches Some(p) ==> m.provider == p
    &&& text::has_substring(text::lower(m.id), pattern_needle(pattern))
}

/// The first model from `i` on that the pattern picks.
pub open spec fn first_picked(models: Seq<ModelView>, pattern: Seq<char>, i: int) -> Option<
    ModelView,
>
    decreases models.len() - i,
{
    if i < 0 || i >= models.len() {
        None
    } else if pattern_picks(pattern, models[i]) {
        Some(models[i])
    } else {
        first_picked(models, pattern, i + 1)
    }
}

/// Resolve a model by `provider/id` pattern (supports just `id`). An optional
/// `:thinking` suffix is tolerated and ignored here.
pub fn resolve_model(registry: &[Model], pattern: &str) -> (r: Option<Model>)
    ensures
        match r {
            Some(m) => first_picked(models_of(registry@), pattern@, 0) == Some(m@),
            None => first_picked(models_of(registry@), pattern@, 0) is None,
        },
{
    let (provider, id): (Option<String>, String) = match text::split_once(pattern, '/') {
        Some((p, id)) => (Some(text::to_ascii_lowercase(p.as_str())), id),
        None => (None, pattern.to_string()),
    };
    let name: String = match text::split_once(id.as_str(), ':') {
        Some((name, _)) => name,
        None => id,
    };
    let needle: String = text::to_ascii_lowercase(name.as_str());
    let ghost models = models_of(registry@);
    let mut i: usize = 0;
    while i < registry.len()
        invariant
            models == models_of(registry@),
            i <= registry@.len(),
            text::opt_view(provider) == pattern_provider(pattern@),
            needle@ == pattern_needle(pattern@),
            first_picked(models, pattern@, i as int) == first_picked(models, pattern@, 0),
        decreases registry@.len() - i,
    {
        let m: &Model = &registry[i];
        assert(models[i as int] == m@);
        let offered: bool = match &provider {
            Some(p) => text::same(m.provider.as_str(), p.as_str()),
            None => true,
        };
        let lower: String = text::to_ascii_lowercase(m.id.as_str());
        if offered && text::contains(lower.as_str(), needle.as_str()) {
            return Some(m.clone());
        }
        i += 1;
    }
    None
}

// ---------------------------------------------------------------------------
// Laws
// ---------------------------------------------------------------------------

/// A plain name picks the models whose id holds it, whatever the case; a provider
/// before a slash must be the model's; what follows a colon does not matter.
pub proof fn law_patterns_pick_by_name_and_provider(
    provider: Seq<char>,
    name: Seq<char>,
    suffix: Seq<char>,
    m: ModelView,
)
    requires
        !provider.contains('/'),
        !name.contains('/'),
        !name.contains(':'),
        !suffix.contains('/'),
    ensures
        pattern_picks(name, m) <==> text::has_substring(text::lower(m.id), text::lower(name)),
        pattern_picks(name.push(':') + suffix, m) <==> pattern_picks(name, m),
        pattern_picks(provider.push('/') + name, m) <==> m.provider == text::lower(provider)
            && pattern_picks(name, m),
        pattern_picks(provider.push('/') + (name.push(':') + suffix), m) <==> m.provider
            == text::lower(provider) && pattern_picks(name, m),
{
    lemma_cut(provider, '/', name);
    lemma_cut(name, ':', suffix);
    lemma_cut(provider, '/', name.push(':') + suffix);
    lemma_no_cut(name, '/');
    lemma_no_cut(name, ':');
    let long = name.push(':') + suffix;
    assert forall|i: int| 0 <= i < long.len() implies long[i] != '/' by {
        if i < name.len() {
            assert(name[i] != '/');
        } else if i > name.len() {
            assert(suffix[i - name.len() - 1] != '/');
        }
    }
    lemma_no_cut(long, '/');
}

proof fn lemma_no_cut(s: Seq<char>, c: char)
    requires
        !s.contains(c),
    ensures
        text::cut_at_first(s, c) is None,
{
    text::law_a_cut_is_made_at_the_first_place(s, c);
    if let Some((a, b)) = text::cut_at_first(s, c) {
        assert(s[a.len() as int] == c);
    }
}

proof fn lemma_cut(a: Seq<char>, c: char, b: Seq<char>)
    requires
        !a.contains(c),
    ensures
        text::cut_at_first(a.push(c) + b, c) == Some((a, b)),
{
    let s = a.push(c) + b;
    text::law_a_cut_is_made_at_the_first_place(s, c);
    assert(s[a.len() as int] == c);
    match text::cut_at_first(s, c) {
        Some((x, y)) => {
            assert(s[x.len() as int] == c);
            if x.len() < a.len() {
                assert(a[x.len() as int] == c);
            }
            if x.len() > a.len() {
                assert(x[a.len() as int] == s[a.len() as int]);
                assert(x.contains(c));
            }
            assert(x =~= a) by {
                assert(x =~= s.take(x.len() as int));
                assert(a =~= s.take(a.len() as int));
            }
            assert(y =~= b) by {
                assert(y =~= s.skip((x.len() + 1) as int));
                assert(b =~= s.skip((a.len() + 1) as int));
            }
        },
        None => {},
    }
}

/// The model that a pattern resolves to is the first that it picks.
pub proof fn law_the_first_picked_model_is_resolved(
    models: Seq<ModelView>,
    pattern: Seq<char>,
    from: int,
)
    requires
        0 <= from <= models.len(),
    ensures
        match first_picked(models, pattern, from) {
            Some(m) => exists|i: int|
                from <= i < models.len() && #[trigger] models[i] == m && pattern_picks(
                    pattern,
                    models[i],
                ) && forall|k: int| from <= k < i ==> !pattern_picks(pattern, #[trigger] models[k]),
            None => forall|k: int|
                from <= k < models.len() ==> !pattern_picks(pattern, #[trigger] models[k]),
        },
    decreases models.len() - from,
{
    if from < models.len() {
        if pattern_picks(pattern, models[from]) {
            assert(models[from] == first_picked(models, pattern, from)->0);
        } else {
            law_the_first_picked_model_is_resolved(models, pattern, from + 1);
        }
    }
}

/// The built-in models stand at the given address, one for each tier, and are
/// priced alike: output at five times the input, reading the cache at a tenth of
/// it, writing it at five quarters.
pub proof fn law_the_builtin_models(base: Seq<char>, family: Seq<char>, i: int)
    requires
        0 <= i < registry(base, family).len(),
    ensures
        registry(base, family).len() == 3,
        registry(base, family)[0].id == family + "-sonnet-4-6"@,
        registry(base, family)[1].id == family + "-opus-4-8"@,
        registry(base, family)[2].id == family + "-haiku-4-5"@,
        registry(base, family)[0].prices.input == 300,
        registry(base, family)[1].prices.input == 1500,
        registry(base, family)[2].prices.input == 100,
        ({
            let m = registry(base, family)[i];
            &&& m.base_url == base
            &&& m.provider == "anthropic"@
            &&& m.max_tokens == 64_000
            &&& m.context_window == 1_000_000
            &&& m.reasoning && m.force_adaptive_thinking && !m.supports_temperature
            &&& m.prices.output == 5 * m.prices.input
            &&& 10 * m.prices.cache_read == m.prices.input
            &&& 4 * m.prices.cache_write == 5 * m.prices.input
        }),
{
}

} // verus!
