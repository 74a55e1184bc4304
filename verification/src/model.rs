//! Models: which ones there are, which one a session starts with, how hard each
//! may think, and how full its context is.

use crate::effort::{
    effort_name, effort_of, law_effort_names_are_read_back, parse_effort, Effort,
};
use crate::json::{
    is_text_tree, join_value, keys_ordered, member, node_model, pair_views, parse_json,
    parsed_json, pretty_json, text_object, text_object_value, write_pretty, JsonModel, JsonNode,
    JsonValue,
};
use crate::provider::{is_provider_name, ProviderName};
use crate::table::{deep_views, lookup, ordered, put, TextMap};
use crate::text::{
    find_char, find_char_from, lemma_find_char, lemma_text_lt_irreflexive, lemma_text_lt_total,
    lemma_text_lt_transitive, slice_text, str_eq, str_lt, text_lt, to_chars,
};
use vstd::prelude::*;

verus! {

// ---------------------------------------------------------------------------
// Names of models
// ---------------------------------------------------------------------------

/// A model of a provider.
#[derive(Clone, Debug, PartialEq, Eq)]
pub struct ModelId {
    pub provider: String,
    pub model: String,
}

/// What a [`ModelId`] says.
#[verifier::ext_equal]
pub struct IdModel {
    pub provider: Seq<char>,
    pub model: Seq<char>,
}

impl View for ModelId {
    type V = IdModel;

    open spec fn view(&self) -> IdModel {
        IdModel { provider: self.provider@, model: self.model@ }
    }
}

/// How a model is written: the provider, a slash, the model.
pub open spec fn id_text(id: IdModel) -> Seq<char> {
    id.provider.push('/') + id.model
}

/// Whether a model has the name of a provider and a name of its own.
pub open spec fn is_model_id(id: IdModel) -> bool {
    is_provider_name(id.provider) && id.model.len() > 0
}

/// The model of a text, which stands before and after its first slash.
pub open spec fn id_of(text: Seq<char>) -> Option<IdModel> {
    let k = find_char(text, '/');
    let id = IdModel { provider: text.take(k), model: text.skip(k + 1) };
    if k < text.len() && is_model_id(id) {
        Some(id)
    } else {
        None
    }
}

/// The models of optional ids.
pub open spec fn id_opt(id: Option<ModelId>) -> Option<IdModel> {
    match id {
        Some(id) => Some(id@),
        None => None,
    }
}

/// Whether one model comes before another: by provider, then by model.
pub open spec fn id_lt(a: IdModel, b: IdModel) -> bool {
    text_lt(a.provider, b.provider) || (a.provider == b.provider && text_lt(a.model, b.model))
}

/// Whether the models stand in order.
pub open spec fn ids_ordered(ids: Seq<IdModel>) -> bool {
    forall|i: int, j: int| 0 <= i < j < ids.len() ==> !id_lt(#[trigger] ids[j], #[trigger] ids[i])
}

proof fn lemma_id_order(a: IdModel, b: IdModel, c: IdModel)
    ensures
        !id_lt(a, a),
        id_lt(a, b) || id_lt(b, a) || a == b,
        id_lt(a, b) && id_lt(b, c) ==> id_lt(a, c),
        id_lt(a, b) ==> !id_lt(b, a),
{
    lemma_text_lt_irreflexive(a.provider);
    lemma_text_lt_irreflexive(a.model);
    lemma_text_lt_total(a.provider, b.provider);
    lemma_text_lt_total(a.model, b.model);
    if id_lt(a, b) && id_lt(b, c) {
        if text_lt(a.provider, b.provider) && text_lt(b.provider, c.provider) {
            lemma_text_lt_transitive(a.provider, b.provider, c.provider);
        } else if a.provider == b.provider && b.provider == c.provider {
            lemma_text_lt_transitive(a.model, b.model, c.model);
        }
    }
    if id_lt(a, b) && id_lt(b, a) {
        if text_lt(a.provider, b.provider) && text_lt(b.provider, a.provider) {
            lemma_text_lt_transitive(a.provider, b.provider, a.provider);
        } else if a.provider == b.provider && text_lt(a.model, b.model) && text_lt(
            b.model,
            a.model,
        ) {
            lemma_text_lt_transitive(a.model, b.model, a.model);
        }
    }
}

impl ModelId {
    /// The model as it is written.
    pub fn text(&self) -> (s: String)
        ensures
            s@ == id_text(self@),
    {
        let mut s = self.provider.clone();
        s.push('/');
        s.append(self.model.as_str());
        s
    }

    /// The model of a text.
    pub fn parse(text: &str) -> (r: Option<ModelId>)
        ensures
            id_opt(r) == id_of(text@),
    {
        let chars = to_chars(text);
        proof {
            assert(chars@.skip(0) =~= chars@);
        }
        let k = find_char_from(&chars, '/', 0);
        if k >= chars.len() || k + 1 >= chars.len() {
            return None;
        }
        let provider = slice_text(&chars, 0, k);
        let model = slice_text(&chars, k + 1, chars.len());
        proof {
            assert(provider@ =~= text@.take(k as int));
            assert(model@ =~= text@.skip(k + 1));
        }
        match ProviderName::try_new(provider) {
            Ok(p) => Some(ModelId { provider: p.as_str().to_owned(), model }),
            Err(_) => None,
        }
    }

    /// Whether this is the same model as another.
    pub fn same(&self, other: &ModelId) -> (r: bool)
        ensures
            r == (self@ == other@),
    {
        str_eq(self.provider.as_str(), other.provider.as_str()) && str_eq(
            self.model.as_str(),
            other.model.as_str(),
        )
    }

    /// Whether this model comes before another.
    pub fn before(&self, other: &ModelId) -> (r: bool)
        ensures
            r == id_lt(self@, other@),
    {
        str_lt(self.provider.as_str(), other.provider.as_str()) || (str_eq(
            self.provider.as_str(),
            other.provider.as_str(),
        ) && str_lt(self.model.as_str(), other.model.as_str()))
    }

    /// The same model once more.
    pub fn duplicate(&self) -> (r: ModelId)
        ensures
            r@ == self@,
    {
        ModelId { provider: self.provider.clone(), model: self.model.clone() }
    }
}

// ---------------------------------------------------------------------------
// The registry
// ---------------------------------------------------------------------------

/// What is configured of a model.
#[derive(Clone, Debug)]
pub struct ModelConfig {
    pub id: String,
    pub context_window: Option<u64>,
    /// The efforts of this model, in place of the usual ones.
    pub reasoning_efforts: Option<Vec<Effort>>,
    /// Whether the model knows the highest effort.
    pub supports_xhigh: bool,
}

/// What a [`ModelConfig`] says.
#[verifier::ext_equal]
pub struct ConfigModel {
    pub id: Seq<char>,
    pub context_window: Option<u64>,
    pub reasoning_efforts: Option<Seq<Effort>>,
    pub supports_xhigh: bool,
}

impl View for ModelConfig {
    type V = ConfigModel;

    open spec fn view(&self) -> ConfigModel {
        ConfigModel {
            id: self.id@,
            context_window: self.context_window,
            reasoning_efforts: match self.reasoning_efforts {
                Some(e) => Some(e@),
                None => None,
            },
            supports_xhigh: self.supports_xhigh,
        }
    }
}

/// What is configured of a provider.
#[derive(Clone, Debug)]
pub struct ProviderConfig {
    pub name: String,
    pub supports_reasoning_effort: bool,
    pub models: Vec<ModelConfig>,
}

/// What a [`ProviderConfig`] says.
#[verifier::ext_equal]
pub struct ProviderModel {
    pub name: Seq<char>,
    pub supports_reasoning_effort: bool,
    pub models: Seq<ConfigModel>,
}

impl View for ProviderConfig {
    type V = ProviderModel;

    open spec fn view(&self) -> ProviderModel {
        ProviderModel {
            name: self.name@,
            supports_reasoning_effort: self.supports_reasoning_effort,
            models: deep_views(self.models@),
        }
    }
}

/// All configured providers, each under a name of its own.
#[derive(Clone, Debug)]
pub struct ModelRegistry {
    pub providers: Vec<ProviderConfig>,
}

impl View for ModelRegistry {
    type V = Seq<ProviderModel>;

    open spec fn view(&self) -> Seq<ProviderModel> {
        deep_views(self.providers@)
    }
}

/// The provider of a name.
pub open spec fn provider_named(providers: Seq<ProviderModel>, name: Seq<char>) -> Option<
    ProviderModel,
>
    decreases providers.len(),
{
    if providers.len() == 0 {
        None
    } else if providers[0].name == name {
        Some(providers[0])
    } else {
        provider_named(providers.drop_first(), name)
    }
}

/// The model of an id.
pub open spec fn model_named(models: Seq<ConfigModel>, id: Seq<char>) -> Option<ConfigModel>
    decreases models.len(),
{
    if models.len() == 0 {
        None
    } else if models[0].id == id {
        Some(models[0])
    } else {
        model_named(models.drop_first(), id)
    }
}

/// The models of one provider.
pub open spec fn provider_ids(p: ProviderModel) -> Seq<IdModel> {
    Seq::new(p.models.len(), |i: int| IdModel { provider: p.name, model: p.models[i].id })
}

/// The models of all providers.
pub open spec fn all_ids(providers: Seq<ProviderModel>) -> Seq<IdModel>
    decreases providers.len(),
{
    if providers.len() == 0 {
        Seq::empty()
    } else {
        all_ids(providers.drop_last()) + provider_ids(providers.last())
    }
}

impl ModelRegistry {
    /// The provider of a name.
    fn find_provider(&self, name: &str) -> (r: Option<&ProviderConfig>)
        ensures
            match r {
                Some(p) => provider_named(self@, name@) == Some(p@),
                None => provider_named(self@, name@) is None,
            },
    {
        let ghost all = self@;
        let mut i: usize = 0;
        proof {
            assert(all.skip(0) =~= all);
        }
        while i < self.providers.len()
            invariant
                i <= self.providers@.len(),
                all == self@,
                provider_named(all, name@) == provider_named(all.skip(i as int), name@),
            decreases self.providers@.len() - i,
        {
            let p = &self.providers[i];
            proof {
                assert(all.skip(i as int)[0] == p@);
                assert(all.skip(i as int).drop_first() =~= all.skip(i + 1));
            }
            if str_eq(p.name.as_str(), name) {
                return Some(p);
            }
            i = i + 1;
        }
        None
    }
}

impl ProviderConfig {
    /// The model of an id.
    fn find_model(&self, id: &str) -> (r: Option<&ModelConfig>)
        ensures
            match r {
                Some(m) => model_named(self@.models, id@) == Some(m@),
                None => model_named(self@.models, id@) is None,
            },
    {
        let ghost all = self@.models;
        let mut i: usize = 0;
        proof {
            assert(all.skip(0) =~= all);
        }
        while i < self.models.len()
            invariant
                i <= self.models@.len(),
                all == deep_views(self.models@),
                all == self@.models,
                model_named(all, id@) == model_named(all.skip(i as int), id@),
            decreases self.models@.len() - i,
        {
            let m = &self.models[i];
            proof {
                assert(all.skip(i as int)[0] == m@);
                assert(all.skip(i as int).drop_first() =~= all.skip(i + 1));
            }
            if str_eq(m.id.as_str(), id) {
                return Some(m);
            }
            i = i + 1;
        }
        None
    }
}

// ---------------------------------------------------------------------------
// Which models there are, and which one is selected
// ---------------------------------------------------------------------------

/// Puts a model where it belongs in an ordered list.
fn insert_id(out: &mut Vec<ModelId>, id: ModelId)
    requires
        ids_ordered(deep_views(old(out)@)),
    ensures
        ids_ordered(deep_views(final(out)@)),
        deep_views(final(out)@).to_multiset() == deep_views(old(out)@).to_multiset().insert(id@),
{
    let ghost before = deep_views(out@);
    let mut k: usize = out.len();
    while k > 0 && id.before(&out[k - 1])
        invariant
            k <= out@.len(),
            before == deep_views(out@),
            forall|j: int| k <= j < before.len() ==> id_lt(id@, #[trigger] before[j]),
        decreases k,
    {
        k = k - 1;
        proof {
            assert(before[k as int] == out@[k as int]@);
        }
    }
    proof {
        if k > 0 {
            assert(before[k - 1] == out@[k - 1]@);
        }
    }
    let ghost x = id@;
    out.insert(k, id);
    proof {
        let after = deep_views(out@);
        assert(after =~= before.insert(k as int, x));
        vstd::seq_lib::to_multiset_insert(before, k as int, x);
        assert forall|i: int, j: int| 0 <= i < j < after.len() implies !id_lt(
            #[trigger] after[j],
            #[trigger] after[i],
        ) by {
            let a = if i < k {
                i
            } else {
                i - 1
            };
            let b = if j < k {
                j
            } else {
                j - 1
            };
            if i == k {
                assert(after[j] == before[b]);
                lemma_id_order(x, before[b], x);
            } else if j == k {
                assert(after[i] == before[a]);
                assert(!id_lt(x, before[k - 1]));
                if a < k - 1 {
                    assert(!id_lt(before[k - 1], before[a]));
                    lemma_id_order(x, before[a], before[k - 1]);
                    lemma_id_order(before[a], before[k - 1], x);
                }
            } else {
                assert(after[i] == before[a]);
                assert(after[j] == before[b]);
            }
        }
    }
}

/// All models in order.
pub fn available_models(registry: &ModelRegistry) -> (out: Vec<ModelId>)
    ensures
        ids_ordered(deep_views(out@)),
        deep_views(out@).to_multiset() == all_ids(registry@).to_multiset(),
{
    broadcast use vstd::seq_lib::group_to_multiset_ensures;

    let mut out: Vec<ModelId> = Vec::new();
    let ghost all = registry@;
    let mut i: usize = 0;
    proof {
        assert(all.take(0) =~= Seq::<ProviderModel>::empty());
        assert(deep_views(out@) =~= Seq::<IdModel>::empty());
    }
    while i < registry.providers.len()
        invariant
            i <= registry.providers@.len(),
            all == registry@,
            ids_ordered(deep_views(out@)),
            deep_views(out@).to_multiset() == all_ids(all.take(i as int)).to_multiset(),
        decreases registry.providers@.len() - i,
    {
        let p = &registry.providers[i];
        let ghost ids = provider_ids(p@);
        let ghost before = all_ids(all.take(i as int));
        let mut j: usize = 0;
        proof {
            assert(before + ids.take(0) =~= before);
        }
        while j < p.models.len()
            invariant
                j <= p.models@.len(),
                ids == provider_ids(p@),
                ids_ordered(deep_views(out@)),
                deep_views(out@).to_multiset() == (before + ids.take(j as int)).to_multiset(),
            decreases p.models@.len() - j,
        {
            broadcast use vstd::seq_lib::group_to_multiset_ensures;

            let id = ModelId { provider: p.name.clone(), model: p.models[j].id.clone() };
            proof {
                assert(id@ == ids[j as int]);
                assert(before + ids.take(j + 1) =~= (before + ids.take(j as int)).push(
                    ids[j as int],
                ));
            }
            insert_id(&mut out, id);
            j = j + 1;
        }
        proof {
            assert(ids.take(j as int) =~= ids);
            assert(all.take(i + 1).drop_last() =~= all.take(i as int));
            assert(all.take(i + 1).last() == p@);
        }
        i = i + 1;
    }
    proof {
        assert(all.take(i as int) =~= all);
    }
    out
}

/// A model, if it is among the available ones.
pub open spec fn if_available(id: Option<IdModel>, available: Seq<IdModel>) -> Option<IdModel> {
    match id {
        Some(m) if available.contains(m) => Some(m),
        _ => None,
    }
}

/// The model to start with: the default one, or the one used last, or the first
/// one. A model that is not available does not count.
pub open spec fn selected_model(
    available: Seq<IdModel>,
    default_model: Option<IdModel>,
    last_used: Option<IdModel>,
) -> Option<IdModel> {
    match if_available(default_model, available) {
        Some(m) => Some(m),
        None => match if_available(last_used, available) {
            Some(m) => Some(m),
            None => if available.len() > 0 {
                Some(available[0])
            } else {
                None
            },
        },
    }
}

/// Whether a model is among the available ones.
fn is_available(available: &[ModelId], id: &ModelId) -> (r: bool)
    ensures
        r == deep_views(available@).contains(id@),
{
    let mut i: usize = 0;
    while i < available.len()
        invariant
            i <= available@.len(),
            forall|j: int| 0 <= j < i ==> (#[trigger] deep_views(available@)[j]) != id@,
        decreases available@.len() - i,
    {
        if available[i].same(id) {
            proof {
                assert(deep_views(available@)[i as int] == id@);
            }
            return true;
        }
        i = i + 1;
    }
    false
}

/// The model to start with.
pub fn select_model(
    available: &[ModelId],
    default_model: Option<ModelId>,
    last_used: Option<ModelId>,
) -> (r: Option<ModelId>)
    ensures
        id_opt(r) == selected_model(
            deep_views(available@),
            id_opt(default_model),
            id_opt(last_used),
        ),
{
    if let Some(m) = default_model {
        if is_available(available, &m) {
            return Some(m);
        }
    }
    if let Some(m) = last_used {
        if is_available(available, &m) {
            return Some(m);
        }
    }
    if available.len() > 0 {
        proof {
            assert(deep_views(available@)[0] == available@[0]@);
        }
        Some(available[0].duplicate())
    } else {
        None
    }
}

/// The available models and the one to start with.
#[derive(Debug)]
pub struct LoadedModelList {
    pub available: Vec<ModelId>,
    pub selected: Option<ModelId>,
}

/// The available models and the one to start with. `state` is the text of the
/// saved state, if there is any.
pub fn load_model_list(
    registry: &ModelRegistry,
    default_model: Option<ModelId>,
    state: Option<&str>,
) -> (r: LoadedModelList)
    ensures
        ids_ordered(deep_views(r.available@)),
        deep_views(r.available@).to_multiset() == all_ids(registry@).to_multiset(),
        id_opt(r.selected) == selected_model(
            deep_views(r.available@),
            id_opt(default_model),
            saved_model(read_state(state)),
        ),
{
    let available = available_models(registry);
    let last = load_last_selected_model(state);
    let selected = select_model(available.as_slice(), default_model, last);
    LoadedModelList { available, selected }
}

// ---------------------------------------------------------------------------
// Efforts
// ---------------------------------------------------------------------------

/// The efforts without repetitions; the first of equal ones stays.
pub open spec fn distinct(all: Seq<Effort>) -> Seq<Effort>
    decreases all.len(),
{
    if all.len() == 0 {
        all
    } else {
        let before = distinct(all.drop_last());
        if before.contains(all.last()) {
            before
        } else {
            before.push(all.last())
        }
    }
}

/// The efforts of a model: none if its provider is unknown; its own list if it
/// has one; only [`Effort::Off`] if the provider knows no efforts; else the usual
/// ones, with the highest if the model knows it.
pub open spec fn model_efforts(registry: Seq<ProviderModel>, id: IdModel) -> Seq<Effort> {
    match provider_named(registry, id.provider) {
        None => Seq::empty(),
        Some(p) => {
            let config = model_named(p.models, id.model);
            match config {
                Some(m) if m.reasoning_efforts is Some => distinct(m.reasoning_efforts->0),
                _ => if !p.supports_reasoning_effort {
                    seq![Effort::Off]
                } else {
                    let usual = seq![
                        Effort::Off,
                        Effort::Minimal,
                        Effort::Low,
                        Effort::Medium,
                        Effort::High,
                    ];
                    if config matches Some(m) && m.supports_xhigh {
                        usual.push(Effort::XHigh)
                    } else {
                        usual
                    }
                },
            }
        },
    }
}

/// Whether an effort is in the list.
fn has_effort(all: &[Effort], e: Effort) -> (r: bool)
    ensures
        r == all@.contains(e),
{
    let mut i: usize = 0;
    while i < all.len()
        invariant
            i <= all@.len(),
            forall|j: int| 0 <= j < i ==> all@[j] != e,
        decreases all@.len() - i,
    {
        if all[i] == e {
            return true;
        }
        i = i + 1;
    }
    false
}

/// The efforts without repetitions.
fn drop_repeated(all: &[Effort]) -> (out: Vec<Effort>)
    ensures
        out@ == distinct(all@),
{
    let mut out: Vec<Effort> = Vec::new();
    let mut i: usize = 0;
    proof {
        assert(all@.take(0) =~= Seq::<Effort>::empty());
        assert(out@ =~= Seq::<Effort>::empty());
    }
    while i < all.len()
        invariant
            i <= all@.len(),
            out@ == distinct(all@.take(i as int)),
        decreases all@.len() - i,
    {
        proof {
            assert(all@.take(i + 1).drop_last() =~= all@.take(i as int));
        }
        if !has_effort(out.as_slice(), all[i]) {
            out.push(all[i]);
        }
        i = i + 1;
    }
    proof {
        assert(all@.take(i as int) =~= all@);
    }
    out
}

/// The efforts of a model.
pub fn efforts_for_model(registry: &ModelRegistry, model: &ModelId) -> (out: Vec<Effort>)
    ensures
        out@ == model_efforts(registry@, model@),
{
    let provider = match registry.find_provider(model.provider.as_str()) {
        Some(p) => p,
        None => {
            return Vec::new();
        },
    };
    let config = provider.find_model(model.model.as_str());
    if let Some(m) = config {
        if let Some(custom) = &m.reasoning_efforts {
            return drop_repeated(custom.as_slice());
        }
    }
    if !provider.supports_reasoning_effort {
        return vec![Effort::Off];
    }
    let mut levels = vec![Effort::Off, Effort::Minimal, Effort::Low, Effort::Medium, Effort::High];
    if let Some(m) = config {
        if m.supports_xhigh {
            levels.push(Effort::XHigh);
        }
    }
    levels
}

/// The size of the context of a model.
pub open spec fn context_window(registry: Seq<ProviderModel>, id: IdModel) -> Option<u64> {
    match provider_named(registry, id.provider) {
        None => None,
        Some(p) => match model_named(p.models, id.model) {
            None => None,
            Some(m) => m.context_window,
        },
    }
}

/// The size of the context of a model.
pub fn model_context_window(registry: &ModelRegistry, model: &ModelId) -> (r: Option<u64>)
    ensures
        r == context_window(registry@, model@),
{
    match registry.find_provider(model.provider.as_str()) {
        None => None,
        Some(p) => match p.find_model(model.model.as_str()) {
            None => None,
            Some(m) => m.context_window,
        },
    }
}

/// How much of a context is used, in percent. A product that does not fit counts
/// as the greatest number that does.
pub open spec fn percent_used(input_tokens: u64, context_window: u64) -> int {
    let product = if input_tokens * 100 > u64::MAX {
        u64::MAX as int
    } else {
        input_tokens * 100
    };
    if context_window == 0 {
        0
    } else if product / context_window as int > 100 {
        100
    } else {
        product / context_window as int
    }
}

/// How much of a context is used, in percent.
pub fn context_percent_used(input_tokens: u64, context_window: u64) -> (r: u8)
    ensures
        r == percent_used(input_tokens, context_window),
        r <= 100,
{
    if context_window == 0 {
        return 0;
    }
    let product: u64 = match input_tokens.checked_mul(100) {
        Some(p) => p,
        None => u64::MAX,
    };
    let percent: u64 = product / context_window;
    if percent > 100 {
        100
    } else {
        percent as u8
    }
}

/// The effort to use for a requested one: itself if it is allowed; in place of
/// the highest the next one; else none at all, if that is allowed; else the
/// first one that is.
pub open spec fn clamped(requested: Effort, allowed: Seq<Effort>) -> Effort {
    if allowed.contains(requested) {
        requested
    } else if requested is XHigh && allowed.contains(Effort::High) {
        Effort::High
    } else if allowed.contains(Effort::Off) || allowed.len() == 0 {
        Effort::Off
    } else {
        allowed[0]
    }
}

/// The effort to use for a requested one.
pub fn clamp_effort(requested: Effort, allowed: &[Effort]) -> (r: Effort)
    ensures
        r == clamped(requested, allowed@),
{
    if has_effort(allowed, requested) {
        return requested;
    }
    if requested == Effort::XHigh && has_effort(allowed, Effort::High) {
        return Effort::High;
    }
    if has_effort(allowed, Effort::Off) {
        return Effort::Off;
    }
    if allowed.len() > 0 {
        allowed[0]
    } else {
        Effort::Off
    }
}

/// The effort in the middle of a list, or none at all.
pub open spec fn middle(allowed: Seq<Effort>) -> Effort {
    if allowed.len() == 0 {
        Effort::Off
    } else {
        allowed[(allowed.len() / 2) as int]
    }
}

/// The effort in the middle of a list.
pub fn middle_effort(allowed: &[Effort]) -> (r: Effort)
    ensures
        r == middle(allowed@),
{
    if allowed.len() == 0 {
        return Effort::Off;
    }
    allowed[allowed.len() / 2]
}

/// The effort a model starts with: its default, or the one used last, or the
/// middle one; brought into what is allowed.
pub open spec fn starting_effort(
    allowed: Seq<Effort>,
    default_effort: Option<Effort>,
    last_used: Option<Effort>,
) -> Effort {
    clamped(
        match default_effort {
            Some(e) => e,
            None => match last_used {
                Some(e) => e,
                None => middle(allowed),
            },
        },
        allowed,
    )
}

/// The effort a model starts with. `state` is the text of the saved state, if
/// there is any.
pub fn selected_effort_for_model(
    registry: &ModelRegistry,
    model: &ModelId,
    default_effort: Option<Effort>,
    state: Option<&str>,
) -> (r: Effort)
    ensures
        r == starting_effort(
            model_efforts(registry@, model@),
            default_effort,
            lookup(saved_efforts(read_state(state)), id_text(model@)),
        ),
{
    let allowed = efforts_for_model(registry, model);
    let requested = match default_effort {
        Some(e) => e,
        None => {
            let last = load_last_efforts(state);
            match last.get(model.text().as_str()) {
                Some(e) => *e,
                None => middle_effort(allowed.as_slice()),
            }
        },
    };
    clamp_effort(requested, allowed.as_slice())
}

// ---------------------------------------------------------------------------
// Saved state
// ---------------------------------------------------------------------------

/// The saved state, if there is any and it is JSON.
pub open spec fn read_state(state: Option<&str>) -> Option<JsonModel> {
    match state {
        Some(text) => parsed_json(text@),
        None => None,
    }
}

/// The model of a saved state.
pub open spec fn saved_model(state: Option<JsonModel>) -> Option<IdModel> {
    match state {
        Some(v) => match v.get("last_selected_model"@) {
            Some(m) => match m.as_text() {
                Some(text) => id_of(text),
                None => None,
            },
            None => None,
        },
        None => None,
    }
}

/// The efforts of the first `n` members that name a model and an effort.
pub open spec fn member_efforts(entries: Seq<(Seq<char>, JsonModel)>, n: nat) -> Seq<
    (Seq<char>, Effort),
>
    decreases n,
{
    if n == 0 {
        Seq::empty()
    } else {
        let before = member_efforts(entries, (n - 1) as nat);
        let (key, value) = entries[n - 1];
        match (id_of(key), value.as_text()) {
            (Some(_), Some(text)) => match effort_of(text) {
                Some(e) => put(before, key, e),
                None => before,
            },
            _ => before,
        }
    }
}

/// The efforts of a saved state by model.
pub open spec fn saved_efforts(state: Option<JsonModel>) -> Seq<(Seq<char>, Effort)> {
    match state {
        Some(v) => match v.get("last_efforts"@) {
            Some(JsonModel::Object(entries)) => member_efforts(entries, entries.len()),
            _ => Seq::empty(),
        },
        None => Seq::empty(),
    }
}

/// What a state says.
pub open spec fn state_model(state: Option<&JsonValue>) -> Option<JsonModel> {
    match state {
        Some(v) => Some(v.model()),
        None => None,
    }
}

/// The model of a state that was read.
pub fn last_selected_model(state: Option<&JsonValue>) -> (r: Option<ModelId>)
    ensures
        id_opt(r) == saved_model(state_model(state)),
{
    match state {
        Some(v) => match v.get("last_selected_model") {
            Some(m) => match m.as_text() {
                Some(text) => ModelId::parse(text),
                None => None,
            },
            None => None,
        },
        None => None,
    }
}

/// The efforts of a state that was read.
pub fn last_efforts(state: Option<&JsonValue>) -> (out: TextMap<Effort>)
    ensures
        out@ == saved_efforts(state_model(state)),
        ordered(out@),
{
    let mut out: TextMap<Effort> = TextMap::new();
    let value = match state {
        Some(v) => v,
        None => {
            return out;
        },
    };
    match value.get("last_efforts") {
        Some(JsonValue::Object(members)) => {
            let ghost all = crate::json::member_models(members@);
            proof {
                crate::json::lemma_json_object(*members);
            }
            let mut i: usize = 0;
            while i < members.len()
                invariant
                    i <= members@.len(),
                    all == crate::json::member_models(members@),
                    out@ == member_efforts(all, i as nat),
                    ordered(out@),
                decreases members@.len() - i,
            {
                let entry = &members[i];
                proof {
                    assert(all[i as int] == (entry.0@, entry.1.model()));
                }
                let named = ModelId::parse(entry.0.as_str()).is_some();
                let level = match entry.1.as_text() {
                    Some(text) => parse_effort(text),
                    None => None,
                };
                if named {
                    if let Some(e) = level {
                        out.insert(entry.0.clone(), e);
                    }
                }
                i = i + 1;
            }
        },
        _ => {},
    }
    out
}

/// The saved state, if there is any and it is JSON.
fn parse_state(state: Option<&str>) -> (r: Option<JsonValue>)
    ensures
        match r {
            Some(v) => read_state(state) == Some(v.model()),
            None => read_state(state) is None,
        },
{
    match state {
        Some(text) => parse_json(text),
        None => None,
    }
}

/// The model of the saved state.
pub fn load_last_selected_model(state: Option<&str>) -> (r: Option<ModelId>)
    ensures
        id_opt(r) == saved_model(read_state(state)),
{
    let value = parse_state(state);
    match &value {
        Some(v) => last_selected_model(Some(v)),
        None => last_selected_model(None),
    }
}

/// The efforts of the saved state by model.
pub fn load_last_efforts(state: Option<&str>) -> (out: TextMap<Effort>)
    ensures
        out@ == saved_efforts(read_state(state)),
        ordered(out@),
{
    let value = parse_state(state);
    match &value {
        Some(v) => last_efforts(Some(v)),
        None => last_efforts(None),
    }
}

/// The names of the efforts.
pub open spec fn named_efforts(efforts: Seq<(Seq<char>, Effort)>) -> Seq<(Seq<char>, Seq<char>)> {
    Seq::new(efforts.len(), |i: int| (efforts[i].0, effort_name(efforts[i].1)))
}

/// The state to save: the selected model, or an empty text, and the efforts by
/// model.
pub open spec fn state_to_save(model: Option<IdModel>, efforts: Seq<(Seq<char>, Effort)>) -> JsonModel {
    JsonModel::Object(
        seq![
            ("last_efforts"@, text_object(named_efforts(efforts))),
            (
                "last_selected_model"@,
                JsonModel::Text(
                    match model {
                        Some(m) => id_text(m),
                        None => Seq::empty(),
                    },
                ),
            ),
        ],
    )
}

/// The efforts with that of the selected model.
pub open spec fn efforts_to_save(
    before: Seq<(Seq<char>, Effort)>,
    model: Option<IdModel>,
    effort: Effort,
) -> Seq<(Seq<char>, Effort)> {
    match model {
        Some(m) => put(before, id_text(m), effort),
        None => before,
    }
}

/// The text of the state to save. `before` is the text of the state saved last,
/// if there is any; its efforts stay.
pub fn harness_state(before: Option<&str>, model: Option<&ModelId>, effort: Effort) -> (text: String)
    ensures
        ({
            let id = match model {
                Some(m) => Some(m@),
                None => None,
            };
            let efforts = efforts_to_save(saved_efforts(read_state(before)), id, effort);
            &&& text@ == pretty_json(state_to_save(id, efforts))
            &&& parsed_json(text@) == Some(state_to_save(id, efforts))
        }),
{
    let mut efforts = load_last_efforts(before);
    if let Some(m) = model {
        efforts.insert(m.text(), effort);
    }
    let selected = match model {
        Some(m) => m.text(),
        None => {
            let empty = String::new();
            proof {
                assert(empty@ =~= Seq::<char>::empty());
            }
            empty
        },
    };
    let text = write_state(&efforts, selected);
    proof {
        let id = match model {
            Some(m) => Some(m@),
            None => None,
        };
        assert(state_to_save(id, efforts@)->Object_0 =~= seq![
            ("last_efforts"@, text_object(named_efforts(efforts@))),
            ("last_selected_model"@, JsonModel::Text(selected@)),
        ]);
    }
    text
}

/// The text of a state.
fn write_state(efforts: &TextMap<Effort>, selected: String) -> (text: String)
    requires
        ordered(efforts@),
    ensures
        ({
            let state = JsonModel::Object(
                seq![
                    ("last_efforts"@, text_object(named_efforts(efforts@))),
                    ("last_selected_model"@, JsonModel::Text(selected@)),
                ],
            );
            &&& text@ == pretty_json(state)
            &&& parsed_json(text@) == Some(state)
        }),
{
    let ghost all = named_efforts(efforts@);
    let mut pairs: Vec<(String, String)> = Vec::new();
    let mut i: usize = 0;
    while i < efforts.len()
        invariant
            i <= efforts@.len(),
            all == named_efforts(efforts@),
            pairs@.len() == i,
            forall|j: int| 0 <= j < i ==> ((#[trigger] pairs@[j]).0@, pairs@[j].1@) == all[j],
        decreases efforts@.len() - i,
    {
        let (key, level) = efforts.entry(i);
        pairs.push((key.to_owned(), level.as_str().to_owned()));
        i = i + 1;
    }
    let ghost inner = text_object(all);
    proof {
        assert(pair_views(pairs@) =~= all);
        let entries = inner->Object_0;
        assert forall|i: int, j: int| 0 <= i < j < entries.len() implies text_lt(
            #[trigger] entries[i].0,
            #[trigger] entries[j].0,
        ) by {
            assert(entries[i].0 == efforts@[i].0);
            assert(entries[j].0 == efforts@[j].0);
        }
        assert(keys_ordered(entries));
    }
    let object = text_object_value(pairs);
    let ghost picked = selected@;
    let last = join_value(JsonNode::Text(selected));
    let members = vec![
        ("last_efforts".to_owned(), object),
        ("last_selected_model".to_owned(), last),
    ];
    let node = JsonNode::Object(members);
    proof {
        let state = JsonModel::Object(
            seq![
                ("last_efforts"@, inner),
                ("last_selected_model"@, JsonModel::Text(picked)),
            ],
        );
        assert(node_model(node)->Object_0 =~= state->Object_0);
        lemma_member_order();
        assert(keys_ordered(state->Object_0));
        lemma_state_is_text(inner, all, picked);
    }
    let value = join_value(node);
    write_pretty(&value)
}

proof fn lemma_member_order()
    ensures
        text_lt("last_efforts"@, "last_selected_model"@),
{
    reveal_strlit("last_efforts");
    reveal_strlit("last_selected_model");
    let a = "last_efforts"@;
    let b = "last_selected_model"@;
    reveal_with_fuel(text_lt, 7);
    assert(a[0] == 'l' && a[1] == 'a' && a[2] == 's' && a[3] == 't' && a[4] == '_' && a[5] == 'e');
    assert(b[0] == 'l' && b[1] == 'a' && b[2] == 's' && b[3] == 't' && b[4] == '_' && b[5] == 's');
    assert(a.drop_first().drop_first().drop_first().drop_first().drop_first()[0] == a[5]);
    assert(b.drop_first().drop_first().drop_first().drop_first().drop_first()[0] == b[5]);
}

proof fn lemma_state_is_text(inner: JsonModel, all: Seq<(Seq<char>, Seq<char>)>, picked: Seq<char>)
    requires
        inner == text_object(all),
    ensures
        is_text_tree(
            JsonModel::Object(
                seq![
                    ("last_efforts"@, inner),
                    ("last_selected_model"@, JsonModel::Text(picked)),
                ],
            ),
            100,
        ),
{
    let members = seq![
        ("last_efforts"@, inner),
        ("last_selected_model"@, JsonModel::Text(picked)),
    ];
    let entries = inner->Object_0;
    assert(is_text_tree(inner, 99)) by {
        assert forall|i: int| 0 <= i < entries.len() implies is_text_tree(
            (#[trigger] entries[i]).1,
            98,
        ) by {
            assert(entries[i] == crate::json::text_member(all[i]));
        }
    }
    assert forall|i: int| 0 <= i < members.len() implies is_text_tree(
        (#[trigger] members[i]).1,
        99,
    ) by {
        if i == 0 {
            assert(members[i].1 == inner);
        } else {
            assert(members[i].1 == JsonModel::Text(picked));
        }
    }
}

// ---------------------------------------------------------------------------
// Laws
// ---------------------------------------------------------------------------

/// A model that is written down is read back as it was.
pub proof fn law_model_ids_are_read_back(id: IdModel)
    requires
        is_model_id(id),
    ensures
        id_of(id_text(id)) == Some(id),
{
    let text = id_text(id);
    let k = id.provider.len() as int;
    assert forall|j: int| 0 <= j < k implies text[j] != '/' by {
        assert(text[j] == id.provider[j]);
        assert(crate::provider::is_provider_char(id.provider[j]));
    }
    assert(text[k] == '/');
    lemma_find_char(text, '/', k);
    assert(text.take(k) =~= id.provider);
    assert(text.skip(k + 1) =~= id.model);
}

/// A text that names a model is how that model is written.
pub proof fn law_model_texts_are_canonical(text: Seq<char>)
    ensures
        id_of(text) matches Some(id) ==> is_model_id(id) && id_text(id) == text,
{
    crate::text::lemma_find_char_props(text, '/');
    if let Some(id) = id_of(text) {
        assert(id_text(id) =~= text);
    }
}

/// Whether all keys name models.
pub open spec fn names_models(efforts: Seq<(Seq<char>, Effort)>) -> bool {
    forall|i: int| 0 <= i < efforts.len() ==> id_of((#[trigger] efforts[i]).0) is Some
}

/// What was saved is what is restored: the model and all efforts.
pub proof fn law_saved_state_is_restored(model: IdModel, efforts: Seq<(Seq<char>, Effort)>)
    requires
        is_model_id(model),
        ordered(efforts),
        names_models(efforts),
    ensures
        saved_model(Some(state_to_save(Some(model), efforts))) == Some(model),
        saved_efforts(Some(state_to_save(Some(model), efforts))) == efforts,
{
    let state = state_to_save(Some(model), efforts);
    let entries = state->Object_0;
    lemma_member_order();
    lemma_text_lt_irreflexive("last_efforts"@);
    assert("last_efforts"@ != "last_selected_model"@);
    assert(entries[0].0 == "last_efforts"@);
    assert(entries.drop_first()[0] == entries[1]);
    reveal_with_fuel(member, 3);
    assert(member(entries, "last_efforts"@) == Some(entries[0].1));
    assert(member(entries, "last_selected_model"@) == Some(entries[1].1));
    law_model_ids_are_read_back(model);
    let inner = entries[0].1->Object_0;
    lemma_efforts_back(efforts, inner.len());
    assert(efforts.take(inner.len() as int) =~= efforts);
}

proof fn lemma_efforts_back(efforts: Seq<(Seq<char>, Effort)>, n: nat)
    requires
        ordered(efforts),
        names_models(efforts),
        n <= efforts.len(),
    ensures
        member_efforts(text_object(named_efforts(efforts))->Object_0, n) == efforts.take(n as int),
    decreases n,
{
    if n == 0 {
        assert(efforts.take(0) =~= Seq::<(Seq<char>, Effort)>::empty());
    } else {
        let entries = text_object(named_efforts(efforts))->Object_0;
        lemma_efforts_back(efforts, (n - 1) as nat);
        let (key, e) = efforts[n - 1];
        assert(entries[n - 1] == (key, JsonModel::Text(effort_name(e))));
        assert(id_of(efforts[n - 1].0) is Some);
        law_effort_names_are_read_back(e);
        let front = efforts.take(n - 1);
        assert forall|i: int| 0 <= i < front.len() implies text_lt(
            (#[trigger] front[i]).0,
            key,
        ) by {
            assert(front[i] == efforts[i]);
        }
        lemma_put_last(front, key, e);
        assert(front.push((key, e)) =~= efforts.take(n as int));
    }
}

proof fn lemma_put_last(entries: Seq<(Seq<char>, Effort)>, key: Seq<char>, e: Effort)
    requires
        forall|i: int| 0 <= i < entries.len() ==> text_lt((#[trigger] entries[i]).0, key),
    ensures
        put(entries, key, e) == entries.push((key, e)),
    decreases entries.len(),
{
    if entries.len() == 0 {
        assert(seq![(key, e)] + entries =~= entries.push((key, e)));
    } else {
        assert(text_lt(entries[0].0, key));
        lemma_text_lt_irreflexive(key);
        if text_lt(key, entries[0].0) {
            lemma_text_lt_transitive(key, entries[0].0, key);
        }
        let rest = entries.drop_first();
        assert forall|i: int| 0 <= i < rest.len() implies text_lt(
            (#[trigger] rest[i]).0,
            key,
        ) by {
            assert(rest[i] == entries[i + 1]);
        }
        lemma_put_last(rest, key, e);
        assert(seq![entries[0]] + rest.push((key, e)) =~= entries.push((key, e)));
    }
}

/// A selected model is an available one, and one is selected whenever there is
/// any.
pub proof fn law_selection_is_available(
    available: Seq<IdModel>,
    default_model: Option<IdModel>,
    last_used: Option<IdModel>,
)
    ensures
        selected_model(available, default_model, last_used) is Some <==> available.len() > 0,
        selected_model(available, default_model, last_used) matches Some(m) ==> available.contains(
            m,
        ),
{
    if let Some(m) = if_available(default_model, available) {
        assert(available.contains(m));
    } else if let Some(m) = if_available(last_used, available) {
        assert(available.contains(m));
    } else if available.len() > 0 {
        assert(available.contains(available[0]));
    }
}

/// The effort a model starts with is one of its own, if it has any.
pub proof fn law_effort_is_allowed(
    allowed: Seq<Effort>,
    default_effort: Option<Effort>,
    last_used: Option<Effort>,
)
    ensures
        allowed.len() > 0 ==> allowed.contains(starting_effort(allowed, default_effort, last_used)),
        allowed.len() == 0 ==> starting_effort(allowed, default_effort, last_used) is Off,
{
    if allowed.len() > 0 {
        assert(allowed.contains(allowed[0]));
    }
}

/// A list of efforts has no repetitions, and loses none.
pub proof fn law_efforts_are_distinct(all: Seq<Effort>)
    ensures
        distinct(all).no_duplicates(),
        forall|e: Effort| #[trigger] distinct(all).contains(e) <==> all.contains(e),
    decreases all.len(),
{
    if all.len() > 0 {
        let front = all.drop_last();
        let before = distinct(front);
        law_efforts_are_distinct(front);
        let out = distinct(all);
        assert forall|e: Effort| #[trigger] out.contains(e) <==> all.contains(e) by {
            assert(before.contains(e) <==> front.contains(e));
            if out.contains(e) {
                let i = choose|i: int| 0 <= i < out.len() && out[i] == e;
                if i < before.len() {
                    assert(before[i] == e);
                    assert(before.contains(e));
                    let k = choose|k: int| 0 <= k < front.len() && front[k] == e;
                    assert(all[k] == e);
                } else {
                    assert(all[all.len() - 1] == e);
                }
            }
            if all.contains(e) {
                let i = choose|i: int| 0 <= i < all.len() && all[i] == e;
                if i < front.len() {
                    assert(front[i] == e);
                    assert(before.contains(e));
                    let k = choose|k: int| 0 <= k < before.len() && before[k] == e;
                    assert(out[k] == e);
                } else if before.contains(e) {
                    let k = choose|k: int| 0 <= k < before.len() && before[k] == e;
                    assert(out[k] == e);
                } else {
                    assert(out[out.len() - 1] == e);
                }
            }
        }
    }
}

/// The available models are those that some provider offers, each under the
/// provider's name, and no others.
pub proof fn law_every_configured_model_is_available(
    registry: Seq<ProviderModel>,
    available: Seq<IdModel>,
    id: IdModel,
)
    requires
        available.to_multiset() == all_ids(registry).to_multiset(),
    ensures
        available.contains(id) <==> exists|i: int, j: int|
            0 <= i < registry.len() && 0 <= j < registry[i].models.len() && #[trigger] offers(
                registry,
                i,
                j,
            ) == id,
{
    broadcast use vstd::seq_lib::group_to_multiset_ensures;

    assert(available.contains(id) <==> available.to_multiset().count(id) > 0);
    assert(all_ids(registry).contains(id) <==> all_ids(registry).to_multiset().count(id) > 0);
    lemma_all_ids(registry, id);
}

/// Model `j` of provider `i`.
pub open spec fn offers(registry: Seq<ProviderModel>, i: int, j: int) -> IdModel {
    IdModel { provider: registry[i].name, model: registry[i].models[j].id }
}

proof fn lemma_all_ids(registry: Seq<ProviderModel>, id: IdModel)
    ensures
        all_ids(registry).contains(id) <==> exists|i: int, j: int|
            0 <= i < registry.len() && 0 <= j < registry[i].models.len() && #[trigger] offers(
                registry,
                i,
                j,
            ) == id,
    decreases registry.len(),
{
    let all = all_ids(registry);
    if registry.len() > 0 {
        let front = registry.drop_last();
        let n = registry.len() - 1;
        let before = all_ids(front);
        let own = provider_ids(registry.last());
        lemma_all_ids(front, id);
        if all.contains(id) {
            let k = choose|k: int| 0 <= k < all.len() && all[k] == id;
            if k < before.len() {
                assert(before[k] == id);
                assert(before.contains(id));
                let (i, j) = choose|i: int, j: int|
                    0 <= i < front.len() && 0 <= j < front[i].models.len() && #[trigger] offers(
                        front,
                        i,
                        j,
                    ) == id;
                assert(offers(registry, i, j) == id);
            } else {
                assert(own[k - before.len()] == id);
                assert(offers(registry, n, k - before.len()) == id);
            }
        }
        if exists|i: int, j: int|
            0 <= i < registry.len() && 0 <= j < registry[i].models.len() && #[trigger] offers(
                registry,
                i,
                j,
            ) == id {
            let (i, j) = choose|i: int, j: int|
                0 <= i < registry.len() && 0 <= j < registry[i].models.len() && #[trigger] offers(
                    registry,
                    i,
                    j,
                ) == id;
            if i < n {
                assert(offers(front, i, j) == id);
                assert(before.contains(id));
                let k = choose|k: int| 0 <= k < before.len() && before[k] == id;
                assert(all[k] == id);
            } else {
                assert(own[j] == id);
                assert(all[before.len() + j] == id);
            }
        }
    }
}

/// An available default model is the one to start with. Without one it is the
/// model used last, and where that is not available either, the first one.
pub proof fn law_selection_prefers_the_default(
    available: Seq<IdModel>,
    default_model: Option<IdModel>,
    last_used: Option<IdModel>,
    id: IdModel,
)
    requires
        available.contains(id),
    ensures
        selected_model(available, Some(id), last_used) == Some(id),
        (default_model matches Some(d) ==> !available.contains(d)) ==> selected_model(
            available,
            default_model,
            Some(id),
        ) == Some(id),
        (default_model matches Some(d) ==> !available.contains(d)) && (last_used matches Some(l)
            ==> !available.contains(l)) ==> selected_model(available, default_model, last_used)
            == Some(available[0]),
{
}

/// An allowed default effort is the one to start with. Without a default it is
/// the effort used last, and without either the one in the middle of the list.
pub proof fn law_wanted_effort_is_used(
    allowed: Seq<Effort>,
    last_used: Option<Effort>,
    effort: Effort,
    k: int,
)
    requires
        allowed.contains(effort),
        allowed.len() == 2 * k || allowed.len() == 2 * k + 1,
    ensures
        starting_effort(allowed, Some(effort), last_used) == effort,
        starting_effort(allowed, None, Some(effort)) == effort,
        starting_effort(allowed, None, None) == allowed[k],
{
    assert(allowed.contains(allowed[k]));
}

/// An effort that is not allowed becomes the next lower one if it is the highest
/// and that one is allowed, else none, and where thinking cannot be switched off,
/// the first of the list.
pub proof fn law_forbidden_effort_is_lowered(allowed: Seq<Effort>, effort: Effort)
    requires
        !allowed.contains(effort),
    ensures
        effort is XHigh && allowed.contains(Effort::High) ==> clamped(effort, allowed) is High,
        !(effort is XHigh && allowed.contains(Effort::High)) && allowed.contains(Effort::Off)
            ==> clamped(effort, allowed) is Off,
        !(effort is XHigh && allowed.contains(Effort::High)) && !allowed.contains(Effort::Off)
            && allowed.len() > 0 ==> clamped(effort, allowed) == allowed[0],
        allowed.len() == 0 ==> clamped(effort, allowed) is Off,
{
}

/// Efforts that are all different keep their order.
pub proof fn law_different_efforts_keep_their_order(all: Seq<Effort>)
    requires
        all.no_duplicates(),
    ensures
        distinct(all) == all,
    decreases all.len(),
{
    if all.len() > 0 {
        let front = all.drop_last();
        assert forall|i: int, j: int|
            0 <= i < front.len() && 0 <= j < front.len() && i != j implies front[i] != front[j] by {
            assert(all[i] != all[j]);
        }
        law_different_efforts_keep_their_order(front);
        if front.contains(all.last()) {
            let i = choose|i: int| 0 <= i < front.len() && front[i] == all.last();
            assert(all[i] == all[all.len() - 1]);
        }
        assert(front.push(all.last()) =~= all);
    }
}

proof fn lemma_provider_named(registry: Seq<ProviderModel>, i: int)
    requires
        0 <= i < registry.len(),
        forall|k: int| 0 <= k < i ==> (#[trigger] registry[k]).name != registry[i].name,
    ensures
        provider_named(registry, registry[i].name) == Some(registry[i]),
    decreases i,
{
    if i > 0 {
        let rest = registry.drop_first();
        assert(registry[0].name != registry[i].name);
        assert forall|k: int| 0 <= k < i - 1 implies (#[trigger] rest[k]).name != rest[i
            - 1].name by {
            assert(rest[k] == registry[k + 1]);
        }
        lemma_provider_named(rest, i - 1);
    }
}

proof fn lemma_no_provider_named(registry: Seq<ProviderModel>, name: Seq<char>)
    requires
        forall|k: int| 0 <= k < registry.len() ==> (#[trigger] registry[k]).name != name,
    ensures
        provider_named(registry, name) is None,
    decreases registry.len(),
{
    if registry.len() > 0 {
        let rest = registry.drop_first();
        assert(registry[0].name != name);
        assert forall|k: int| 0 <= k < rest.len() implies (#[trigger] rest[k]).name != name by {
            assert(rest[k] == registry[k + 1]);
        }
        lemma_no_provider_named(rest, name);
    }
}

proof fn lemma_model_named(models: Seq<ConfigModel>, j: int)
    requires
        0 <= j < models.len(),
        forall|k: int| 0 <= k < j ==> (#[trigger] models[k]).id != models[j].id,
    ensures
        model_named(models, models[j].id) == Some(models[j]),
    decreases j,
{
    if j > 0 {
        let rest = models.drop_first();
        assert(models[0].id != models[j].id);
        assert forall|k: int| 0 <= k < j - 1 implies (#[trigger] rest[k]).id != rest[j - 1].id by {
            assert(rest[k] == models[k + 1]);
        }
        lemma_model_named(rest, j - 1);
    }
}

/// What is configured of a model is what holds of it: the size of its context,
/// and its efforts. Without a list of its own it knows none where its provider
/// knows none, and else the five usual ones, and the highest if it says so.
pub proof fn law_configured_model_is_as_configured(
    registry: Seq<ProviderModel>,
    i: int,
    j: int,
)
    requires
        0 <= i < registry.len(),
        0 <= j < registry[i].models.len(),
        forall|k: int| 0 <= k < i ==> (#[trigger] registry[k]).name != registry[i].name,
        forall|k: int|
            0 <= k < j ==> (#[trigger] registry[i].models[k]).id != registry[i].models[j].id,
    ensures
        ({
            let provider = registry[i];
            let model = provider.models[j];
            let efforts = model_efforts(registry, offers(registry, i, j));
            &&& context_window(registry, offers(registry, i, j)) == model.context_window
            &&& model.reasoning_efforts matches Some(own) ==> (own.no_duplicates() ==> efforts
                == own) && forall|e: Effort| #[trigger] efforts.contains(e) <==> own.contains(e)
            &&& model.reasoning_efforts is None && !provider.supports_reasoning_effort ==> efforts
                == seq![Effort::Off]
            &&& model.reasoning_efforts is None && provider.supports_reasoning_effort
                ==> efforts.len() == if model.supports_xhigh {
                6nat
            } else {
                5nat
            }
            &&& model.reasoning_efforts is None && provider.supports_reasoning_effort ==> efforts[0]
                is Off && efforts[1] is Minimal && efforts[2] is Low && efforts[3] is Medium
                && efforts[4] is High
            &&& model.reasoning_efforts is None && provider.supports_reasoning_effort
                && model.supports_xhigh ==> efforts[5] is XHigh
        }),
{
    lemma_provider_named(registry, i);
    lemma_model_named(registry[i].models, j);
    if let Some(own) = registry[i].models[j].reasoning_efforts {
        law_efforts_are_distinct(own);
        if own.no_duplicates() {
            law_different_efforts_keep_their_order(own);
        }
    }
}

/// Of a model whose provider is unknown nothing is known.
pub proof fn law_nothing_is_known_of_unknown_providers(registry: Seq<ProviderModel>, id: IdModel)
    requires
        forall|k: int| 0 <= k < registry.len() ==> (#[trigger] registry[k]).name != id.provider,
    ensures
        context_window(registry, id) is None,
        model_efforts(registry, id).len() == 0,
{
    lemma_no_provider_named(registry, id.provider);
}

/// The percentage is that of the tokens in the context, rounded down; a full
/// context counts as all of it, and one of unknown size as empty.
pub proof fn law_percentage_is_rounded_down(input_tokens: u64, context_window: u64)
    requires
        input_tokens * 100 <= u64::MAX,
    ensures
        context_window == 0 ==> percent_used(input_tokens, context_window) == 0,
        0 < context_window <= input_tokens ==> percent_used(input_tokens, context_window) == 100,
        input_tokens < context_window ==> percent_used(input_tokens, context_window)
            * context_window <= input_tokens * 100 < (percent_used(input_tokens, context_window)
            + 1) * context_window,
{
    let p = input_tokens * 100;
    let w = context_window as int;
    if w > 0 {
        let q = p / w;
        assert(q * w <= p < (q + 1) * w) by (nonlinear_arith)
            requires
                q == p / w,
                w > 0,
        ;
        if input_tokens < context_window {
            assert(q < 100) by (nonlinear_arith)
                requires
                    q * w <= p,
                    p < 100 * w,
                    w > 0,
            ;
        } else {
            assert(q >= 100) by (nonlinear_arith)
                requires
                    p < (q + 1) * w,
                    p >= 100 * w,
                    w > 0,
            ;
        }
    }
}

/// Models stand in the order of their providers' names, and those of one
/// provider in the order of their own.
pub proof fn law_models_are_ordered_by_provider_and_name(a: IdModel, b: IdModel)
    ensures
        text_lt(a.provider, b.provider) ==> id_lt(a, b) && !id_lt(b, a),
        a.provider == b.provider ==> id_lt(a, b) == text_lt(a.model, b.model),
        a == b ==> !id_lt(a, b),
{
    lemma_id_order(a, b, a);
    lemma_text_lt_irreflexive(a.provider);
}

/// What was saved of a model is found again: its own effort is the one that was
/// saved last, and those of all other models stay.
pub proof fn law_saving_keeps_other_efforts(
    before: Seq<(Seq<char>, Effort)>,
    model: IdModel,
    effort: Effort,
    other: IdModel,
)
    requires
        ordered(before),
        is_model_id(model),
        is_model_id(other),
        other != model,
    ensures
        lookup(efforts_to_save(before, Some(model), effort), id_text(model)) == Some(effort),
        lookup(efforts_to_save(before, Some(model), effort), id_text(other)) == lookup(
            before,
            id_text(other),
        ),
        efforts_to_save(before, None, effort) == before,
{
    law_model_ids_are_read_back(model);
    law_model_ids_are_read_back(other);
    crate::table::law_put_binds_one_key(before, id_text(model), effort, id_text(other));
}

/// A model is written as its provider, a slash and its own name, which may hold
/// slashes of its own.
pub proof fn law_first_slash_ends_the_provider(provider: Seq<char>, model: Seq<char>)
    requires
        is_provider_name(provider),
        model.len() > 0,
    ensures
        id_of(provider + seq!['/'] + model) == Some(IdModel { provider, model }),
        id_text(IdModel { provider, model }) == provider + seq!['/'] + model,
{
    let id = IdModel { provider, model };
    law_model_ids_are_read_back(id);
    assert(id_text(id) =~= provider + seq!['/'] + model);
}

/// The saved state is an object that holds the model under `last_selected_model`
/// and the efforts, by model, under `last_efforts`.
pub proof fn law_saved_state_has_two_members(
    model: Option<IdModel>,
    efforts: Seq<(Seq<char>, Effort)>,
    i: int,
)
    ensures
        state_to_save(model, efforts).get("last_selected_model"@) == Some(
            JsonModel::Text(
                match model {
                    Some(m) => m.provider + seq!['/'] + m.model,
                    None => Seq::empty(),
                },
            ),
        ),
        state_to_save(model, efforts).get("last_efforts"@) matches Some(JsonModel::Object(all))
            && all.len() == efforts.len() && (0 <= i < efforts.len() ==> all[i] == (
            efforts[i].0,
            JsonModel::Text(effort_name(efforts[i].1)),
        )),
{
    let state = state_to_save(model, efforts);
    let entries = state->Object_0;
    lemma_member_order();
    lemma_text_lt_irreflexive("last_efforts"@);
    assert("last_efforts"@ != "last_selected_model"@);
    assert(entries.drop_first()[0] == entries[1]);
    reveal_with_fuel(member, 3);
    if let Some(m) = model {
        assert(id_text(m) =~= m.provider + seq!['/'] + m.model);
    }
    let all = text_object(named_efforts(efforts))->Object_0;
    if 0 <= i < efforts.len() {
        assert(all[i] == crate::json::text_member(named_efforts(efforts)[i]));
    }
}

} // verus!
