//! Registry of forecast model specifications, keyed by normalized model name.
use vstd::prelude::*;
use crate::error::{invalid_input, outcome, CartoBoostError, Result};
use crate::lex::{
    lemma_lex_asymmetric, lemma_lex_irreflexive, lemma_lex_total, lemma_lex_transitive,
    lex_increasing, lex_lt, str_lt,
};
use crate::text::{is_blank, join3, trim_str, trimmed};

verus! {

/// A JSON object as `serde_json` holds it; carried through unchanged.
#[verifier::external_type_specification]
#[verifier::external_body]
#[verifier::reject_recursive_types(K)]
#[verifier::reject_recursive_types(V)]
pub struct ExJsonMap<K, V>(serde_json::Map<K, V>);

/// A JSON value as `serde_json` holds it; carried through unchanged.
#[verifier::external_type_specification]
#[verifier::external_body]
pub struct ExJsonValue(serde_json::Value);

/// What a JSON object holds, each value read as `serde_json::Value::as_u64`
/// reads it: `Some(n)` for a value that is an unsigned 64-bit integer, `None`
/// for any other value. Its domain is the object's set of keys.
pub uninterp spec fn json_object_u64s(object: serde_json::Map<String, serde_json::Value>) -> Map<
    Seq<char>,
    Option<u64>,
>;

/// The keys of a JSON object.
pub open spec fn json_object_keys(object: serde_json::Map<String, serde_json::Value>) -> Set<Seq<char>> {
    json_object_u64s(object).dom()
}

/// `serde_json::Map::new`: a new JSON object, which holds no key.
#[verifier::external_body]
fn empty_json_object() -> (object: serde_json::Map<String, serde_json::Value>)
    ensures
        json_object_u64s(object).dom() == Set::<Seq<char>>::empty(),
{
    serde_json::Map::new()
}

/// `serde_json::Map::get` of `key`, its value read by `serde_json::Value::as_u64`:
/// `None` when the object does not hold the key, else `Some` of what `as_u64`
/// gives for the value stored under it.
#[verifier::external_body]
fn json_object_get_u64(object: &serde_json::Map<String, serde_json::Value>, key: &str) -> (found: Option<
    Option<u64>,
>)
    ensures
        found == (if json_object_u64s(*object).dom().contains(key@) {
            Some(json_object_u64s(*object)[key@])
        } else {
            None
        }),
{
    object.get(key).map(serde_json::Value::as_u64)
}

/// `serde_json::Map::clone`: a copy of the object holding the same entries.
#[verifier::external_body]
fn json_object_clone(object: &serde_json::Map<String, serde_json::Value>) -> (copy: serde_json::Map<
    String,
    serde_json::Value,
>)
    ensures
        copy == *object,
{
    object.clone()
}

/// What the parameter map of `spec` holds under `param`: `None` when the
/// parameter is missing, else whether its value is an unsigned integer.
pub open spec fn param_lookup(spec: ForecastModelSpec, param: Seq<char>) -> Option<Option<u64>> {
    if json_object_u64s(spec.params).dom().contains(param) {
        Some(json_object_u64s(spec.params)[param])
    } else {
        None
    }
}

/// What reading an integer parameter yields from what the parameter map holds
/// under its name: `None` when the parameter is missing, `Some(None)` when it is
/// not an unsigned integer, `Some(Some(v))` otherwise.
pub open spec fn usize_param_outcome(
    model_name: Seq<char>,
    param: Seq<char>,
    found: Option<Option<u64>>,
    required: bool,
) -> core::result::Result<Option<usize>, Seq<char>> {
    match found {
        None => if required {
            Err(model_name + " requires integer param '"@ + param + "'"@)
        } else {
            Ok(None)
        },
        Some(None) => if required {
            Err(model_name + " requires integer param '"@ + param + "'"@)
        } else {
            Err(model_name + " param '"@ + param + "' must be an integer"@)
        },
        Some(Some(value)) => if value <= usize::MAX {
            Ok(Some(value as usize))
        } else {
            Err(param + " is too large for this platform"@)
        },
    }
}

/// Turns what the parameter map holds under `param` into a `usize` parameter of
/// the model `model_name`; a missing parameter is an error when `required`.
pub fn usize_param_from(model_name: &str, param: &str, found: Option<Option<u64>>, required: bool) -> (r: Result<
    Option<usize>,
>)
    ensures
        outcome(r) == usize_param_outcome(model_name@, param@, found, required),
{
    match found {
        None => {
            if required {
                Err(CartoBoostError::InvalidInput(join3(model_name, " requires integer param '", param).concat("'")))
            } else {
                Ok(None)
            }
        },
        Some(None) => {
            if required {
                Err(CartoBoostError::InvalidInput(join3(model_name, " requires integer param '", param).concat("'")))
            } else {
                Err(CartoBoostError::InvalidInput(join3(model_name, " param '", param).concat("' must be an integer")))
            }
        },
        Some(Some(value)) => {
            if value <= usize::MAX as u64 {
                Ok(Some(value as usize))
            } else {
                Err(CartoBoostError::InvalidInput(String::from_str(param).concat(" is too large for this platform")))
            }
        },
    }
}

/// Reads the integer parameter `param` of a model specification; a missing
/// parameter, or one that is not an unsigned integer, is an error.
pub fn required_usize_param(spec: &ForecastModelSpec, param: &str) -> (r: Result<usize>)
    ensures
        outcome(r) == match usize_param_outcome(spec.name@, param@, param_lookup(*spec, param@), true) {
            Ok(value) => Ok::<usize, Seq<char>>(value->Some_0),
            Err(message) => Err::<usize, Seq<char>>(message),
        },
{
    let found = json_object_get_u64(&spec.params, param);
    match usize_param_from(spec.name.as_str(), param, found, true) {
        Ok(Some(value)) => Ok(value),
        Ok(None) => Err(CartoBoostError::InvalidInput(join3(spec.name.as_str(), " requires integer param '", param).concat("'"))),
        Err(e) => Err(e),
    }
}

/// Reads the optional integer parameter `param` of a model specification; a
/// missing parameter gives `None`, one that is not an unsigned integer an error.
pub fn optional_usize_param(spec: &ForecastModelSpec, param: &str) -> (r: Result<Option<usize>>)
    ensures
        outcome(r) == usize_param_outcome(spec.name@, param@, param_lookup(*spec, param@), false),
{
    let found = json_object_get_u64(&spec.params, param);
    usize_param_from(spec.name.as_str(), param, found, false)
}

/// What normalizing a model name yields: the trimmed name, unless it is blank.
pub open spec fn name_outcome(name: Seq<char>) -> core::result::Result<Seq<char>, Seq<char>> {
    if is_blank(name) || trimmed(name).len() == 0 {
        Err("forecast model name must be non-empty"@)
    } else {
        Ok(trimmed(name))
    }
}

/// Trims a model name and rejects a blank one.
pub fn normalize_name(name: &str) -> (r: Result<String>)
    ensures
        match r {
            Ok(normalized) => name_outcome(name@) == Ok::<Seq<char>, Seq<char>>(normalized@),
            Err(e) => name_outcome(name@) == Err::<Seq<char>, Seq<char>>(e.text()),
        },
{
    proof {
        crate::text::lemma_trimmed_empty_iff_blank(name@);
    }
    let text = trim_str(name);
    if text.is_empty() {
        return Err(invalid_input("forecast model name must be non-empty"));
    }
    Ok(String::from_str(text))
}

/// A named forecast model with its parameters and metadata as JSON objects.
#[derive(Debug)]
pub struct ForecastModelSpec {
    pub name: String,
    pub params: serde_json::Map<String, serde_json::Value>,
    pub metadata: serde_json::Map<String, serde_json::Value>,
}

impl ForecastModelSpec {
    /// Specification with a normalized name and no parameters or metadata.
    pub fn new(name: String) -> (r: Result<Self>)
        ensures
            match r {
                Ok(spec) => name_outcome(name@) == Ok::<Seq<char>, Seq<char>>(spec.name@) && json_object_keys(
                    spec.params,
                ) == Set::<Seq<char>>::empty() && json_object_keys(spec.metadata) == Set::<Seq<char>>::empty(),
                Err(e) => name_outcome(name@) == Err::<Seq<char>, Seq<char>>(e.text()),
            },
    {
        let name = normalize_name(name.as_str())?;
        Ok(Self { name, params: empty_json_object(), metadata: empty_json_object() })
    }

    /// The same specification with `params` as its parameters.
    pub fn with_params(self, params: serde_json::Map<String, serde_json::Value>) -> (spec: Self)
        ensures
            spec.name@ == self.name@,
            spec.params == params,
            spec.metadata == self.metadata,
    {
        let mut spec = self;
        spec.params = params;
        spec
    }
}

/// A model specification together with the factory that builds the model.
pub struct RegisteredForecastModel<F> {
    spec: ForecastModelSpec,
    factory: F,
}

impl<F> RegisteredForecastModel<F> {
    /// The specification.
    pub closed spec fn spec_of(&self) -> ForecastModelSpec {
        self.spec
    }

    /// The factory.
    pub closed spec fn factory_of(&self) -> F {
        self.factory
    }

    /// Pairs a specification with its factory.
    pub fn new(spec: ForecastModelSpec, factory: F) -> (model: Self)
        ensures
            model.spec_of() == spec,
            model.factory_of() == factory,
    {
        Self { spec, factory }
    }

    /// The specification.
    pub fn spec(&self) -> (spec: &ForecastModelSpec)
        ensures
            *spec == self.spec_of(),
    {
        &self.spec
    }

    /// The factory.
    pub fn factory(&self) -> (factory: &F)
        ensures
            *factory == self.factory_of(),
    {
        &self.factory
    }

    /// Builds the model: calls the factory on the specification.
    pub fn create<T>(&self) -> (model: Result<T>) where F: Fn(&ForecastModelSpec) -> Result<T>
        requires
            call_requires(self.factory_of(), (&self.spec_of(),)),
        ensures
            call_ensures(self.factory_of(), (&self.spec_of(),), model),
    {
        (self.factory)(&self.spec)
    }
}

/// Whether registering under a taken name fails or replaces the earlier model.
#[derive(Debug, Clone, Copy, PartialEq, Eq, Structural)]
pub enum RegisterMode {
    RejectDuplicate,
    Override,
}

/// Registered forecast models, keyed by normalized name.
pub struct ForecastRegistry<F> {
    models: Vec<RegisteredForecastModel<F>>,
}

/// The model named `name` among `models`, if any.
pub open spec fn lookup_in<F>(models: Seq<RegisteredForecastModel<F>>, name: Seq<char>) -> Option<
    RegisteredForecastModel<F>,
> {
    if exists|i: int| 0 <= i < models.len() && #[trigger] models[i].spec_of().name@ == name {
        Some(models[find_index(models, name)])
    } else {
        None
    }
}

/// A position of `models` whose model is named `name`, when there is one.
pub open spec fn find_index<F>(models: Seq<RegisteredForecastModel<F>>, name: Seq<char>) -> int {
    choose|i: int| 0 <= i < models.len() && #[trigger] models[i].spec_of().name@ == name
}

/// Names of the registered models, in storage order.
pub open spec fn model_names<F>(models: Seq<RegisteredForecastModel<F>>) -> Seq<Seq<char>> {
    models.map_values(|m: RegisteredForecastModel<F>| m.spec_of().name@)
}

impl<F> Default for ForecastRegistry<F> {
    /// An empty registry.
    fn default() -> (registry: Self)
        ensures
            registry.names_view().len() == 0,
            forall|name: Seq<char>| #[trigger] registry.lookup(name) is None,
    {
        Self::new()
    }
}

impl<F> ForecastRegistry<F> {
    /// Models are kept sorted by strictly increasing name.
    #[verifier::type_invariant]
    closed spec fn sorted(&self) -> bool {
        lex_increasing(model_names(self.models@))
    }

    /// Names of the registered models, increasing.
    pub closed spec fn names_view(&self) -> Seq<Seq<char>> {
        model_names(self.models@)
    }

    /// The model registered under `name`, if any.
    pub closed spec fn lookup(&self, name: Seq<char>) -> Option<RegisteredForecastModel<F>> {
        lookup_in(self.models@, name)
    }

    /// An empty registry.
    pub fn new() -> (registry: Self)
        ensures
            registry.names_view().len() == 0,
            forall|name: Seq<char>| #[trigger] registry.lookup(name) is None,
    {
        let registry = Self { models: Vec::new() };
        assert(lex_increasing(model_names(registry.models@)));
        registry
    }

    /// Position of the first model whose name does not sort before `name`.
    fn position(&self, name: &String) -> (position: usize)
        ensures
            position <= self.names_view().len(),
            forall|i: int| 0 <= i < position ==> lex_lt(#[trigger] self.names_view()[i], name@),
            position < self.names_view().len() ==> !lex_lt(self.names_view()[position as int], name@),
    {
        let mut p: usize = 0;
        while p < self.models.len() && str_lt(self.models[p].spec.name.as_str(), name.as_str())
            invariant
                p <= self.models@.len(),
                forall|i: int| 0 <= i < p ==> lex_lt(#[trigger] model_names(self.models@)[i], name@),
            decreases self.models.len() - p,
        {
            p = p + 1;
        }
        p
    }

    proof fn lemma_lookup_at(&self, name: Seq<char>, position: int)
        requires
            self.sorted(),
            0 <= position <= self.names_view().len(),
            forall|i: int| 0 <= i < position ==> lex_lt(#[trigger] self.names_view()[i], name),
            position < self.names_view().len() ==> !lex_lt(self.names_view()[position], name),
        ensures
            self.lookup(name) is Some <==> (position < self.names_view().len()
                && self.names_view()[position] == name),
            self.lookup(name) is Some ==> self.lookup(name) == Some(self.models@[position]),
    {
        let names = self.names_view();
        if exists|i: int| 0 <= i < self.models@.len() && #[trigger] self.models@[i].spec_of().name@
            == name {
            let i = choose|i: int|
                0 <= i < self.models@.len() && #[trigger] self.models@[i].spec_of().name@ == name;
            assert(names[i] == name);
            if i < position {
                assert(lex_lt(names[i], name));
                lemma_lex_irreflexive(name);
            } else if i > position {
                assert(lex_lt(names[position], names[i]));
                lemma_lex_total(names[position], name);
            }
        } else if position < names.len() && names[position] == name {
            assert(self.models@[position].spec_of().name@ == name);
        }
        if position < names.len() && names[position] == name {
            lemma_unique_name(self.models@, name, position);
        }
    }

    /// Whether a model is registered under the normalized `name`.
    pub fn contains(&self, name: &str) -> (found: bool)
        ensures
            found == (name_outcome(name@) is Ok && self.lookup(name_outcome(name@)->Ok_0) is Some),
    {
        proof {
            use_type_invariant(self);
        }
        match normalize_name(name) {
            Err(_) => false,
            Ok(normalized) => {
                let p = self.position(&normalized);
                proof {
                    self.lemma_lookup_at(normalized@, p as int);
                }
                p < self.models.len() && self.models[p].spec.name == normalized
            },
        }
    }

    /// Names of the registered models, increasing.
    pub fn names(&self) -> (names: Vec<String>)
        ensures
            names@.map_values(|name: String| name@) == self.names_view(),
            lex_increasing(self.names_view()),
            forall|name: Seq<char>| #[trigger] self.names_view().contains(name) <==> self.lookup(name) is Some,
    {
        proof {
            use_type_invariant(self);
        }
        let mut names: Vec<String> = Vec::new();
        let mut i: usize = 0;
        while i < self.models.len()
            invariant
                i <= self.models@.len(),
                names@.len() == i,
                names@.map_values(|name: String| name@) == model_names(self.models@).take(i as int),
            decreases self.models.len() - i,
        {
            let ghost before = names@;
            names.push(self.models[i].spec.name.clone());
            assert(names@ == before.push(names@[i as int]));
            assert(names@[i as int]@ == model_names(self.models@)[i as int]);
            assert(names@.map_values(|name: String| name@) =~= model_names(self.models@).take(
                i + 1,
            ));
            i = i + 1;
        }
        assert(model_names(self.models@).take(i as int) =~= model_names(self.models@));
        assert forall|name: Seq<char>| #[trigger] self.names_view().contains(name) <==> self.lookup(name) is Some by {
            if self.names_view().contains(name) {
                let k = choose|k: int| 0 <= k < self.names_view().len() && self.names_view()[k] == name;
                assert(self.models@[k].spec_of().name@ == name);
            }
            if self.lookup(name) is Some {
                let k = choose|k: int| 0 <= k < self.models@.len() && #[trigger] self.models@[k].spec_of().name@ == name;
                assert(self.names_view()[k] == name);
            }
        }
        names
    }

    /// The model registered under the normalized `name`.
    pub fn get(&self, name: &str) -> (r: Result<&RegisteredForecastModel<F>>)
        ensures
            match r {
                Ok(model) => name_outcome(name@) is Ok && self.lookup(name_outcome(name@)->Ok_0)
                    == Some(*model),
                Err(e) => match name_outcome(name@) {
                    Err(message) => e.text() == message,
                    Ok(normalized) => self.lookup(normalized) is None && e.text() == unknown_model_message(
                        normalized,
                        self.names_view(),
                    ),
                },
            },
    {
        proof {
            use_type_invariant(self);
        }
        let normalized = normalize_name(name)?;
        let p = self.position(&normalized);
        proof {
            self.lemma_lookup_at(normalized@, p as int);
        }
        if p < self.models.len() && self.models[p].spec.name == normalized {
            return Ok(&self.models[p]);
        }
        let known = join_names(&self.names());
        let head = join3("forecast model '", normalized.as_str(), "' is not registered; known models: ");
        let message = head.concat(known.as_str());
        assert(message@ =~= unknown_model_message(normalized@, self.names_view()));
        Err(CartoBoostError::InvalidInput(message))
    }

    /// Builds the model registered under the normalized `name` with its own
    /// specification.
    pub fn create<T>(&self, name: &str) -> (model: Result<T>) where F: Fn(&ForecastModelSpec) -> Result<T>
        requires
            forall|n: Seq<char>, s: ForecastModelSpec|
                #![trigger call_requires(self.lookup(n)->Some_0.factory_of(), (&s,))]
                self.lookup(n) is Some ==> call_requires(self.lookup(n)->Some_0.factory_of(), (&s,)),
        ensures
            match name_outcome(name@) {
                Err(message) => model is Err && model->Err_0.text() == message,
                Ok(normalized) => match self.lookup(normalized) {
                    None => model is Err && model->Err_0.text() == unknown_model_message(normalized, self.names_view()),
                    Some(registered) => call_ensures(registered.factory_of(), (&registered.spec_of(),), model),
                },
            },
    {
        let registered = match self.get(name) {
            Ok(registered) => registered,
            Err(e) => {
                return Err(e);
            },
        };
        proof {
            let n = name_outcome(name@)->Ok_0;
            assert(call_requires(self.lookup(n)->Some_0.factory_of(), (&registered.spec_of(),)));
        }
        registered.create()
    }

    /// Builds the model registered under the normalized name of `spec`, with
    /// `spec`'s parameters and metadata under that name.
    pub fn create_from_spec<T>(&self, spec: &ForecastModelSpec) -> (model: Result<T>) where
        F: Fn(&ForecastModelSpec) -> Result<T>,
        requires
            forall|n: Seq<char>, s: ForecastModelSpec|
                #![trigger call_requires(self.lookup(n)->Some_0.factory_of(), (&s,))]
                self.lookup(n) is Some ==> call_requires(self.lookup(n)->Some_0.factory_of(), (&s,)),
        ensures
            match name_outcome(spec.name@) {
                Err(message) => model is Err && model->Err_0.text() == message,
                Ok(normalized) => match self.lookup(normalized) {
                    None => model is Err && model->Err_0.text() == unknown_model_message(normalized, self.names_view()),
                    Some(registered) => exists|given: ForecastModelSpec|
                        {
                            &&& given.name@ == normalized
                            &&& given.params == spec.params
                            &&& given.metadata == spec.metadata
                            &&& call_ensures(registered.factory_of(), (&given,), model)
                        },
                },
            },
    {
        let registered = match self.get(spec.name.as_str()) {
            Ok(registered) => registered,
            Err(e) => {
                return Err(e);
            },
        };
        let name = match normalize_name(spec.name.as_str()) {
            Ok(name) => name,
            Err(e) => {
                return Err(e);
            },
        };
        let given = ForecastModelSpec {
            name,
            params: json_object_clone(&spec.params),
            metadata: json_object_clone(&spec.metadata),
        };
        proof {
            let n = name_outcome(spec.name@)->Ok_0;
            assert(call_requires(self.lookup(n)->Some_0.factory_of(), (&given,)));
        }
        let model = (registered.factory)(&given);
        assert(given.name@ == name_outcome(spec.name@)->Ok_0);
        model
    }

    /// Registers `spec` under its normalized name; a taken name fails under
    /// `RejectDuplicate` and is replaced under `Override`.
    pub fn register(&mut self, spec: ForecastModelSpec, factory: F, mode: RegisterMode) -> (r: Result<
        (),
    >)
        ensures
            match name_outcome(spec.name@) {
                Err(message) => r is Err && r->Err_0.text() == message && *final(self) == *old(
                    self,
                ),
                Ok(name) => if old(self).lookup(name) is Some && mode == RegisterMode::RejectDuplicate {
                    r is Err && r->Err_0.text() == "forecast model '"@ + name
                        + "' is already registered"@ && *final(self) == *old(self)
                } else {
                    &&& r is Ok
                    &&& registered_after(*old(self), *final(self), name, spec, factory)
                    &&& final(self).names_view().to_set() == old(self).names_view().to_set().insert(name)
                    &&& lex_increasing(final(self).names_view())
                },
            },
    {
        proof {
            use_type_invariant(&*self);
        }
        let name = match normalize_name(spec.name.as_str()) {
            Ok(name) => name,
            Err(e) => return Err(e),
        };
        let p = self.position(&name);
        proof {
            self.lemma_lookup_at(name@, p as int);
        }
        let taken = p < self.models.len() && self.models[p].spec.name == name;
        if taken && mode == RegisterMode::RejectDuplicate {
            let message = join3("forecast model '", name.as_str(), "' is already registered");
            return Err(CartoBoostError::InvalidInput(message));
        }
        let ghost name_view = name@;
        let ghost old_models = self.models@;
        let mut spec = spec;
        spec.name = name;
        let entry = RegisteredForecastModel::new(spec, factory);
        let mut models = Vec::new();
        std::mem::swap(&mut models, &mut self.models);
        if taken {
            models.remove(p);
        }
        models.insert(p, entry);
        proof {
            let new_names = model_names(models@);
            let old_names = model_names(old_models);
            assert(new_names[p as int] == name_view);
            if taken {
                assert(models@ =~= old_models.update(p as int, models@[p as int]));
                assert(new_names =~= old_names.update(p as int, name_view));
            } else {
                assert(models@ =~= old_models.insert(p as int, models@[p as int]));
                assert(new_names =~= old_names.insert(p as int, name_view));
            }
            assert forall|i: int, j: int| 0 <= i < j < new_names.len() implies lex_lt(
                #[trigger] new_names[i],
                #[trigger] new_names[j],
            ) by {
                lemma_insert_sorted(old_names, new_names, name_view, p as int, taken, i, j);
            }
        }
        self.models = models;
        proof {
            self.lemma_registered(old_models, name_view, p as int, taken);
            let new_names = model_names(self.models@);
            let old_names = model_names(old_models);
            assert(new_names.to_set() =~= old_names.to_set().insert(name_view)) by {
                assert forall|x: Seq<char>| new_names.to_set().contains(x) implies old_names.to_set().insert(
                    name_view,
                ).contains(x) by {
                    let k = choose|k: int| 0 <= k < new_names.len() && new_names[k] == x;
                    if k != p {
                        if taken {
                            assert(old_names[k] == x);
                        } else if k < p {
                            assert(old_names[k] == x);
                        } else {
                            assert(old_names[k - 1] == x);
                        }
                    }
                }
                assert forall|x: Seq<char>| old_names.to_set().insert(name_view).contains(x) implies new_names.to_set().contains(
                    x,
                ) by {
                    if x == name_view {
                        assert(new_names[p as int] == x);
                    } else {
                        let k = choose|k: int| 0 <= k < old_names.len() && old_names[k] == x;
                        if taken {
                            assert(k != p);
                            assert(new_names[k] == x);
                        } else if k < p {
                            assert(new_names[k] == x);
                        } else {
                            assert(new_names[k + 1] == x);
                        }
                    }
                }
            }
        }
        Ok(())
    }

    proof fn lemma_registered(&self, old_models: Seq<RegisteredForecastModel<F>>, name: Seq<char>, p: int, taken: bool)
        requires
            self.sorted(),
            lex_increasing(model_names(old_models)),
            0 <= p <= old_models.len(),
            forall|i: int| 0 <= i < p ==> lex_lt(#[trigger] model_names(old_models)[i], name),
            p < old_models.len() ==> !lex_lt(model_names(old_models)[p], name),
            taken == (p < old_models.len() && model_names(old_models)[p] == name),
            taken ==> self.models@ == old_models.update(p, self.models@[p]),
            !taken ==> self.models@ == old_models.insert(p, self.models@[p]),
            self.models@[p].spec_of().name@ == name,
        ensures
            self.lookup(name) == Some(self.models@[p]),
            forall|other: Seq<char>|
                other != name ==> #[trigger] self.lookup(other) == lookup_in(old_models, other),
    {
        assert(self.models@[p].spec_of().name@ == name);
        let names = model_names(self.models@);
        assert(names[p] == name);
        assert forall|i: int| 0 <= i < self.models@.len() && i != p implies #[trigger] self.models@[i].spec_of().name@
            != name by {
            assert(names[i] == self.models@[i].spec_of().name@);
            if i < p {
                assert(lex_lt(names[i], names[p]));
            } else {
                assert(lex_lt(names[p], names[i]));
            }
            lemma_lex_irreflexive(name);
        }
        assert forall|other: Seq<char>| other != name implies #[trigger] self.lookup(other)
            == lookup_in(old_models, other) by {
            if exists|i: int|
                0 <= i < old_models.len() && #[trigger] old_models[i].spec_of().name@ == other {
                let i = choose|i: int|
                    0 <= i < old_models.len() && #[trigger] old_models[i].spec_of().name@ == other;
                let j = if taken {
                    i
                } else if i < p {
                    i
                } else {
                    i + 1
                };
                assert(self.models@[j] == old_models[i]);
                lemma_unique_name(self.models@, other, j);
                lemma_unique_name(old_models, other, i);
            } else {
                if exists|j: int|
                    0 <= j < self.models@.len() && #[trigger] self.models@[j].spec_of().name@
                        == other {
                    let j = choose|j: int|
                        0 <= j < self.models@.len() && #[trigger] self.models@[j].spec_of().name@
                            == other;
                    assert(j != p);
                    let i = if taken {
                        j
                    } else if j < p {
                        j
                    } else {
                        j - 1
                    };
                    assert(old_models[i] == self.models@[j]);
                }
            }
        }
        lemma_unique_name(self.models@, name, p);
    }
}

proof fn lemma_unique_name<F>(models: Seq<RegisteredForecastModel<F>>, name: Seq<char>, i: int)
    requires
        lex_increasing(model_names(models)),
        0 <= i < models.len(),
        models[i].spec_of().name@ == name,
    ensures
        lookup_in(models, name) == Some(models[i]),
{
    let names = model_names(models);
    assert(names[i] == name);
    assert(exists|t: int| 0 <= t < models.len() && #[trigger] models[t].spec_of().name@ == name);
    let k = find_index(models, name);
    assert(names[k] == name);
    if k < i {
        assert(lex_lt(names[k], names[i]));
        lemma_lex_irreflexive(name);
    } else if k > i {
        assert(lex_lt(names[i], names[k]));
        lemma_lex_irreflexive(name);
    }

}

proof fn lemma_insert_sorted(
    old_names: Seq<Seq<char>>,
    new_names: Seq<Seq<char>>,
    name: Seq<char>,
    p: int,
    taken: bool,
    i: int,
    j: int,
)
    requires
        lex_increasing(old_names),
        0 <= p <= old_names.len(),
        forall|k: int| 0 <= k < p ==> lex_lt(#[trigger] old_names[k], name),
        p < old_names.len() ==> !lex_lt(old_names[p], name),
        taken == (p < old_names.len() && old_names[p] == name),
        taken ==> new_names == old_names.update(p, name),
        !taken ==> new_names == old_names.insert(p, name),
        0 <= i < j < new_names.len(),
    ensures
        lex_lt(new_names[i], new_names[j]),
{
    if p < old_names.len() {
        lemma_lex_total(old_names[p], name);
    }
    if taken {
        if i == p {
            assert(lex_lt(old_names[p], old_names[j]));
        } else if j == p {
            assert(lex_lt(old_names[i], old_names[p]));
        } else {
            assert(lex_lt(old_names[i], old_names[j]));
        }
    } else {
        if i < p && j < p {
            assert(lex_lt(old_names[i], old_names[j]));
        } else if i < p && j == p {
        } else if i < p {
            assert(lex_lt(old_names[i], old_names[j - 1]));
        } else if i == p {
            assert(lex_lt(name, old_names[p]));
            if j - 1 > p {
                assert(lex_lt(old_names[p], old_names[j - 1]));
                lemma_lex_transitive(name, old_names[p], old_names[j - 1]);
            }
        } else {
            assert(lex_lt(old_names[i - 1], old_names[j - 1]));
        }
    }
}

/// After registering `spec` under `name`, the registry holds the new model under
/// `name` and every other name keeps its model.
pub open spec fn registered_after<F>(
    before: ForecastRegistry<F>,
    after: ForecastRegistry<F>,
    name: Seq<char>,
    spec: ForecastModelSpec,
    factory: F,
) -> bool {
    &&& after.lookup(name) is Some
    &&& after.lookup(name)->0.spec_of().name@ == name
    &&& after.lookup(name)->0.spec_of().params == spec.params
    &&& after.lookup(name)->0.spec_of().metadata == spec.metadata
    &&& after.lookup(name)->0.factory_of() == factory
    &&& forall|other: Seq<char>| other != name ==> #[trigger] after.lookup(other) == before.lookup(other)
}

/// Reading back a name right after registering it finds the registered model,
/// and registering leaves every other name as it was.
pub proof fn lemma_register_then_lookup<F>(
    before: ForecastRegistry<F>,
    after: ForecastRegistry<F>,
    name: Seq<char>,
    spec: ForecastModelSpec,
    factory: F,
    other: Seq<char>,
)
    requires
        registered_after(before, after, name, spec, factory),
    ensures
        after.lookup(name) is Some,
        after.lookup(name)->0.factory_of() == factory,
        other != name ==> after.lookup(other) == before.lookup(other),
{
}

/// Names joined by `", "`.
pub open spec fn joined(names: Seq<Seq<char>>) -> Seq<char>
    decreases names.len(),
{
    if names.len() == 0 {
        seq![]
    } else if names.len() == 1 {
        names[0]
    } else {
        joined(names.drop_last()) + ", "@ + names.last()
    }
}

/// Error text for a lookup of an unregistered name.
pub open spec fn unknown_model_message(name: Seq<char>, names: Seq<Seq<char>>) -> Seq<char> {
    "forecast model '"@ + name + "' is not registered; known models: "@ + joined(names)
}

fn join_names(names: &Vec<String>) -> (text: String)
    ensures
        text@ == joined(names@.map_values(|name: String| name@)),
{
    let ghost views = names@.map_values(|name: String| name@);
    let mut text = String::new();
    let mut i: usize = 0;
    while i < names.len()
        invariant
            i <= names@.len(),
            views == names@.map_values(|name: String| name@),
            text@ == joined(views.take(i as int)),
        decreases names.len() - i,
    {
        assert(views.take(i + 1).drop_last() =~= views.take(i as int));
        if i == 0 {
            assert(views.take(0) =~= Seq::<Seq<char>>::empty());
            text = text.concat(names[i].as_str());
            assert(text@ =~= joined(views.take(1)));
        } else {
            text = text.concat(", ").concat(names[i].as_str());
        }
        i = i + 1;
    }
    assert(views.take(names@.len() as int) =~= views);
    text
}

} // verus!
