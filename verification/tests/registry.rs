use cartoboost_core::registry::{
    normalize_name, optional_usize_param, required_usize_param, usize_param_from,
    ForecastModelSpec, ForecastRegistry, RegisterMode,
};
use cartoboost_core::error::CartoBoostError;

fn create_naive(spec: &ForecastModelSpec) -> String {
    spec.name.clone()
}

type Factory = fn(&ForecastModelSpec) -> String;

#[test]
fn registry_rejects_duplicates_unless_override() {
    let mut registry: ForecastRegistry<Factory> = ForecastRegistry::new();
    registry
        .register(
            ForecastModelSpec::new("naive".to_string()).expect("spec"),
            create_naive,
            RegisterMode::RejectDuplicate,
        )
        .expect("first register");

    let duplicate = registry.register(
        ForecastModelSpec::new("naive".to_string()).expect("spec"),
        create_naive,
        RegisterMode::RejectDuplicate,
    );

    assert!(duplicate.is_err());
    registry
        .register(
            ForecastModelSpec::new("naive".to_string()).expect("spec"),
            create_naive,
            RegisterMode::Override,
        )
        .expect("override");
}

#[test]
fn registry_duplicate_message_names_the_model() {
    let mut registry: ForecastRegistry<Factory> = ForecastRegistry::new();
    let spec = ForecastModelSpec::new(" naive ".to_string()).expect("spec");
    registry.register(spec, create_naive, RegisterMode::RejectDuplicate).expect("first");
    let err = registry
        .register(
            ForecastModelSpec::new("naive".to_string()).expect("spec"),
            create_naive,
            RegisterMode::RejectDuplicate,
        )
        .unwrap_err();
    assert_eq!(err.message(), "invalid input: forecast model 'naive' is already registered");
}

#[test]
fn registry_lists_names_in_order_and_looks_them_up() {
    let mut registry: ForecastRegistry<Factory> = ForecastRegistry::new();
    for name in ["theta", "arima", "naive"] {
        registry
            .register(
                ForecastModelSpec::new(name.to_string()).expect("spec"),
                create_naive,
                RegisterMode::RejectDuplicate,
            )
            .expect("register");
    }
    assert_eq!(registry.names(), vec!["arima", "naive", "theta"]);
    assert!(registry.contains(" theta "));
    assert!(!registry.contains("ets"));
    assert!(!registry.contains("   "));
    let found = registry.get("  naive").expect("registered");
    assert_eq!(found.spec().name, "naive");
    assert_eq!((found.factory())(found.spec()), "naive");
}

#[test]
fn registry_rejects_unknown_model_names_with_known_list() {
    let mut registry: ForecastRegistry<Factory> = ForecastRegistry::new();
    for name in ["naive", "arima"] {
        registry
            .register(
                ForecastModelSpec::new(name.to_string()).expect("spec"),
                create_naive,
                RegisterMode::RejectDuplicate,
            )
            .expect("register");
    }
    let err = match registry.get("foundation_model") {
        Ok(_) => panic!("unknown model should fail"),
        Err(err) => err,
    };
    assert!(err.message().contains("not registered; known models"));
    assert_eq!(
        err.message(),
        "invalid input: forecast model 'foundation_model' is not registered; known models: arima, naive"
    );
}

#[test]
fn model_names_are_trimmed_and_must_not_be_blank() {
    assert_eq!(normalize_name("  ets\t").unwrap(), "ets");
    let err = normalize_name(" \n ").unwrap_err();
    assert_eq!(err.message(), "invalid input: forecast model name must be non-empty");
    assert!(ForecastModelSpec::new(String::new()).is_err());
}

#[test]
fn spec_params_are_replaced_by_with_params() {
    let mut params = serde_json::Map::new();
    params.insert("season_length".to_string(), serde_json::Value::from(7_u64));
    let spec = ForecastModelSpec::new("seasonal_naive".to_string())
        .expect("spec")
        .with_params(params.clone());
    assert_eq!(spec.name, "seasonal_naive");
    assert_eq!(spec.params, params);
    assert!(spec.metadata.is_empty());
}

#[test]
fn seasonal_naive_requires_season_length_param() {
    let spec = ForecastModelSpec::new("seasonal_naive".to_string()).expect("spec");

    let err = required_usize_param(&spec, "season_length").err().expect("missing param");

    assert!(err.message().contains("seasonal_naive requires integer param"));
}

#[test]
fn integer_params_are_read_from_the_spec() {
    let mut params = serde_json::Map::new();
    params.insert("season_length".to_string(), serde_json::Value::from(7_u64));
    params.insert("p".to_string(), serde_json::Value::from(1.5));
    let spec = ForecastModelSpec::new("arima".to_string()).expect("spec").with_params(params);
    assert_eq!(required_usize_param(&spec, "season_length").unwrap(), 7);
    assert_eq!(optional_usize_param(&spec, "season_length").unwrap(), Some(7));
    assert_eq!(optional_usize_param(&spec, "q").unwrap(), None);
    assert_eq!(
        optional_usize_param(&spec, "p").unwrap_err().message(),
        "invalid input: arima param 'p' must be an integer"
    );
    assert_eq!(
        required_usize_param(&spec, "p").unwrap_err().message(),
        "invalid input: arima requires integer param 'p'"
    );
}

#[test]
fn integer_param_conversion_covers_every_case() {
    assert_eq!(usize_param_from("m", "k", None, false).unwrap(), None);
    assert_eq!(usize_param_from("m", "k", Some(Some(3)), true).unwrap(), Some(3));
    assert_eq!(
        usize_param_from("m", "k", None, true).unwrap_err().message(),
        "invalid input: m requires integer param 'k'"
    );
    assert_eq!(
        usize_param_from("m", "k", Some(None), false).unwrap_err().message(),
        "invalid input: m param 'k' must be an integer"
    );
}

type BuildingFactory = fn(&ForecastModelSpec) -> Result<String, CartoBoostError>;

fn create_seasonal_naive(spec: &ForecastModelSpec) -> Result<String, CartoBoostError> {
    let season_length = required_usize_param(spec, "season_length")?;
    Ok(format!("{} every {season_length}", spec.name))
}

#[test]
fn registry_creates_models_from_stored_and_given_specs() {
    let mut registry: ForecastRegistry<BuildingFactory> = ForecastRegistry::new();
    let mut params = serde_json::Map::new();
    params.insert("season_length".to_string(), serde_json::Value::from(7_u64));
    registry
        .register(
            ForecastModelSpec::new("seasonal_naive".to_string()).expect("spec").with_params(params),
            create_seasonal_naive,
            RegisterMode::RejectDuplicate,
        )
        .expect("register");
    assert_eq!(registry.create(" seasonal_naive ").unwrap(), "seasonal_naive every 7");
    assert_eq!(
        registry.create("theta").unwrap_err().message(),
        "invalid input: forecast model 'theta' is not registered; known models: seasonal_naive"
    );
    assert_eq!(
        registry.create(" ").unwrap_err().message(),
        "invalid input: forecast model name must be non-empty"
    );

    let mut given = ForecastModelSpec::new("seasonal_naive".to_string()).expect("spec");
    given.name = "  seasonal_naive".to_string();
    let mut params = serde_json::Map::new();
    params.insert("season_length".to_string(), serde_json::Value::from(24_u64));
    given.params = params;
    assert_eq!(registry.create_from_spec(&given).unwrap(), "seasonal_naive every 24");
    given.params = serde_json::Map::new();
    assert_eq!(
        registry.create_from_spec(&given).unwrap_err().message(),
        "invalid input: seasonal_naive requires integer param 'season_length'"
    );
    let model = registry.get("seasonal_naive").unwrap();
    assert_eq!(model.create().unwrap(), "seasonal_naive every 7");
}

#[test]
fn registry_names_after_rejected_and_overriding_registration() {
    let mut registry: ForecastRegistry<Factory> = ForecastRegistry::new();
    let spec = || ForecastModelSpec::new("naive".to_string()).expect("spec");
    registry.register(spec(), create_naive, RegisterMode::RejectDuplicate).expect("first");
    assert!(registry.register(spec(), create_naive, RegisterMode::RejectDuplicate).is_err());
    assert_eq!(registry.names(), vec!["naive".to_string()]);
    registry.register(spec(), create_naive, RegisterMode::Override).expect("override");
    assert_eq!(registry.names(), vec!["naive".to_string()]);
}

#[test]
fn trim_str_removes_unicode_white_space_at_both_ends() {
    assert_eq!(cartoboost_core::text::trim_str(" \t seasonal naive\u{3000}\n"), "seasonal naive");
    assert_eq!(cartoboost_core::text::trim_str("\u{a0} "), "");
    assert_eq!(cartoboost_core::text::trim_str("naive"), "naive");
}

