use tau::effort::{effort_wire, parse_effort, Effort};
use tau::json::parse_json;
use tau::model::{
    available_models, clamp_effort, context_percent_used, efforts_for_model, harness_state,
    last_efforts, last_selected_model, load_last_efforts, load_last_selected_model,
    load_model_list, middle_effort, model_context_window, select_model, selected_effort_for_model,
    ModelConfig, ModelId, ModelRegistry, ProviderConfig,
};

const USUAL: [Effort; 5] =
    [Effort::Off, Effort::Minimal, Effort::Low, Effort::Medium, Effort::High];

fn id(text: &str) -> ModelId {
    ModelId::parse(text).unwrap()
}

fn config(id: &str) -> ModelConfig {
    ModelConfig {
        id: id.to_owned(),
        context_window: None,
        reasoning_efforts: None,
        supports_xhigh: false,
    }
}

fn registry() -> ModelRegistry {
    let mut big = config("big");
    big.supports_xhigh = true;
    big.context_window = Some(1000);
    let mut odd = config("odd");
    odd.reasoning_efforts = Some(vec![Effort::High, Effort::Low, Effort::High]);
    ModelRegistry {
        providers: vec![
            ProviderConfig {
                name: "openai".to_owned(),
                supports_reasoning_effort: true,
                models: vec![big, config("a/b"), odd],
            },
            ProviderConfig {
                name: "local".to_owned(),
                supports_reasoning_effort: false,
                models: vec![config("z")],
            },
        ],
    }
}

fn texts(ids: &[ModelId]) -> Vec<String> {
    ids.iter().map(|m| m.text()).collect()
}

#[test]
fn models_are_written_and_read() {
    assert_eq!(id("openai/a/b").provider, "openai");
    assert_eq!(id("openai/a/b").model, "a/b");
    assert_eq!(id("openai/a/b").text(), "openai/a/b");
    for bad in ["", "openai", "/x", "openai/", "bad name/x"] {
        assert!(ModelId::parse(bad).is_none(), "{bad:?}");
    }
}

#[test]
fn available_models_are_sorted() {
    assert_eq!(
        texts(&available_models(&registry())),
        vec!["local/z", "openai/a/b", "openai/big", "openai/odd"]
    );
}

#[test]
fn the_default_model_comes_before_the_last_one() {
    let available = available_models(&registry());
    let pick = |default: Option<&str>, last: Option<&str>| {
        select_model(&available, default.map(id), last.map(id)).map(|m| m.text())
    };
    assert_eq!(pick(Some("openai/big"), Some("openai/odd")).as_deref(), Some("openai/big"));
    assert_eq!(pick(Some("openai/gone"), Some("openai/odd")).as_deref(), Some("openai/odd"));
    assert_eq!(pick(None, Some("x/gone")).as_deref(), Some("local/z"));
    assert_eq!(pick(None, None).as_deref(), Some("local/z"));
    assert_eq!(select_model(&[], Some(id("a/b")), None), None);
}

#[test]
fn the_model_list_uses_the_saved_state() {
    let state = harness_state(None, Some(&id("openai/odd")), Effort::Low);
    let list = load_model_list(&registry(), None, Some(&state));
    assert_eq!(list.available.len(), 4);
    assert_eq!(list.selected.unwrap().text(), "openai/odd");
    let list = load_model_list(&registry(), None, Some("not json"));
    assert_eq!(list.selected.unwrap().text(), "local/z");
}

#[test]
fn efforts_depend_on_provider_and_model() {
    let r = registry();
    assert_eq!(efforts_for_model(&r, &id("gone/x")), Vec::new());
    assert_eq!(efforts_for_model(&r, &id("local/z")), vec![Effort::Off]);
    assert_eq!(efforts_for_model(&r, &id("openai/a/b")), USUAL.to_vec());
    let mut with_xhigh = USUAL.to_vec();
    with_xhigh.push(Effort::XHigh);
    assert_eq!(efforts_for_model(&r, &id("openai/big")), with_xhigh);
    assert_eq!(efforts_for_model(&r, &id("openai/unlisted")), USUAL.to_vec());
    assert_eq!(efforts_for_model(&r, &id("openai/odd")), vec![Effort::High, Effort::Low]);
}

#[test]
fn contexts_fill_up_to_a_hundred_percent() {
    assert_eq!(model_context_window(&registry(), &id("openai/big")), Some(1000));
    assert_eq!(model_context_window(&registry(), &id("openai/odd")), None);
    assert_eq!(model_context_window(&registry(), &id("gone/odd")), None);
    assert_eq!(context_percent_used(0, 0), 0);
    assert_eq!(context_percent_used(5, 0), 0);
    assert_eq!(context_percent_used(299, 1000), 29);
    assert_eq!(context_percent_used(1000, 1000), 100);
    assert_eq!(context_percent_used(5000, 1000), 100);
    assert_eq!(context_percent_used(u64::MAX, u64::MAX), 1);
}

#[test]
fn efforts_are_brought_into_what_is_allowed() {
    assert_eq!(clamp_effort(Effort::Medium, &USUAL), Effort::Medium);
    assert_eq!(clamp_effort(Effort::XHigh, &USUAL), Effort::High);
    assert_eq!(clamp_effort(Effort::XHigh, &[Effort::Low, Effort::Off]), Effort::Off);
    assert_eq!(clamp_effort(Effort::Low, &[Effort::Off]), Effort::Off);
    assert_eq!(clamp_effort(Effort::Low, &[Effort::High, Effort::Medium]), Effort::High);
    assert_eq!(clamp_effort(Effort::Low, &[]), Effort::Off);
    assert_eq!(middle_effort(&USUAL), Effort::Low);
    assert_eq!(middle_effort(&[Effort::Off]), Effort::Off);
    assert_eq!(middle_effort(&[]), Effort::Off);
}

#[test]
fn a_model_starts_with_its_last_effort() {
    let r = registry();
    let model = id("openai/big");
    let state = harness_state(None, Some(&model), Effort::XHigh);
    let start = |default: Option<Effort>, state: Option<&str>| {
        selected_effort_for_model(&r, &model, default, state)
    };
    assert_eq!(start(Some(Effort::Minimal), Some(&state)), Effort::Minimal);
    assert_eq!(start(None, Some(&state)), Effort::XHigh);
    assert_eq!(start(None, None), Effort::Medium);
    assert_eq!(
        selected_effort_for_model(&r, &id("openai/a/b"), Some(Effort::XHigh), None),
        Effort::High
    );
    assert_eq!(
        selected_effort_for_model(&r, &id("openai/odd"), None, None),
        Effort::Low
    );
}

#[test]
fn the_saved_state_is_restored() {
    let first = harness_state(None, Some(&id("a/x")), Effort::High);
    let second = harness_state(Some(&first), Some(&id("b/y")), Effort::Off);
    assert_eq!(load_last_selected_model(Some(&second)).unwrap().text(), "b/y");
    let efforts = load_last_efforts(Some(&second));
    assert_eq!(efforts.len(), 2);
    assert_eq!(efforts.get("a/x"), Some(&Effort::High));
    assert_eq!(efforts.get("b/y"), Some(&Effort::Off));
    assert_eq!(
        second,
        "{\n  \"last_efforts\": {\n    \"a/x\": \"high\",\n    \"b/y\": \"off\"\n  },\n  \"last_selected_model\": \"b/y\"\n}"
    );
    let none = harness_state(Some(&second), None, Effort::Low);
    assert!(load_last_selected_model(Some(&none)).is_none());
    assert_eq!(load_last_efforts(Some(&none)).len(), 2);
}

#[test]
fn odd_states_are_read_as_far_as_possible() {
    assert!(load_last_selected_model(None).is_none());
    assert!(load_last_selected_model(Some("[]")).is_none());
    assert_eq!(load_last_efforts(Some("{\"last_efforts\": []}")).len(), 0);
    let value = parse_json(
        "{\"last_selected_model\": 7, \"last_efforts\": {\"bad\": \"low\", \"a/b\": 1, \"c/d\": \"huge\", \"e/f\": \"low\"}}",
    );
    assert!(last_selected_model(value.as_ref()).is_none());
    let efforts = last_efforts(value.as_ref());
    assert_eq!(efforts.len(), 1);
    assert_eq!(efforts.get("e/f"), Some(&Effort::Low));
}

#[test]
fn efforts_have_names() {
    for e in [
        Effort::Off,
        Effort::Minimal,
        Effort::Low,
        Effort::Medium,
        Effort::High,
        Effort::XHigh,
    ] {
        assert_eq!(parse_effort(e.as_str()), Some(e));
    }
    assert_eq!(parse_effort("huge"), None);
    assert_eq!(effort_wire(Effort::Off), None);
    assert_eq!(effort_wire(Effort::Minimal), Some("minimal"));
    assert_eq!(effort_wire(Effort::XHigh), Some("xhigh"));
}
