use phyto_fsm::naming::{NamingError, NamingTemplate};

#[test]
fn error_on_missing_key() {
    let incomplete = "\
fsm = {name}
module = {name}";
    let template = NamingTemplate {
        content: incomplete,
    };
    let result = template.render("Foo");
    assert!(result.is_err());
}

#[test]
fn error_on_malformed_line() {
    let bad = "\
fsm {name}
fsm_inner = {name}Inner
module = {name}
event_params_trait = I{name}EventParams
event_enum = {name}Event
action_trait = I{name}Actions
state_struct = {name}State
state_id_enum = {name}StateId
init_state_id_variant = _{name}InitialState_";
    let template = NamingTemplate { content: bad };
    let result = template.render("Foo");
    assert!(result.is_err());
}

#[test]
fn error_on_unknown_key() {
    let bad = "\
fsm = {name}
fsm_inner = {name}Inner
module = {name}
event_params_trait = I{name}EventParams
event_enum = {name}Event
action_trait = I{name}Actions
state_struct = {name}State
state_id_enum = {name}StateId
init_state_id_variant = _{name}InitialState_
bogus_key = Something";
    let template = NamingTemplate { content: bad };
    let result = template.render("Foo");
    assert!(result.is_err());
}

#[test]
fn blank_lines_and_whitespace_are_ignored() {
    let spaced = "\
  fsm = {name}
fsm_inner = {name}Inner

module = {name}
  event_params_trait = I{name}EventParams
event_enum = {name}Event
action_trait = I{name}Actions
state_struct = {name}State
state_id_enum = {name}StateId
init_state_id_variant = _{name}InitialState_
";
    let template = NamingTemplate { content: spaced };
    let result = template.render("Foo");
    assert!(result.is_ok());
}

#[test]
fn default_template_renders_correctly() {
    let template = NamingTemplate::default();
    let names = template.render("MyFsm").unwrap();
    assert_eq!(names.fsm, "MyFsm");
    assert_eq!(names.fsm_inner, "MyFsmInner");
    assert_eq!(names.module, "my_fsm");
    assert_eq!(names.event_params_trait, "IMyFsmEventParams");
    assert_eq!(names.event_enum, "MyFsmEvent");
    assert_eq!(names.action_trait, "IMyFsmActions");
    assert_eq!(names.state_struct, "MyFsmStateNode");
    assert_eq!(names.state_id_enum, "MyFsmState");
    assert_eq!(names.init_state_id_variant, "_MyFsmInitialState_");
}

#[test]
fn name_is_converted_to_upper_camel_case() {
    let template = NamingTemplate::default();
    let names = template.render("my_fsm").unwrap();
    assert_eq!(names.fsm, "MyFsm");
    assert_eq!(names.module, "my_fsm");
}

const FULL: &str = "\
fsm = {name}
fsm_inner = {name}Inner
module = {name}
event_params_trait = I{name}EventParams
event_enum = {name}Event
action_trait = I{name}Actions
state_struct = {name}State
state_id_enum = {name}StateId
init_state_id_variant = _{name}InitialState_";

#[test]
fn missing_key_names_the_first_missing_required_key() {
    let template = NamingTemplate::new("fsm = {name}\nmodule = {name}");
    let err = template.render("Foo").unwrap_err();
    assert_eq!(err, NamingError::MissingKey("fsm_inner".to_string()));
    assert_eq!(err.to_string(), "Missing required key: fsm_inner");
}

#[test]
fn malformed_line_is_reported_trimmed() {
    let template = NamingTemplate::new("   fsm {name}   \nmodule = {name}");
    let err = template.render("Foo").unwrap_err();
    assert_eq!(err, NamingError::MalformedLine("fsm {name}".to_string()));
    assert_eq!(
        err.to_string(),
        "Malformed line (expected 'key = value'): fsm {name}"
    );
}

#[test]
fn unknown_key_is_reported() {
    let content = format!("{FULL}\nbogus_key = Something");
    let template = NamingTemplate::new(&content);
    let err = template.render("Foo").unwrap_err();
    assert_eq!(err, NamingError::UnknownKey("bogus_key".to_string()));
}

#[test]
fn later_line_overrides_earlier_one() {
    let content = format!("{FULL}\nfsm = The{{name}}");
    let template = NamingTemplate::new(&content);
    let names = template.render("Foo").unwrap();
    assert_eq!(names.fsm, "TheFoo");
    assert_eq!(names.state_id_enum, "FooStateId");
}

#[test]
fn custom_template_renders_each_key() {
    let template = NamingTemplate::new(FULL);
    let names = template.render("traffic light").unwrap();
    assert_eq!(names.fsm, "TrafficLight");
    assert_eq!(names.fsm_inner, "TrafficLightInner");
    assert_eq!(names.module, "traffic_light");
    assert_eq!(names.state_struct, "TrafficLightState");
    assert_eq!(names.init_state_id_variant, "_TrafficLightInitialState_");
}

#[test]
fn value_that_is_no_template_fails_to_render() {
    let content = FULL.replace("fsm_inner = {name}Inner", "fsm_inner = {name");
    let template = NamingTemplate::new(&content);
    let err = template.render("Foo").unwrap_err();
    assert!(matches!(err, NamingError::RenderError(_)));
    assert!(err.to_string().starts_with("Template rendering failed: "));
}

#[test]
fn empty_template_misses_the_first_key() {
    let template = NamingTemplate::new("");
    let err = template.render("Foo").unwrap_err();
    assert_eq!(err, NamingError::MissingKey("fsm".to_string()));
}

#[test]
fn values_the_compiler_could_panic_on_are_refused() {
    for bad in ["{#}{name}", "{name}\\", "{{ if not }}{name}{{ endif }}", "{{ if notä }}x{{ endif }}"] {
        let content = FULL.replace("fsm_inner = {name}Inner", &format!("fsm_inner = {bad}"));
        let template = NamingTemplate::new(&content);
        let err = template.render("Foo").unwrap_err();
        assert_eq!(err, NamingError::RenderError(format!("Unsupported template text: {bad}")));
    }
}

#[test]
fn an_earlier_render_failure_comes_first() {
    let content = FULL
        .replace("fsm = {name}", "fsm = {name")
        .replace("fsm_inner = {name}Inner", "fsm_inner = {#}");
    let template = NamingTemplate::new(&content);
    let err = template.render("Foo").unwrap_err();
    assert!(matches!(err, NamingError::RenderError(ref m) if !m.starts_with("Unsupported")));
}

#[test]
fn compiler_trip_check() {
    use_check("{{ if not x }}a{{ endif }}", false);
    use_check("{## comment ##}", false);
    use_check("cannot", false);
    use_check("{#}", true);
    use_check("a\\", true);
    use_check("{{ if not - }}", true);
    use_check("{name}Knot}}", false);
    use_check("xnot}}", false);
    use_check("{ not }", false);
    use_check("Knotä", false);
    use_check("a\\{b}", false);
    use_check("a\\{b\\", true);
}

#[test]
fn not_outside_an_if_tag_renders_as_text() {
    let content = FULL.replace("fsm_inner = {name}Inner", "fsm_inner = {name}Knot}}");
    let template = NamingTemplate::new(&content);
    let names = template.render("Foo").unwrap();
    assert_eq!(names.fsm_inner, "FooKnot}}");
}

fn use_check(text: &str, expected: bool) {
    let chars: Vec<char> = text.chars().collect();
    assert_eq!(phyto_fsm::template_scan::trips_compiler_check(&chars), expected, "{text}");
}
