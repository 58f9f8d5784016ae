use lwpdf::style::MissingPlaceholder;
use lwpdf::template::{render_template_json, TemplateError, TemplateJsonError};

/// Resolves the JSON texts; a JSON failure is not expected here.
fn render_template(template_json: &str, data_json: &str, on_missing: MissingPlaceholder) -> Result<String, TemplateError> {
    match render_template_json(template_json, data_json, on_missing) {
        Ok(s) => Ok(s),
        Err(TemplateJsonError::Template(e)) => Err(e),
        Err(TemplateJsonError::Json(e)) => panic!("unexpected JSON error: {e}"),
    }
}

#[test]
fn substitutes_a_placeholder_embedded_in_text() {
    let out = render_template(
        r#"{"greeting": "Hallo {{customer.name}}, viel Erfolg!"}"#,
        r#"{"customer": {"name": "Frau Musterfrau"}}"#,
        MissingPlaceholder::Error,
    )
    .unwrap();
    assert_eq!(out, r#"{"greeting":"Hallo Frau Musterfrau, viel Erfolg!"}"#);
}

#[test]
fn whole_string_placeholder_preserves_the_data_types_own_json_type() {
    let out = render_template(r#"{"size": "{{size}}"}"#, r#"{"size": 24}"#, MissingPlaceholder::Error).unwrap();
    assert_eq!(out, r#"{"size":24}"#);
}

#[test]
fn missing_placeholder_errors_by_default() {
    let err = render_template(r#"{"x": "{{nope}}"}"#, r#"{}"#, MissingPlaceholder::Error).unwrap_err();
    assert!(matches!(err, TemplateError::MissingPlaceholder(p) if p == "nope"));
}

#[test]
fn missing_placeholder_can_resolve_to_empty_instead() {
    let out = render_template(r#"{"x": "before {{nope}} after"}"#, r#"{}"#, MissingPlaceholder::Empty).unwrap();
    assert_eq!(out, r#"{"x":"before  after"}"#);
}

#[test]
fn each_expands_one_copy_of_the_template_per_array_element() {
    let out = render_template(
        r#"{"rows": [{"$each": "items", "template": {"text": "{{name}}: {{amount}}"}}]}"#,
        r#"{"items": [{"name": "A", "amount": 1}, {"name": "B", "amount": 2}]}"#,
        MissingPlaceholder::Error,
    )
    .unwrap();
    assert_eq!(out, r#"{"rows":[{"text":"A: 1"},{"text":"B: 2"}]}"#);
}

#[test]
fn each_item_fields_shadow_outer_scope_but_fall_back_to_it() {
    let out = render_template(
        r#"{"rows": [{"$each": "items", "template": "{{name}} ({{currency}})"}]}"#,
        r#"{"currency": "EUR", "items": [{"name": "A"}, {"name": "B", "currency": "USD"}]}"#,
        MissingPlaceholder::Error,
    )
    .unwrap();
    assert_eq!(out, r#"{"rows":["A (EUR)","B (USD)"]}"#);
}

#[test]
fn each_target_that_is_not_an_array_is_a_clear_error() {
    let err = render_template(
        r#"{"rows": [{"$each": "items", "template": "x"}]}"#,
        r#"{"items": "not an array"}"#,
        MissingPlaceholder::Error,
    )
    .unwrap_err();
    assert!(matches!(err, TemplateError::InvalidEachTarget(p) if p == "items"));
}

#[test]
fn dotted_path_indexes_into_arrays_by_position() {
    let out = render_template(
        r#"{"first": "{{items.0.name}}"}"#,
        r#"{"items": [{"name": "first item"}, {"name": "second item"}]}"#,
        MissingPlaceholder::Error,
    )
    .unwrap();
    assert_eq!(out, r#"{"first":"first item"}"#);
}

#[test]
fn dot_names_the_current_element() {
    let out = render_template(
        r#"{"tags": [{"$each": "tags", "template": "-{{ . }}"}]}"#,
        r#"{"tags": ["a", "b"]}"#,
        MissingPlaceholder::Error,
    )
    .unwrap();
    assert_eq!(out, r#"{"tags":["-a","-b"]}"#);
}

#[test]
fn embedded_values_print_as_their_json_text() {
    let out = render_template(
        r#"{"x": "n={{n}} b={{b}} z={{z}} a={{a}} o={{o}}"}"#,
        r#"{"n": 2.5, "b": true, "z": null, "a": [1, 2], "o": {"k": "v"}}"#,
        MissingPlaceholder::Error,
    )
    .unwrap();
    assert_eq!(out, r#"{"x":"n=2.5 b=true z= a=[1,2] o={\"k\":\"v\"}"}"#);
}

#[test]
fn unterminated_placeholder_passes_through() {
    let out = render_template(r#"{"x": "a {{b}} c {{d"}"#, r#"{"b": "B"}"#, MissingPlaceholder::Error).unwrap();
    assert_eq!(out, r#"{"x":"a B c {{d"}"#);
}

#[test]
fn whole_placeholder_missing_becomes_null_when_empty() {
    let out = render_template(r#"{"x": "  {{ nope }}  "}"#, r#"{}"#, MissingPlaceholder::Empty).unwrap();
    assert_eq!(out, r#"{"x":null}"#);
}

#[test]
fn index_segments_accept_a_plus_sign_and_reject_out_of_range() {
    let out = render_template(r#"{"x": "{{items.+1}}"}"#, r#"{"items": [10, 20]}"#, MissingPlaceholder::Error).unwrap();
    assert_eq!(out, r#"{"x":20}"#);
    let err = render_template(r#"{"x": "{{items.2}}"}"#, r#"{"items": [10, 20]}"#, MissingPlaceholder::Error)
        .unwrap_err();
    assert!(matches!(err, TemplateError::MissingPlaceholder(p) if p == "items.2"));
}

#[test]
fn template_error_messages_name_the_path() {
    assert_eq!(
        TemplateError::MissingPlaceholder("a.b".to_string()).message(),
        "missing template placeholder: {{a.b}}"
    );
    assert_eq!(TemplateError::InvalidEachTarget("items".to_string()).message(), "$each target \"items\" is not an array");
}

#[test]
fn malformed_template_or_data_is_a_json_error() {
    assert!(matches!(
        render_template_json(r#"{"x": "#, r#"{}"#, MissingPlaceholder::Error),
        Err(TemplateJsonError::Json(_))
    ));
    assert!(matches!(
        render_template_json(r#"{"x": 1}"#, r#"[1, "#, MissingPlaceholder::Error),
        Err(TemplateJsonError::Json(_))
    ));
    assert_eq!(render_template_json(r#"[1, 2.5, null]"#, r#"{}"#, MissingPlaceholder::Error).unwrap(), "[1,2.5,null]");
}
