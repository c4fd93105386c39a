use mdmodels::events::MdEvent;
use mdmodels::model::DataModel;
use mdmodels::parser::{build_data_model, parse_markdown_content, ExtractError};

fn text(s: &str) -> MdEvent {
    MdEvent::Text(s.to_string())
}

fn build(events: Vec<MdEvent>) -> DataModel {
    build_data_model(&events, None).expect("extraction failed")
}

#[test]
fn level1_heading_names_model() {
    let model = build(vec![MdEvent::HeadingStart(1), text("Test Model")]);
    assert_eq!(model.name, Some("Test Model".to_string()));
}

#[test]
fn first_level1_heading_wins() {
    let model = build(vec![
        MdEvent::HeadingStart(1),
        text("First"),
        MdEvent::HeadingStart(1),
        text("Second"),
    ]);
    assert_eq!(model.name, Some("First".to_string()));
}

#[test]
fn no_level1_heading_leaves_model_unnamed() {
    let model = build(vec![MdEvent::HeadingStart(2), text("Section")]);
    assert_eq!(model.name, None);
}

#[test]
fn object_heading_with_term() {
    let model = build(vec![
        MdEvent::HeadingStart(3),
        text("Foo (bar)"),
        MdEvent::ListStart,
        MdEvent::ItemStart,
        text("attr"),
        MdEvent::ListEnd,
    ]);
    assert_eq!(model.objects.len(), 1);
    assert_eq!(model.objects[0].name, "Foo");
    assert_eq!(model.objects[0].term, Some("bar".to_string()));
}

#[test]
fn object_heading_without_term() {
    let model = build(vec![
        MdEvent::HeadingStart(3),
        text("Foo"),
        MdEvent::ListStart,
        MdEvent::ItemStart,
        text("attr"),
        MdEvent::ListEnd,
    ]);
    assert_eq!(model.objects[0].name, "Foo");
    assert_eq!(model.objects[0].term, None);
}

#[test]
fn object_without_attributes_is_dropped() {
    let model = build(vec![
        MdEvent::HeadingStart(3),
        text("Empty"),
        MdEvent::HeadingStart(3),
        text("Kept"),
        MdEvent::ListStart,
        MdEvent::ItemStart,
        text("attr"),
        MdEvent::ListEnd,
    ]);
    assert_eq!(model.objects.len(), 1);
    assert_eq!(model.objects[0].name, "Kept");
}

#[test]
fn extraction_is_repeatable() {
    let events = vec![
        MdEvent::HeadingStart(1),
        text("M"),
        MdEvent::HeadingStart(3),
        text("Empty"),
        MdEvent::HeadingStart(3),
        text("Kept (t)"),
        MdEvent::ListStart,
        MdEvent::ItemStart,
        text("attr"),
        MdEvent::ListEnd,
    ];
    let a = build_data_model(&events, None).expect("first run failed");
    let b = build_data_model(&events, None).expect("second run failed");
    assert_eq!(a, b);
}

#[test]
fn bare_item_is_optional() {
    let model = build(vec![
        MdEvent::HeadingStart(3),
        text("O"),
        MdEvent::ListStart,
        MdEvent::ItemStart,
        text("plain"),
        MdEvent::ListEnd,
    ]);
    assert_eq!(model.objects[0].attributes[0].name, "plain");
    assert!(!model.objects[0].attributes[0].required);
}

#[test]
fn wrapped_item_is_required() {
    // A markup wrapper stands between the item start and its text run, so
    // the name is only recovered on the second read.
    let model = build(vec![
        MdEvent::HeadingStart(3),
        text("O"),
        MdEvent::ListStart,
        MdEvent::ItemStart,
        MdEvent::Other,
        text("wrapped"),
        MdEvent::Other,
        MdEvent::ListEnd,
    ]);
    assert_eq!(model.objects[0].attributes[0].name, "wrapped");
    assert!(model.objects[0].attributes[0].required);
}

#[test]
fn option_line_attaches_to_nearest_attribute() {
    let model = build(vec![
        MdEvent::HeadingStart(3),
        text("O"),
        MdEvent::ListStart,
        MdEvent::ItemStart,
        text("attr"),
        MdEvent::ListStart,
        MdEvent::ItemStart,
        text("type: float"),
        MdEvent::ListEnd,
        MdEvent::ListEnd,
    ]);
    let obj = &model.objects[0];
    assert_eq!(obj.attributes.len(), 1);
    assert_eq!(obj.attributes[0].name, "attr");
    assert_eq!(obj.attributes[0].options.len(), 1);
    assert_eq!(obj.attributes[0].options[0].key, "type");
    assert_eq!(obj.attributes[0].options[0].value, "float");
}

#[test]
fn option_value_keeps_later_colons() {
    let model = build(vec![
        MdEvent::HeadingStart(3),
        text("O"),
        MdEvent::ListStart,
        MdEvent::ItemStart,
        text("attr"),
        MdEvent::ListStart,
        MdEvent::ItemStart,
        text("source: http://example.com/x"),
        MdEvent::ListEnd,
        MdEvent::ListEnd,
    ]);
    let opt = &model.objects[0].attributes[0].options[0];
    assert_eq!(opt.key, "source");
    assert_eq!(opt.value, "http://example.com/x");
}

#[test]
fn plain_string_in_options_list_declares_new_attribute() {
    let model = build(vec![
        MdEvent::HeadingStart(3),
        text("O"),
        MdEvent::ListStart,
        MdEvent::ItemStart,
        text("first"),
        MdEvent::ListStart,
        MdEvent::ItemStart,
        text("second"),
        MdEvent::ListEnd,
        MdEvent::ListEnd,
    ]);
    let obj = &model.objects[0];
    assert_eq!(obj.attributes.len(), 2);
    assert_eq!(obj.attributes[1].name, "second");
    assert!(!obj.attributes[1].required);
}

#[test]
fn array_marker_appends_suffix() {
    let model = build(vec![
        MdEvent::HeadingStart(3),
        text("O"),
        MdEvent::ListStart,
        MdEvent::ItemStart,
        text("first"),
        MdEvent::ListStart,
        MdEvent::ItemStart,
        text("values"),
        MdEvent::Text("[".to_string()),
        MdEvent::ListEnd,
        MdEvent::ListEnd,
    ]);
    let obj = &model.objects[0];
    assert_eq!(obj.attributes.len(), 2);
    assert_eq!(obj.attributes[1].name, "values[]");
}

#[test]
fn enum_code_block_yields_mappings() {
    let model = build(vec![
        MdEvent::HeadingStart(3),
        text("Colors"),
        MdEvent::CodeBlockStart,
        text("ONE = \"1\"\n\nTWO = \"2\""),
    ]);
    assert_eq!(model.enums.len(), 1);
    let e = &model.enums[0];
    assert_eq!(e.name, "Colors");
    assert_eq!(e.mappings.len(), 2);
    assert_eq!(e.mappings[0], ("ONE".to_string(), "1".to_string()));
    assert_eq!(e.mappings[1], ("TWO".to_string(), "2".to_string()));
}

#[test]
fn enum_lines_without_single_equals_are_skipped() {
    let model = build(vec![
        MdEvent::HeadingStart(3),
        text("E"),
        MdEvent::CodeBlockStart,
        text("A = 1\njust a comment\nB = x = y\nC = 3"),
    ]);
    let e = &model.enums[0];
    assert_eq!(e.mappings.len(), 2);
    assert_eq!(e.mappings[0], ("A".to_string(), "1".to_string()));
    assert_eq!(e.mappings[1], ("C".to_string(), "3".to_string()));
}

#[test]
fn enum_without_mappings_is_dropped() {
    let model = build(vec![
        MdEvent::HeadingStart(3),
        text("E"),
        MdEvent::CodeBlockStart,
        text("\n\n"),
    ]);
    assert_eq!(model.enums.len(), 0);
}

#[test]
fn heading_without_text_is_an_error() {
    let r = build_data_model(&vec![MdEvent::HeadingStart(3), MdEvent::Other], None);
    assert_eq!(r, Err(ExtractError::MissingText));
}

#[test]
fn whitespace_heading_is_an_error() {
    let r = build_data_model(&vec![MdEvent::HeadingStart(3), text("   ")], None);
    assert_eq!(r, Err(ExtractError::EmptyHeading));
}

#[test]
fn list_before_any_object_is_an_error() {
    let r = build_data_model(&vec![MdEvent::ListStart], None);
    assert_eq!(r, Err(ExtractError::NoObject));
}

#[test]
fn item_before_any_object_is_an_error() {
    let r = build_data_model(&vec![MdEvent::ItemStart, text("attr")], None);
    assert_eq!(r, Err(ExtractError::NoObject));
}

#[test]
fn code_block_at_stream_end_is_an_error() {
    let r = build_data_model(
        &vec![MdEvent::HeadingStart(3), text("E"), MdEvent::CodeBlockStart],
        None,
    );
    assert_eq!(r, Err(ExtractError::MissingText));
}

#[test]
fn code_block_before_any_enum_is_an_error() {
    let r = build_data_model(&vec![MdEvent::CodeBlockStart, text("A = 1")], None);
    assert_eq!(r, Err(ExtractError::NoEnum));
}

#[test]
fn array_marker_before_any_option_is_an_error() {
    let r = build_data_model(
        &vec![
            MdEvent::HeadingStart(3),
            text("O"),
            MdEvent::ListStart,
            MdEvent::ItemStart,
            text("attr"),
            MdEvent::ListStart,
            MdEvent::Text("[".to_string()),
            MdEvent::ListEnd,
        ],
        None,
    );
    assert_eq!(r, Err(ExtractError::NoOption));
}

#[test]
fn parse_markdown_content_end_to_end() {
    let content = "# Model\n\n### Foo (bar)\n\n- attr1\n- **attr2**\n";
    let model = parse_markdown_content(content, None).expect("parse failed");
    assert_eq!(model.name, Some("Model".to_string()));
    assert_eq!(model.objects.len(), 1);
    let obj = &model.objects[0];
    assert_eq!(obj.name, "Foo");
    assert_eq!(obj.term, Some("bar".to_string()));
    assert_eq!(obj.attributes.len(), 2);
    assert_eq!(obj.attributes[0].name, "attr1");
    assert!(!obj.attributes[0].required);
    assert_eq!(obj.attributes[1].name, "attr2");
    assert!(obj.attributes[1].required);
    assert!(model.config.is_none());
}

#[test]
fn parse_markdown_content_with_options_and_enum() {
    let content = "# M\n\n### Thing\n\n- name\n  - type: string\n\n### Colors\n\n```\nRED = \"r\"\nBLUE = \"b\"\n```\n";
    let model = parse_markdown_content(content, None).expect("parse failed");
    assert_eq!(model.objects.len(), 1);
    let obj = &model.objects[0];
    assert_eq!(obj.name, "Thing");
    assert_eq!(obj.attributes.len(), 1);
    assert_eq!(obj.attributes[0].options.len(), 1);
    assert_eq!(obj.attributes[0].options[0].key, "type");
    assert_eq!(obj.attributes[0].options[0].value, "string");
    assert_eq!(model.enums.len(), 1);
    assert_eq!(model.enums[0].name, "Colors");
    assert_eq!(
        model.enums[0].mappings,
        vec![
            ("BLUE".to_string(), "b".to_string()),
            ("RED".to_string(), "r".to_string()),
        ]
    );
}

#[test]
fn html_markup_is_stripped_before_extraction() {
    let content = "# <b>Model</b>\n";
    let model = parse_markdown_content(content, None).expect("parse failed");
    assert_eq!(model.name, Some("Model".to_string()));
}

#[test]
fn duplicate_enum_keys_keep_the_last_value() {
    let model = build(vec![
        MdEvent::HeadingStart(3),
        text("E"),
        MdEvent::CodeBlockStart,
        text("A = 1\nA = 2"),
    ]);
    assert_eq!(
        model.enums[0].mappings,
        vec![("A".to_string(), "2".to_string())]
    );
}

#[test]
fn options_attach_to_the_latest_object() {
    let model = build(vec![
        MdEvent::HeadingStart(3),
        text("First"),
        MdEvent::ListStart,
        MdEvent::ItemStart,
        text("a"),
        MdEvent::ListEnd,
        MdEvent::HeadingStart(3),
        text("Second"),
        MdEvent::ListStart,
        MdEvent::ItemStart,
        text("b"),
        MdEvent::ListStart,
        MdEvent::ItemStart,
        text("type: string"),
        MdEvent::ListEnd,
    ]);
    assert_eq!(model.objects.len(), 2);
    assert_eq!(model.objects[0].attributes[0].options.len(), 0);
    let second = &model.objects[1];
    assert_eq!(second.attributes[0].name, "b");
    assert_eq!(second.attributes[0].options[0].key, "type");
    assert_eq!(second.attributes[0].options[0].value, "string");
}

#[test]
fn top_level_item_adds_attribute_to_current_object() {
    let model = build(vec![
        MdEvent::HeadingStart(3),
        text("O"),
        MdEvent::ListStart,
        MdEvent::ItemStart,
        text("first"),
        MdEvent::ListEnd,
        MdEvent::ItemStart,
        text("loose"),
    ]);
    let obj = &model.objects[0];
    assert_eq!(obj.attributes.len(), 2);
    assert_eq!(obj.attributes[1].name, "loose");
}

#[test]
fn enum_mappings_are_sorted_by_key() {
    let model = build(vec![
        MdEvent::HeadingStart(3),
        text("E"),
        MdEvent::CodeBlockStart,
        text("ZULU = \"z\"\nALPHA = \"a\"\nMIKE = \"m\""),
    ]);
    assert_eq!(
        model.enums[0].mappings,
        vec![
            ("ALPHA".to_string(), "a".to_string()),
            ("MIKE".to_string(), "m".to_string()),
            ("ZULU".to_string(), "z".to_string()),
        ]
    );
}
