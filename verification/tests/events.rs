//! Event decoder tests: typed decoding of notification payloads,
//! tolerance of unknown keys and kinds, and batch independence.

use nvim_rpc::event::hl_attr_define::{Attributes, HlAttrDefine, HlAttrDefineParseError, Info, Kind};
use nvim_rpc::event::grid_line::{Cell, GridLine};
use nvim_rpc::event::set_icon::SetIcon;
use nvim_rpc::event::{parse_redraw_batch, Event, EventParseError};
use nvim_rpc::value::Value;

fn s(text: &str) -> Value {
    Value::Str(String::from(text))
}

fn grid_line_args() -> Value {
    // [1, 0, 0, [["a", 5, 2]]]
    Value::Array(vec![
        Value::UInt(1),
        Value::UInt(0),
        Value::UInt(0),
        Value::Array(vec![Value::Array(vec![s("a"), Value::UInt(5), Value::UInt(2)])]),
    ])
}

#[test]
fn grid_line_decodes_fields() {
    let g = GridLine::parse(grid_line_args()).expect("decode");
    assert_eq!(g.grid, 1);
    assert_eq!(g.row, 0);
    assert_eq!(g.col_start, 0);
    assert_eq!(g.cells.len(), 1);
    assert_eq!(g.cells[0].text, "a");
    assert_eq!(g.cells[0].hl_id, Some(5));
    assert_eq!(g.cells[0].repeat, Some(2));
}

#[test]
fn grid_line_event_via_registry() {
    let event = Event::parse("grid_line", vec![grid_line_args()]).expect("decode");
    match event {
        Event::GridLine(lines) => {
            assert_eq!(lines.len(), 1);
            assert_eq!(lines[0].grid, 1);
        },
        other => panic!("wrong event: {other:?}"),
    }
}

#[test]
fn cell_trailing_fields_are_optional() {
    let c = Cell::parse(Value::Array(vec![s("x")])).expect("one field");
    assert_eq!(c.text, "x");
    assert_eq!(c.hl_id, None);
    assert_eq!(c.repeat, None);
    let c = Cell::parse(Value::Array(vec![s("x"), Value::UInt(3)])).expect("two fields");
    assert_eq!(c.hl_id, Some(3));
    assert_eq!(c.repeat, None);
}

#[test]
fn cell_with_wrong_typed_field_is_rejected() {
    assert!(Cell::parse(Value::Array(vec![Value::UInt(1)])).is_none());
    assert!(Cell::parse(Value::Array(vec![s("x"), s("y")])).is_none());
    assert!(Cell::parse(Value::Array(vec![])).is_none());
    assert!(Cell::parse(Value::Nil).is_none());
}

#[test]
fn grid_line_missing_required_field_is_rejected() {
    let short = Value::Array(vec![Value::UInt(1), Value::UInt(0), Value::UInt(0)]);
    assert!(GridLine::parse(short).is_none());
    let bad_row = Value::Array(vec![
        Value::UInt(1),
        s("zero"),
        Value::UInt(0),
        Value::Array(vec![]),
    ]);
    assert!(GridLine::parse(bad_row).is_none());
}

fn hl_entry(id: u64, rgb: Vec<(Value, Value)>) -> Value {
    Value::Array(vec![
        Value::UInt(id),
        Value::Mapping(rgb),
        Value::Mapping(vec![]),
        Value::Array(vec![]),
    ])
}

#[test]
fn hl_attr_define_decodes_known_attributes() {
    let entry = hl_entry(
        7,
        vec![
            (s("foreground"), Value::UInt(0xFF0000)),
            (s("bold"), Value::Bool(true)),
            (s("blend"), Value::UInt(30)),
        ],
    );
    let d = HlAttrDefine::try_from(vec![entry]).expect("decode");
    assert_eq!(d.hl_attrs.len(), 1);
    let a = &d.hl_attrs[0];
    assert_eq!(a.id, 7);
    assert_eq!(a.rgb_attr.foreground, Some(0xFF0000));
    assert_eq!(a.rgb_attr.bold, Some(true));
    assert_eq!(a.rgb_attr.blend, Some(30));
    assert_eq!(a.rgb_attr.background, None);
    assert_eq!(a.cterm_attr, Attributes::default());
}

#[test]
fn unrecognized_attribute_key_is_ignored() {
    let entry = hl_entry(
        1,
        vec![
            (s("foreground"), Value::UInt(9)),
            (s("frobnicate"), Value::Bool(true)),
        ],
    );
    let d = HlAttrDefine::try_from(vec![entry]).expect("unknown key tolerated");
    assert_eq!(d.hl_attrs[0].rgb_attr.foreground, Some(9));
}

#[test]
fn known_attribute_key_with_wrong_type_fails() {
    let entry = hl_entry(1, vec![(s("bold"), Value::UInt(1))]);
    let e = HlAttrDefine::try_from(vec![entry]).expect_err("bold must be a bool");
    assert_eq!(e, HlAttrDefineParseError::Attributes);
}

#[test]
fn later_attribute_entry_overwrites_earlier() {
    let entry = hl_entry(
        1,
        vec![
            (s("foreground"), Value::UInt(1)),
            (s("foreground"), Value::UInt(2)),
        ],
    );
    let d = HlAttrDefine::try_from(vec![entry]).expect("decode");
    assert_eq!(d.hl_attrs[0].rgb_attr.foreground, Some(2));
}

#[test]
fn info_kinds_decode() {
    for (name, kind) in [("ui", Kind::Ui), ("syntax", Kind::Syntax), ("terminal", Kind::Terminal)] {
        let got = Kind::try_from(&s(name)).expect("known kind");
        assert_eq!(got, kind);
    }
}

#[test]
fn unrecognized_kind_fails_with_kind_error() {
    let e = Kind::try_from(&s("volcanic")).expect_err("unknown kind");
    assert_eq!(e, HlAttrDefineParseError::Kind);
    let info = Value::Mapping(vec![(s("kind"), s("volcanic"))]);
    let e = Info::try_from(info).expect_err("unknown kind in info");
    assert_eq!(e, HlAttrDefineParseError::Kind);
}

#[test]
fn info_requires_kind() {
    let info = Value::Mapping(vec![(s("hi_name"), s("Comment"))]);
    let e = Info::try_from(info).expect_err("kind required");
    assert_eq!(e, HlAttrDefineParseError::Info);
    let info = Value::Mapping(vec![
        (s("kind"), s("syntax")),
        (s("hi_name"), s("Comment")),
        (s("id"), Value::UInt(4)),
        (s("mystery"), Value::Nil),
    ]);
    let i = Info::try_from(info).expect("decode");
    assert_eq!(i.kind, Kind::Syntax);
    assert_eq!(i.hi_name.as_deref(), Some("Comment"));
    assert_eq!(i.ui_name, None);
    assert_eq!(i.id, Some(4));
}

#[test]
fn malformed_entry_fails_with_hl_attr_error() {
    let e = HlAttrDefine::try_from(vec![Value::Nil]).expect_err("not an array");
    assert_eq!(e, HlAttrDefineParseError::HlAttr);
    let short = Value::Array(vec![Value::UInt(1), Value::Mapping(vec![])]);
    let e = HlAttrDefine::try_from(vec![short]).expect_err("too short");
    assert_eq!(e, HlAttrDefineParseError::HlAttr);
}

#[test]
fn set_icon_decodes_title() {
    let icon = SetIcon::parse(Value::Array(vec![s("my title")])).expect("decode");
    assert_eq!(icon.title, "my title");
    assert!(SetIcon::parse(Value::Array(vec![Value::UInt(3)])).is_none());
    assert!(SetIcon::parse(Value::Array(vec![])).is_none());
}

#[test]
fn unknown_notification_name_is_reported_not_fatal() {
    let e = Event::parse("grid_cursor_goto", vec![Value::Array(vec![])]).expect_err("unknown");
    assert_eq!(e, EventParseError::UnknownEvent);
}

#[test]
fn bad_event_in_batch_leaves_siblings_intact() {
    // One entry with an unrecognized info kind, one healthy entry: the
    // bad one is dropped with a kind-specific error, the sibling still
    // decodes.
    let bad_info = Value::Mapping(vec![(s("kind"), s("volcanic"))]);
    let bad_entry = Value::Array(vec![
        s("hl_attr_define"),
        Value::Array(vec![
            Value::UInt(1),
            Value::Mapping(vec![]),
            Value::Mapping(vec![]),
            Value::Array(vec![bad_info]),
        ]),
    ]);
    let good_entry = Value::Array(vec![s("set_icon"), Value::Array(vec![s("hello")])]);
    let (events, errors) = parse_redraw_batch(vec![bad_entry, good_entry]);
    assert_eq!(errors, vec![EventParseError::HlAttrDefine(HlAttrDefineParseError::Kind)]);
    assert_eq!(events.len(), 1);
    match &events[0] {
        Event::SetIcon(icon) => assert_eq!(icon.title, "hello"),
        other => panic!("wrong event: {other:?}"),
    }
}

#[test]
fn batch_tolerates_malformed_and_unknown_entries() {
    let entries = vec![
        Value::Nil,
        Value::Array(vec![]),
        Value::Array(vec![s("totally_new_event"), Value::Array(vec![])]),
        Value::Array(vec![s("set_icon"), Value::Array(vec![s("t")])]),
    ];
    let (events, errors) = parse_redraw_batch(entries);
    assert_eq!(events.len(), 1);
    assert_eq!(
        errors,
        vec![
            EventParseError::MalformedEntry,
            EventParseError::MalformedEntry,
            EventParseError::UnknownEvent,
        ]
    );
}
