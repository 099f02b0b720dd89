use l6t::model::{L6Patch, MetaTags, Model, ModelParam, PatchType, TargetDevice, Value as L6Value};
use l6t::rich::{enrich_values, FormattingType, ValueInfo, ValueInfoMap};
use l6t::schema::{DataModel, Group, Param, ParamType, Slot};
use l6t::shorthand;
use l6t::value::{read_values, write_values, ReadError, Value, ValueMap, WriteError};

fn patch_with_models(models: Vec<Model>) -> L6Patch {
    L6Patch {
        patch_type: PatchType::Patch,
        target_device: TargetDevice { midi_id: 0, name: String::new(), version: 0 },
        models,
        meta: MetaTags {
            author: String::new(),
            guitarist: String::new(),
            band: String::new(),
            song: String::new(),
            style: String::new(),
            pickup_style: String::new(),
            pickup_position: String::new(),
            date: 0,
            amp_name: String::new(),
            creator_app: String::new(),
            creator_app_version: String::new(),
            comments: String::new(),
        },
    }
}

fn schema(groups: Vec<Group>, floats_as_ints: bool) -> DataModel {
    DataModel { floats_as_ints, groups, info_map: ValueInfoMap::new() }
}

fn int_value(map: &ValueMap, name: &str) -> u32 {
    match map.get(name) {
        Some(Value::Int(v)) => *v,
        other => panic!("expected an integer for {name}, got {other:?}"),
    }
}

/// Tie-break: two models sharing a slot id but distinct model ids, matched
/// against two slots sharing that fixed slot id but distinct fixed model
/// ids, assign each model to exactly the slot whose model id matches.
#[test]
fn aliasing_slots_tie_break_on_model_id() {
    let slot_a = Slot {
        fixed_slot: Some(0x50005),
        fixed_model: Some(1),
        fixed_enable: None,
        params: vec![shorthand::slot("reverb_a_select")],
    };
    let slot_b = Slot {
        fixed_slot: Some(0x50005),
        fixed_model: Some(2),
        fixed_enable: None,
        params: vec![shorthand::slot("reverb_b_select")],
    };
    let dm = schema(
        vec![Group { name: "Reverb".to_string(), slots: vec![slot_a, slot_b] }],
        false,
    );
    let model_one = Model { model_id: 1, slot_id: 0x50005, enabled: true, ordinal: 0, params: vec![] };
    let model_two = Model { model_id: 2, slot_id: 0x50005, enabled: true, ordinal: 1, params: vec![] };
    let patch = patch_with_models(vec![model_two, model_one]);
    let (map, errors) = read_values(&patch, &dm);
    assert_eq!(int_value(&map, "reverb_a_select"), 1);
    assert_eq!(int_value(&map, "reverb_b_select"), 2);
    assert!(errors.is_empty());
}

/// A declared parameter the matched model lacks yields a "missing params"
/// entry naming its id; every other extractable name is still returned.
#[test]
fn missing_param_is_advisory() {
    let slot = Slot {
        fixed_slot: Some(1),
        fixed_model: None,
        fixed_enable: None,
        params: vec![
            shorthand::slot("amp_select"),
            shorthand::int_param(0x5, "amp_depth"),
            shorthand::slot_enable("amp_enable"),
        ],
    };
    let dm = schema(vec![Group { name: "Amp".to_string(), slots: vec![slot] }], false);
    let model = Model { model_id: 77, slot_id: 1, enabled: true, ordinal: 0, params: vec![] };
    let patch = patch_with_models(vec![model]);
    let (map, errors) = read_values(&patch, &dm);
    assert_eq!(int_value(&map, "amp_select"), 77);
    assert!(matches!(map.get("amp_enable"), Some(Value::Bool(true))));
    assert!(map.get("amp_depth").is_none());
    assert_eq!(errors.len(), 1);
    match &errors[0] {
        ReadError::MissingParams { slot_id, model_id, params, .. } => {
            assert_eq!(*slot_id, 1);
            assert_eq!(*model_id, 77);
            assert_eq!(params, &vec![0x5]);
        },
        other => panic!("expected missing params, got {other:?}"),
    }
}

/// A model no slot claims is reported; a physically absent slot is not an
/// error at all.
#[test]
fn unmatched_model_is_advisory() {
    let slot = Slot {
        fixed_slot: Some(1),
        fixed_model: None,
        fixed_enable: None,
        params: vec![shorthand::slot("a")],
    };
    let dm = schema(vec![Group { name: "G".to_string(), slots: vec![slot] }], false);
    let stray = Model { model_id: 9, slot_id: 2, enabled: false, ordinal: 4, params: vec![] };
    let patch = patch_with_models(vec![stray]);
    let (map, errors) = read_values(&patch, &dm);
    assert!(map.get("a").is_none());
    assert_eq!(errors.len(), 1);
    match &errors[0] {
        ReadError::UnprocessedModel { slot_id, model_id, ordinal } => {
            assert_eq!((*slot_id, *model_id, *ordinal), (2, 9, 4));
        },
        other => panic!("expected an unprocessed model, got {other:?}"),
    }
}

/// Bool reading demands exactly 0 or 1; anything else is an invalid-format
/// entry, and the value is left out.
#[test]
fn invalid_bool_encoding_is_advisory() {
    let slot = Slot {
        fixed_slot: Some(1),
        fixed_model: None,
        fixed_enable: None,
        params: vec![shorthand::bool(0x7, "gate")],
    };
    let dm = schema(vec![Group { name: "G".to_string(), slots: vec![slot] }], false);
    let model = Model {
        model_id: 1,
        slot_id: 1,
        enabled: true,
        ordinal: 0,
        params: vec![ModelParam { param_id: 0x7, value: L6Value::Int(2) }],
    };
    let patch = patch_with_models(vec![model]);
    let (map, errors) = read_values(&patch, &dm);
    assert!(map.get("gate").is_none());
    assert!(matches!(errors[0], ReadError::InvalidParams { .. }));
}

/// The floats-as-ints leniency: an integer-tagged value is reinterpreted
/// as float bits on legacy devices, and a literal zero converts to float
/// zero even on strict devices.
#[test]
fn float_conversion_rules() {
    let mk_slot = || Slot {
        fixed_slot: Some(1),
        fixed_model: None,
        fixed_enable: None,
        params: vec![shorthand::float(0x3, "drive")],
    };
    let bits = 0.75f32.to_bits();
    let model = |v: L6Value| {
        patch_with_models(vec![Model {
            model_id: 1,
            slot_id: 1,
            enabled: true,
            ordinal: 0,
            params: vec![ModelParam { param_id: 0x3, value: v }],
        }])
    };

    let legacy = schema(vec![Group { name: "G".to_string(), slots: vec![mk_slot()] }], true);
    let (map, _) = read_values(&model(L6Value::Int(bits)), &legacy);
    assert!(matches!(map.get("drive"), Some(Value::Float(b)) if *b == bits));

    let strict = schema(vec![Group { name: "G".to_string(), slots: vec![mk_slot()] }], false);
    let (map, _) = read_values(&model(L6Value::Float(bits)), &strict);
    assert!(matches!(map.get("drive"), Some(Value::Float(b)) if *b == bits));

    let (map, _) = read_values(&model(L6Value::Int(0)), &strict);
    assert!(matches!(map.get("drive"), Some(Value::Float(b)) if *b == 0));

    let (map, errors) = read_values(&model(L6Value::Int(bits)), &strict);
    assert!(map.get("drive").is_none());
    assert!(matches!(errors[0], ReadError::InvalidParams { .. }));
}

/// Writing then reading a slot gives the stored values back for every
/// name the schema declares as a parameter.
#[test]
fn write_then_read_returns_param_values() {
    let slot = Slot {
        fixed_slot: Some(0x30000),
        fixed_model: None,
        fixed_enable: None,
        params: vec![
            shorthand::slot("delay_select"),
            shorthand::slot_enable("delay_enable"),
            shorthand::int_param(0x10, "delay_time"),
            shorthand::float(0x11, "delay_mix"),
            shorthand::bool(0x12, "delay_sync"),
            shorthand::ignore(0x13),
        ],
    };
    let dm = schema(vec![Group { name: "Delay".to_string(), slots: vec![slot] }], false);
    let mut values = ValueMap::new();
    values.insert("delay_select".to_string(), Value::Int(42));
    values.insert("delay_enable".to_string(), Value::Bool(true));
    values.insert("delay_time".to_string(), Value::Int(500));
    values.insert("delay_mix".to_string(), Value::Float(0.25f32.to_bits()));
    values.insert("delay_sync".to_string(), Value::Bool(false));
    let patch = write_values(values, &dm).unwrap();
    assert_eq!(patch.models.len(), 1);
    assert_eq!(patch.models[0].model_id, 42);
    assert_eq!(patch.models[0].slot_id, 0x30000);
    assert!(patch.models[0].enabled);

    let (map, errors) = read_values(&patch, &dm);
    assert!(errors.is_empty());
    assert_eq!(int_value(&map, "delay_time"), 500);
    assert!(matches!(map.get("delay_mix"), Some(Value::Float(b)) if *b == 0.25f32.to_bits()));
    assert!(matches!(map.get("delay_sync"), Some(Value::Bool(false))));
    assert_eq!(int_value(&map, "delay_select"), 42);
    assert!(matches!(map.get("delay_enable"), Some(Value::Bool(true))));
}

/// A fixed-constant descriptor selects which physical slot an aliasing
/// logical slot targets on write.
#[test]
fn fixed_param_selects_physical_slot() {
    let slot = Slot {
        fixed_slot: None,
        fixed_model: Some(3),
        fixed_enable: Some(true),
        params: vec![shorthand::fixed_int_for_slot_id("wah_position", 7, 0x60000)],
    };
    let dm = schema(vec![Group { name: "Wah".to_string(), slots: vec![slot] }], false);
    let mut values = ValueMap::new();
    values.insert("wah_position".to_string(), Value::Int(7));
    let patch = write_values(values, &dm).unwrap();
    assert_eq!(patch.models.len(), 1);
    assert_eq!(patch.models[0].slot_id, 0x60000);
    assert_eq!(patch.models[0].model_id, 3);

    // with a different stored constant the slot stays unselected
    let mut values = ValueMap::new();
    values.insert("wah_position".to_string(), Value::Int(8));
    let patch = write_values(values, &dm).unwrap();
    assert!(patch.models.is_empty());
}

/// An absent required value is a fatal encode error.
#[test]
fn write_missing_value_is_fatal() {
    let slot = Slot {
        fixed_slot: Some(1),
        fixed_model: Some(2),
        fixed_enable: None,
        params: vec![shorthand::int_param(0x10, "level")],
    };
    let dm = schema(vec![Group { name: "G".to_string(), slots: vec![slot] }], false);
    let err = write_values(ValueMap::new(), &dm).unwrap_err();
    match err {
        WriteError::MissingValue { name } => assert_eq!(name, "level"),
        other => panic!("expected a missing value, got {other:?}"),
    }
}

/// A stored value of the wrong type is a fatal encode error.
#[test]
fn write_type_mismatch_is_fatal() {
    let slot = Slot {
        fixed_slot: Some(1),
        fixed_model: Some(2),
        fixed_enable: None,
        params: vec![shorthand::int_param(0x10, "level")],
    };
    let dm = schema(vec![Group { name: "G".to_string(), slots: vec![slot] }], false);
    let mut values = ValueMap::new();
    values.insert("level".to_string(), Value::Float(0.5f32.to_bits()));
    assert!(matches!(write_values(values, &dm).unwrap_err(), WriteError::TypeMismatch { .. }));
}

/// Integer lookup: raw integer 32 with table 0 -> "off", 32 -> "half"
/// renders "half"; a missing key renders the placeholder.
#[test]
fn int_lookup_renders_labels() {
    let table = vec![(0u32, "off".to_string()), (32u32, "half".to_string())];
    let mut infos = ValueInfoMap::new();
    infos.insert(
        "mix".to_string(),
        shorthand::lookup(table).build(),
    );
    let mut map = ValueMap::new();
    map.insert("mix".to_string(), Value::Int(32));
    map.insert("other".to_string(), Value::Int(7));
    let rich = enrich_values(map, &infos);
    let rv = rich.get("mix").unwrap();
    assert_eq!(rv.render_plain().unwrap(), "half");
    assert!(matches!(rv.get_simple(), Value::Int(32)));
    // a name with no declared rule falls back to plain formatting
    let other = rich.get("other").unwrap();
    assert_eq!(other.render_plain().unwrap(), "7");

    let mut map = ValueMap::new();
    map.insert("mix".to_string(), Value::Int(5));
    let table = vec![(0u32, "off".to_string()), (32u32, "half".to_string())];
    let mut infos = ValueInfoMap::new();
    infos.insert("mix".to_string(), shorthand::lookup(table).build());
    let rich = enrich_values(map, &infos);
    assert_eq!(rich.get("mix").unwrap().render_plain().unwrap(), "???");
}

/// Grouping keeps schema order, skips unmatched slots and keeps each name
/// once.
#[test]
fn group_values_by_schema_groups() {
    let slot_a = Slot {
        fixed_slot: Some(1),
        fixed_model: None,
        fixed_enable: None,
        params: vec![shorthand::slot("amp_select"), shorthand::int_param(0x5, "amp_depth")],
    };
    let slot_absent = Slot {
        fixed_slot: Some(9),
        fixed_model: None,
        fixed_enable: None,
        params: vec![shorthand::slot("missing_select")],
    };
    let dm = schema(
        vec![
            Group { name: "Amp".to_string(), slots: vec![slot_a] },
            Group { name: "Empty".to_string(), slots: vec![slot_absent] },
        ],
        false,
    );
    let model = Model {
        model_id: 7,
        slot_id: 1,
        enabled: true,
        ordinal: 0,
        params: vec![ModelParam { param_id: 0x5, value: L6Value::Int(3) }],
    };
    let patch = patch_with_models(vec![model]);
    let (map, _) = read_values(&patch, &dm);
    let groups = l6t::group::group_values(&patch, &map, &dm);
    assert_eq!(groups.len(), 1);
    assert_eq!(groups[0].name, "Amp");
    assert_eq!(groups[0].values.len(), 2);
    assert_eq!(groups[0].values[0].0, "amp_select");
    assert!(matches!(groups[0].values[0].1, Value::Int(7)));
    assert_eq!(groups[0].values[1].0, "amp_depth");
    assert!(matches!(groups[0].values[1].1, Value::Int(3)));
}

/// Text plumbing: decimal and hexadecimal digit strings.
#[test]
fn decimal_and_hex_formatting() {
    assert_eq!(l6t::text::format_decimal(0), "0");
    assert_eq!(l6t::text::format_decimal(1234), "1234");
    assert_eq!(l6t::text::format_hex(0x50005), "50005");
    assert_eq!(l6t::text::format_hex(0xdead), "dead");
    assert_eq!(l6t::text::parse_decimal("1234"), Some(1234));
    assert_eq!(l6t::text::parse_decimal(""), None);
    assert_eq!(l6t::text::parse_decimal("12a"), None);
    assert_eq!(l6t::text::parse_decimal("99999999999999999999999999"), None);
}

/// UTF-16 plumbing: encode and decode round-trip, surrogate pairs
/// included; lone surrogates decode to the replacement character.
#[test]
fn utf16_round_trip() {
    let s = "Hej \u{1F3B8} värld";
    let units = l6t::text::utf16_encode_str(s);
    assert_eq!(units, s.encode_utf16().collect::<Vec<u16>>());
    assert_eq!(l6t::text::utf16_decode_units(&units), s);
    assert_eq!(l6t::text::utf16_decode_units(&[0xD800]), "\u{FFFD}");
    assert_eq!(l6t::text::utf16_decode_units(&[0x41, 0xDC00, 0x42]), "A\u{FFFD}B");
}

/// The advisory error lines spell the model identity and the ids in hex,
/// as a maintainer would grep for them.
#[test]
fn error_messages_name_the_ids() {
    let slot = Slot {
        fixed_slot: Some(1),
        fixed_model: None,
        fixed_enable: None,
        params: vec![shorthand::slot("amp_select"), shorthand::int_param(0x5, "amp_depth")],
    };
    let dm = schema(vec![Group { name: "Amp".to_string(), slots: vec![slot] }], false);
    let model = Model { model_id: 77, slot_id: 1, enabled: true, ordinal: 0, params: vec![] };
    let patch = patch_with_models(vec![model]);
    let (_, errors) = read_values(&patch, &dm);
    assert_eq!(errors.len(), 1);
    assert_eq!(errors[0].message(), "Slot 0x01 model=0x00004d ordinal=0 missing params: 0x5");

    let stray = Model { model_id: 0x123456, slot_id: 0x50005, enabled: false, ordinal: 2, params: vec![] };
    let patch = patch_with_models(vec![stray]);
    let (_, errors) = read_values(&patch, &schema(vec![], false));
    assert_eq!(errors[0].message(), "Slot 0x50005 model=0x123456 ordinal=2 unprocessed");
}
