use pbs::dump::{
    get_prop_str, get_prop_u32, parse_dump, PropEntry, PropValue, PwInfo, PwMetadata, PwObject,
};

fn text(key: &str, value: &str) -> PropEntry {
    PropEntry { key: key.to_string(), value: PropValue::Str(value.to_string()) }
}

fn number(key: &str, n: u64) -> PropEntry {
    PropEntry {
        key: key.to_string(),
        value: PropValue::Other { json: n.to_string(), unsigned: Some(n) },
    }
}

fn other(key: &str, json: &str) -> PropEntry {
    PropEntry { key: key.to_string(), value: PropValue::Other { json: json.to_string(), unsigned: None } }
}

fn info(props: Vec<PropEntry>) -> PwInfo {
    PwInfo {
        props: Some(props),
        direction: None,
        output_node_id: None,
        output_port_id: None,
        input_node_id: None,
        input_port_id: None,
    }
}

fn object(id: u32, kind: &str, info: Option<PwInfo>, props: Option<Vec<PropEntry>>) -> PwObject {
    PwObject { id, object_type: kind.to_string(), info, props, metadata: None }
}

#[test]
fn prop_str_prefers_info_props() {
    let obj = object(
        1,
        "PipeWire:Interface:Node",
        Some(info(vec![text("node.name", "from_info")])),
        Some(vec![text("node.name", "from_props"), text("media.class", "Audio/Source")]),
    );
    assert_eq!(get_prop_str(&obj, "node.name"), Some("from_info".to_string()));
    assert_eq!(get_prop_str(&obj, "media.class"), Some("Audio/Source".to_string()));
    assert_eq!(get_prop_str(&obj, "missing"), None);
}

#[test]
fn prop_str_gives_json_text_of_non_strings() {
    let obj = object(
        1,
        "PipeWire:Interface:Node",
        Some(info(vec![number("object.serial", 42), other("flag", "true")])),
        None,
    );
    assert_eq!(get_prop_str(&obj, "object.serial"), Some("42".to_string()));
    assert_eq!(get_prop_str(&obj, "flag"), Some("true".to_string()));
}

#[test]
fn prop_u32_reads_numbers_and_numeric_strings() {
    let obj = object(
        7,
        "PipeWire:Interface:Port",
        Some(info(vec![
            number("a", 12),
            text("b", "34"),
            text("c", "+5"),
            text("d", "-1"),
            number("e", (1u64 << 32) + 9),
            text("f", "4294967296"),
            other("g", "1.5"),
        ])),
        None,
    );
    assert_eq!(get_prop_u32(&obj, "a"), Some(12));
    assert_eq!(get_prop_u32(&obj, "b"), Some(34));
    assert_eq!(get_prop_u32(&obj, "c"), Some(5));
    assert_eq!(get_prop_u32(&obj, "d"), None);
    // A u64 is cut to its low 32 bits.
    assert_eq!(get_prop_u32(&obj, "e"), Some(9));
    assert_eq!(get_prop_u32(&obj, "f"), None);
    assert_eq!(get_prop_u32(&obj, "g"), None);
}

#[test]
fn prop_u32_falls_back_to_props_when_info_value_is_not_a_number() {
    let obj = object(
        7,
        "PipeWire:Interface:Port",
        Some(info(vec![text("node.id", "abc")])),
        Some(vec![number("node.id", 55)]),
    );
    assert_eq!(get_prop_u32(&obj, "node.id"), Some(55));
    // get_prop_str does not fall back once info.props has the key.
    assert_eq!(get_prop_str(&obj, "node.id"), Some("abc".to_string()));
}

#[test]
fn parse_dump_reads_every_kind() {
    let node = object(
        30,
        "PipeWire:Interface:Node",
        Some(info(vec![
            text("node.name", "alsa_input.usb"),
            text("media.class", "Audio/Source"),
            text("app.name", "Mixer"),
        ])),
        None,
    );
    let bare_node = object(31, "PipeWire:Interface:Node", None, None);
    let port = object(
        40,
        "PipeWire:Interface:Port",
        Some(info(vec![number("node.id", 30), text("port.name", "capture_FL"), text("port.direction", "Output")])),
        None,
    );
    let mut port_info = info(vec![text("node.id", "31"), text("port.name", "playback_FR")]);
    port_info.direction = Some("input".to_string());
    let port_by_info_direction = object(41, "PipeWire:Interface:Port", Some(port_info), None);
    let odd_port = object(
        42,
        "PipeWire:Interface:Port",
        Some(info(vec![number("node.id", 31), text("port.direction", "Sideways")])),
        None,
    );
    let orphan_port = object(43, "PipeWire:Interface:Port", Some(info(vec![text("port.name", "x")])), None);
    let mut link_info = info(vec![]);
    link_info.output_port_id = Some(40);
    link_info.input_port_id = Some(41);
    let link = object(50, "PipeWire:Interface:Link", Some(link_info), None);
    let half_link = object(51, "PipeWire:Interface:Link", Some(info(vec![])), None);
    let mut meta = object(60, "PipeWire:Interface:Metadata", None, Some(vec![text("metadata.name", "default")]));
    meta.metadata = Some(vec![
        PwMetadata { key: "default.audio.sink".to_string(), value: vec![text("name", "alsa_output.speakers")] },
        PwMetadata { key: "default.audio.source".to_string(), value: vec![text("name", "alsa_input.usb")] },
    ]);
    let mut other_meta = object(61, "PipeWire:Interface:Metadata", None, Some(vec![text("metadata.name", "settings")]));
    other_meta.metadata = Some(vec![PwMetadata {
        key: "default.audio.sink".to_string(),
        value: vec![text("name", "ignored")],
    }]);
    let client = object(70, "PipeWire:Interface:Client", None, None);

    let objects = vec![node, bare_node, port, port_by_info_direction, odd_port, orphan_port, link, half_link, meta, other_meta, client];
    let (nodes, ports, links, sink) = parse_dump(&objects);

    assert_eq!(nodes.len(), 2);
    assert_eq!(nodes[0].id, 30);
    assert_eq!(nodes[0].name, "alsa_input.usb");
    assert_eq!(nodes[0].description, "alsa_input.usb");
    assert_eq!(nodes[0].media_class, "Audio/Source");
    assert_eq!(nodes[0].app_name, Some("Mixer".to_string()));
    assert_eq!(nodes[1].id, 31);
    assert_eq!(nodes[1].name, "");
    assert_eq!(nodes[1].app_name, None);

    assert_eq!(ports.len(), 3);
    assert_eq!((ports[0].id, ports[0].node_id), (40, 30));
    assert_eq!(ports[0].name, "capture_FL");
    assert_eq!(ports[0].direction, "out");
    assert_eq!((ports[1].id, ports[1].node_id), (41, 31));
    assert_eq!(ports[1].direction, "in");
    assert_eq!(ports[2].name, "");
    assert_eq!(ports[2].direction, "sideways");

    assert_eq!(links.len(), 1);
    assert_eq!((links[0].out_port, links[0].in_port), (40, 41));

    assert_eq!(sink, Some("alsa_output.speakers".to_string()));
}

#[test]
fn last_default_sink_wins() {
    let mut first = object(1, "PipeWire:Interface:Metadata", Some(info(vec![text("metadata.name", "default")])), None);
    first.metadata = Some(vec![PwMetadata {
        key: "default.audio.sink".to_string(),
        value: vec![text("name", "one")],
    }]);
    let mut second = object(2, "PipeWire:Interface:Metadata", Some(info(vec![text("metadata.name", "default")])), None);
    second.metadata = Some(vec![
        PwMetadata { key: "default.audio.sink".to_string(), value: vec![text("name", "two")] },
        PwMetadata { key: "default.audio.sink".to_string(), value: vec![number("name", 3)] },
    ]);
    let (_, _, _, sink) = parse_dump(&[first, second]);
    assert_eq!(sink, Some("two".to_string()));
    let (nodes, ports, links, none) = parse_dump(&[]);
    assert!(nodes.is_empty() && ports.is_empty() && links.is_empty() && none.is_none());
}
