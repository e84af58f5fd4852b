use pbs::config::{default_enabled, default_physical_mic, default_target_app, RouteSettings};
use pbs::dump::NodeInfo;
use pbs::links::{LinkInfo, PortInfo};
use pbs::plan::{plan_cycle, CyclePlan, SyncPlan, VirtualDeviceManager};

fn node(id: u32, name: &str, description: &str, class: &str, app: Option<&str>) -> NodeInfo {
    NodeInfo {
        id,
        name: name.to_string(),
        description: description.to_string(),
        media_class: class.to_string(),
        app_name: app.map(|a| a.to_string()),
    }
}

fn port(id: u32, node_id: u32, name: &str, direction: &str) -> PortInfo {
    PortInfo { id, node_id, name: name.to_string(), direction: direction.to_string() }
}

fn settings(mic: &str, app: &str, enabled: bool) -> RouteSettings {
    RouteSettings { physical_mic: mic.to_string(), target_app: app.to_string(), enabled }
}

fn graph() -> (Vec<NodeInfo>, Vec<PortInfo>) {
    let nodes = vec![
        node(1, "pbs_virtual_mic", "PBS Virtual Mic", "Audio/Source/Virtual", None),
        node(2, "alsa_input.usb", "USB Mic", "Audio/Source", None),
        node(3, "brave_stream", "Playback", "Stream/Output/Audio", Some("Brave")),
        node(4, "firefox_stream", "Playback", "Stream/Output/Audio", Some("Firefox")),
        node(5, "other_stream", "Playback", "Stream/Output/Audio", Some("Brave")),
        node(6, "alsa_output.speakers", "Speakers", "Audio/Sink", None),
        node(7, "loopback", "Loop", "Audio/Source/Virtual", None),
    ];
    let ports = vec![
        port(10, 1, "input_FL", "in"),
        port(11, 1, "input_FR", "in"),
        port(12, 1, "monitor_FL", "out"),
        port(20, 2, "capture_MONO", "out"),
        port(30, 3, "output_FL", "out"),
        port(31, 3, "output_FR", "out"),
        port(40, 4, "output_FL", "out"),
        port(50, 5, "output_FL", "out"),
        port(51, 5, "output_FR", "out"),
    ];
    (nodes, ports)
}

fn sync(plan: CyclePlan) -> SyncPlan {
    match plan {
        CyclePlan::Sync(p) => p,
        _ => panic!("expected a sync round"),
    }
}

#[test]
fn defaults() {
    assert_eq!(default_physical_mic(), "");
    assert_eq!(default_target_app(), "Brave");
    assert!(default_enabled());
}

#[test]
fn manager_commands_name_the_virtual_mic() {
    let m = VirtualDeviceManager::new();
    assert_eq!(m.stop_args(), vec!["destroy".to_string(), "pbs_virtual_mic".to_string()]);
    let create = m.ensure_running_args();
    assert_eq!(create.len(), 3);
    assert_eq!(create[0], "create-node");
    assert_eq!(create[1], "adapter");
    assert!(create[2].contains("node.name=pbs_virtual_mic"));
    assert!(create[2].contains("media.class=Audio/Source/Virtual"));
}

#[test]
fn creates_missing_virtual_mic_when_enabled() {
    let (mut nodes, ports) = graph();
    nodes.remove(0);
    let plan = plan_cycle(&nodes, &ports, &vec![], &None, &settings("", "Brave", true));
    assert!(matches!(plan, CyclePlan::CreateVirtualMic));
}

#[test]
fn destroys_virtual_mic_when_disabled() {
    let (nodes, ports) = graph();
    let plan = plan_cycle(&nodes, &ports, &vec![], &None, &settings("", "Brave", false));
    assert!(matches!(plan, CyclePlan::DestroyVirtualMic));
}

#[test]
fn disabled_without_virtual_mic_only_reports() {
    let (mut nodes, ports) = graph();
    nodes.remove(0);
    let plan = sync(plan_cycle(&nodes, &ports, &vec![], &None, &settings("alsa_input.usb", "Brave", false)));
    assert!(plan.mic_connected);
    assert!(plan.app_connected);
    assert_eq!(plan.mic_volume_node, None);
    assert!(plan.new_links.is_empty());
}

#[test]
fn sync_round_reports_and_links() {
    let (nodes, ports) = graph();
    let existing = vec![LinkInfo { out_port: 30, in_port: 10 }];
    let plan = sync(plan_cycle(
        &nodes,
        &ports,
        &existing,
        &Some("alsa_output.speakers".to_string()),
        &settings("alsa_input.usb", "brave", true),
    ));
    let mics: Vec<(String, String)> =
        plan.available_mics.iter().map(|d| (d.name.clone(), d.description.clone())).collect();
    assert_eq!(
        mics,
        vec![
            ("alsa_input.usb".to_string(), "USB Mic".to_string()),
            ("loopback".to_string(), "Loop".to_string())
        ]
    );
    let mut apps = plan.available_apps.clone();
    apps.sort();
    assert_eq!(apps, vec!["Brave".to_string(), "Firefox".to_string()]);
    assert!(plan.mic_connected);
    assert!(plan.app_connected);
    assert_eq!(plan.default_sink_name, "Speakers");
    assert_eq!(plan.mic_volume_node, Some(2));
    // The mono microphone feeds both inputs; each Brave stream feeds left to
    // left and right to right; the link that exists is not planned again.
    assert_eq!(plan.new_links, vec![(20, 10), (20, 11), (31, 11), (50, 10), (51, 11)]);
}

#[test]
fn planned_links_are_not_planned_again() {
    let (nodes, ports) = graph();
    let s = settings("alsa_input.usb", "Brave", true);
    let first = sync(plan_cycle(&nodes, &ports, &vec![], &None, &s));
    assert!(!first.new_links.is_empty());
    let created: Vec<LinkInfo> =
        first.new_links.iter().map(|&(o, i)| LinkInfo { out_port: o, in_port: i }).collect();
    let second = sync(plan_cycle(&nodes, &ports, &created, &None, &s));
    assert!(second.new_links.is_empty());
}

#[test]
fn no_inputs_on_virtual_mic_means_no_links() {
    let (nodes, ports) = graph();
    let ports: Vec<PortInfo> = ports.into_iter().filter(|p| p.node_id != 1).collect();
    let plan = sync(plan_cycle(&nodes, &ports, &vec![], &None, &settings("alsa_input.usb", "Brave", true)));
    assert_eq!(plan.mic_volume_node, None);
    assert!(plan.new_links.is_empty());
    assert!(plan.mic_connected);
}

#[test]
fn empty_choices_match_nothing() {
    let (nodes, ports) = graph();
    let plan = sync(plan_cycle(&nodes, &ports, &vec![], &Some("nowhere".to_string()), &settings("", "", true)));
    assert!(!plan.mic_connected);
    assert!(!plan.app_connected);
    assert_eq!(plan.default_sink_name, "Default Output");
    assert_eq!(plan.mic_volume_node, None);
    assert!(plan.new_links.is_empty());
}

#[test]
fn target_matches_description_and_node_name_too() {
    let (nodes, ports) = graph();
    let by_name = sync(plan_cycle(&nodes, &ports, &vec![], &None, &settings("", "FIREFOX_STR", true)));
    assert_eq!(by_name.new_links, vec![(40, 10)]);
    let by_description = sync(plan_cycle(&nodes, &ports, &vec![], &None, &settings("", "playback", true)));
    assert_eq!(by_description.new_links, vec![(30, 10), (31, 11), (40, 10), (50, 10), (51, 11)]);
}

#[test]
fn a_lost_link_is_restored() {
    let (nodes, ports) = graph();
    let s = settings("alsa_input.usb", "Brave", true);
    let first = sync(plan_cycle(&nodes, &ports, &vec![], &None, &s));
    // Every planned link exists except the mic's link to the right input.
    let remaining: Vec<LinkInfo> = first
        .new_links
        .iter()
        .filter(|&&l| l != (20, 11))
        .map(|&(o, i)| LinkInfo { out_port: o, in_port: i })
        .collect();
    let second = sync(plan_cycle(&nodes, &ports, &remaining, &None, &s));
    assert_eq!(second.new_links, vec![(20, 11)]);
}
