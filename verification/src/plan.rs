//! One round of the routing loop: from a snapshot of the PipeWire graph and
//! the settings, what to do to the virtual microphone, what to report, and
//! which links to create.
use vstd::prelude::*;

use crate::config::RouteSettings;
use crate::dump::NodeInfo;
use crate::links::{
    derefs, desired_links, law_links_join_outputs_to_inputs, port_ids, get_desired_links, is_port_linked, port_linked, LinkInfo, PortInfo,
};
use crate::text::{chars_of, contains_chars, has_infix, str_eq, to_lowercase, unicode_lowercase};

verus! {

/// The node name of the virtual microphone.
pub open spec fn virtual_mic_name() -> Seq<char> {
    "pbs_virtual_mic"@
}

/// The properties of the virtual microphone node that `pw-cli` creates.
pub open spec fn virtual_mic_properties() -> Seq<char> {
    "{ factory.name=support.null-audio-sink node.name=pbs_virtual_mic node.description=\"PBS Virtual Mic\" media.class=Audio/Source/Virtual object.linger=true audio.position=[FL FR] }"@
}

/// Supervises the virtual microphone node.
pub struct VirtualDeviceManager;

impl VirtualDeviceManager {
    /// A manager for the virtual microphone.
    pub fn new() -> (r: Self)
        ensures
            r == (VirtualDeviceManager {}),
    {
        VirtualDeviceManager
    }

    /// The arguments of `pw-cli` that create the virtual microphone.
    pub fn ensure_running_args(&self) -> (r: Vec<String>)
        ensures
            r.deep_view() == seq!["create-node"@, "adapter"@, virtual_mic_properties()],
    {
        let mut r: Vec<String> = Vec::new();
        r.push(String::from_str("create-node"));
        r.push(String::from_str("adapter"));
        r.push(
            String::from_str(
                "{ factory.name=support.null-audio-sink node.name=pbs_virtual_mic node.description=\"PBS Virtual Mic\" media.class=Audio/Source/Virtual object.linger=true audio.position=[FL FR] }",
            ),
        );
        assert(r.deep_view() =~= seq!["create-node"@, "adapter"@, virtual_mic_properties()]);
        r
    }

    /// The arguments of `pw-cli` that destroy the virtual microphone.
    pub fn stop_args(&self) -> (r: Vec<String>)
        ensures
            r.deep_view() == seq!["destroy"@, virtual_mic_name()],
    {
        let mut r: Vec<String> = Vec::new();
        r.push(String::from_str("destroy"));
        r.push(String::from_str("pbs_virtual_mic"));
        assert(r.deep_view() =~= seq!["destroy"@, virtual_mic_name()]);
        r
    }
}

/// The node that the manager creates is the one that a round looks for: its
/// properties name it `pbs_virtual_mic`, as a whole word.
pub proof fn law_created_node_is_the_virtual_mic()
    ensures
        has_infix(virtual_mic_properties(), " node.name="@ + virtual_mic_name() + " "@),
{
    reveal_strlit("{ factory.name=support.null-audio-sink node.name=pbs_virtual_mic node.description=\"PBS Virtual Mic\" media.class=Audio/Source/Virtual object.linger=true audio.position=[FL FR] }");
    reveal_strlit(" node.name=");
    reveal_strlit("pbs_virtual_mic");
    reveal_strlit(" ");
    let p = " node.name="@ + virtual_mic_name() + " "@;
    assert(virtual_mic_properties().subrange(38int, 38int + p.len()) =~= p);
}

/// A device offered in the microphone list.
#[derive(Debug, Clone)]
pub struct DeviceEntry {
    pub name: String,
    pub description: String,
}

/// What a round that leaves the virtual microphone alone reports and does.
pub struct SyncPlan {
    /// The microphones to offer, in graph order.
    pub available_mics: Vec<DeviceEntry>,
    /// The playing applications to offer, each once.
    pub available_apps: Vec<String>,
    pub mic_connected: bool,
    pub app_connected: bool,
    /// The description of the default sink, or `"Default Output"`.
    pub default_sink_name: String,
    /// The microphone node whose volume is set before any link is created.
    pub mic_volume_node: Option<u32>,
    /// The links to create, in order.
    pub new_links: Vec<(u32, u32)>,
}

/// What one round of the routing loop does.
pub enum CyclePlan {
    /// Routing is on and the virtual microphone is missing: create it and
    /// wait for the next round.
    CreateVirtualMic,
    /// Routing is off and the virtual microphone exists: destroy it and wait
    /// for the next round.
    DestroyVirtualMic,
    /// Report, then set the microphone volume and create the links.
    Sync(SyncPlan),
}

/// The id of the last node named `name`.
pub open spec fn last_named(nodes: Seq<NodeInfo>, name: Seq<char>) -> Option<u32>
    decreases nodes.len(),
{
    if nodes.len() == 0 {
        None
    } else if nodes.last().name@ == name {
        Some(nodes.last().id)
    } else {
        last_named(nodes.drop_last(), name)
    }
}

/// The virtual microphone node, if the graph has one.
pub open spec fn virtual_mic_id(nodes: Seq<NodeInfo>) -> Option<u32> {
    last_named(nodes, virtual_mic_name())
}

/// The chosen physical microphone node, if one is chosen and present.
pub open spec fn mic_node(nodes: Seq<NodeInfo>, physical_mic: Seq<char>) -> Option<u32> {
    if physical_mic.len() > 0 {
        last_named(nodes, physical_mic)
    } else {
        None
    }
}

/// A node offered as a microphone: an audio source other than the virtual one.
pub open spec fn is_mic_entry(n: NodeInfo) -> bool {
    (n.media_class@ == "Audio/Source"@ || n.media_class@ == "Audio/Source/Virtual"@) && n.name@
        != virtual_mic_name()
}

/// The nodes offered as microphones, in order.
pub open spec fn mic_nodes(nodes: Seq<NodeInfo>) -> Seq<NodeInfo> {
    nodes.filter(|n: NodeInfo| is_mic_entry(n))
}

/// A playing application stream.
pub open spec fn is_stream(n: NodeInfo) -> bool {
    n.media_class@ == "Stream/Output/Audio"@
}

/// The name under which a stream is offered: its application name, else
/// its node name.
pub open spec fn stream_label(n: NodeInfo) -> Seq<char> {
    match n.app_name {
        Some(a) => a@,
        None => n.name@,
    }
}

/// `label` is offered for some stream among `nodes`.
pub open spec fn is_app_label(nodes: Seq<NodeInfo>, label: Seq<char>) -> bool {
    exists|k: int| 0 <= k < nodes.len() && is_stream(#[trigger] nodes[k]) && stream_label(nodes[k]) == label
}

/// No two strings of `s` hold the same text.
pub open spec fn distinct_texts(s: Seq<String>) -> bool {
    forall|i: int, j: int| 0 <= i < s.len() && 0 <= j < s.len() && i != j ==> #[trigger] s[i]@ != #[trigger] s[j]@
}

/// A stream's node name, description or application name holds the
/// lowercased target `t`, compared in lowercase.
pub open spec fn matches_target(n: NodeInfo, t: Seq<char>) -> bool {
    has_infix(unicode_lowercase(n.name@), t) || has_infix(unicode_lowercase(n.description@), t) || match n.app_name {
        Some(a) => has_infix(unicode_lowercase(a@), t),
        None => false,
    }
}

/// A stream of the chosen application.
pub open spec fn is_target(n: NodeInfo, target: Seq<char>) -> bool {
    target.len() > 0 && is_stream(n) && matches_target(n, unicode_lowercase(target))
}

/// The ids of the streams of the chosen application, in order.
pub open spec fn target_ids(nodes: Seq<NodeInfo>, target: Seq<char>) -> Seq<u32> {
    nodes.filter(|n: NodeInfo| is_target(n, target)).map_values(|n: NodeInfo| n.id)
}

/// The description of the last node named like the default sink, else
/// `"Default Output"`.
pub open spec fn sink_description(nodes: Seq<NodeInfo>, sink: Option<Seq<char>>) -> Seq<char>
    decreases nodes.len(),
{
    if nodes.len() == 0 {
        "Default Output"@
    } else if sink == Some(nodes.last().name@) {
        nodes.last().description@
    } else {
        sink_description(nodes.drop_last(), sink)
    }
}

/// The ports of node `node` with direction `dir`, in order.
pub open spec fn node_ports(ports: Seq<PortInfo>, node: u32, dir: Seq<char>) -> Seq<PortInfo> {
    ports.filter(|p: PortInfo| p.node_id == node && p.direction@ == dir)
}

/// The input ports of the virtual microphone.
pub open spec fn virtual_inputs(nodes: Seq<NodeInfo>, ports: Seq<PortInfo>) -> Seq<PortInfo> {
    match virtual_mic_id(nodes) {
        Some(v) => node_ports(ports, v, "in"@),
        None => Seq::empty(),
    }
}

/// The wanted links that do not exist yet, in order.
pub open spec fn missing_links(wanted: Seq<(u32, u32)>, links: Seq<LinkInfo>) -> Seq<(u32, u32)> {
    wanted.filter(|l: (u32, u32)| !port_linked(links, l.0, l.1))
}

/// The missing links from the outputs of each node of `apps` to `vin`.
pub open spec fn app_links(
    apps: Seq<u32>,
    ports: Seq<PortInfo>,
    vin: Seq<PortInfo>,
    links: Seq<LinkInfo>,
) -> Seq<(u32, u32)>
    decreases apps.len(),
{
    if apps.len() == 0 {
        Seq::empty()
    } else {
        app_links(apps.drop_last(), ports, vin, links) + missing_links(
            desired_links(node_ports(ports, apps.last(), "out"@), vin),
            links,
        )
    }
}

/// The links a round creates: when routing is on and the virtual microphone
/// has input ports, the missing links from the microphone and then from
/// each stream of the chosen application.
pub open spec fn planned_links(
    nodes: Seq<NodeInfo>,
    ports: Seq<PortInfo>,
    links: Seq<LinkInfo>,
    settings: RouteSettings,
) -> Seq<(u32, u32)> {
    let vin = virtual_inputs(nodes, ports);
    if settings.enabled && vin.len() > 0 {
        let from_mic = match mic_node(nodes, settings.physical_mic@) {
            Some(m) => missing_links(desired_links(node_ports(ports, m, "out"@), vin), links),
            None => Seq::empty(),
        };
        from_mic + app_links(target_ids(nodes, settings.target_app@), ports, vin, links)
    } else {
        Seq::empty()
    }
}

/// What a round that leaves the virtual microphone alone reports and does:
/// the offered microphones and applications, whether the chosen ones are
/// present, the default sink's description, the microphone whose volume is
/// set, and the links to create.
pub open spec fn reports_round(
    plan: SyncPlan,
    nodes: Seq<NodeInfo>,
    ports: Seq<PortInfo>,
    links: Seq<LinkInfo>,
    default_sink: Option<Seq<char>>,
    settings: RouteSettings,
) -> bool {
    &&& plan.available_mics@.len() == mic_nodes(nodes).len()
    &&& forall|k: int|
        0 <= k < plan.available_mics@.len() ==> (#[trigger] plan.available_mics@[k]).name@
            == mic_nodes(nodes)[k].name@ && plan.available_mics@[k].description@
            == mic_nodes(nodes)[k].description@
    &&& distinct_texts(plan.available_apps@)
    &&& forall|k: int| 0 <= k < plan.available_apps@.len() ==> is_app_label(nodes, (#[trigger] plan.available_apps@[k])@)
    &&& forall|label: Seq<char>|
        is_app_label(nodes, label) ==> exists|k: int|
            0 <= k < plan.available_apps@.len() && (#[trigger] plan.available_apps@[k])@ == label
    &&& plan.mic_connected == mic_node(nodes, settings.physical_mic@) is Some
    &&& plan.app_connected == (target_ids(nodes, settings.target_app@).len() > 0)
    &&& plan.default_sink_name@ == sink_description(nodes, default_sink)
    &&& plan.mic_volume_node == if settings.enabled && virtual_inputs(nodes, ports).len() > 0 {
        mic_node(nodes, settings.physical_mic@)
    } else {
        None
    }
    &&& plan.new_links@ == planned_links(nodes, ports, links, settings)
}

/// The id of the last node named `name`.
fn find_last_named(nodes: &Vec<NodeInfo>, name: &str) -> (r: Option<u32>)
    ensures
        r == last_named(nodes@, name@),
{
    let mut found: Option<u32> = None;
    let mut i: usize = 0;
    while i < nodes.len()
        invariant
            i <= nodes@.len(),
            found == last_named(nodes@.take(i as int), name@),
        decreases nodes.len() - i,
    {
        proof {
            let t = nodes@.take(i + 1);
            assert(t.drop_last() =~= nodes@.take(i as int));
        }
        if str_eq(nodes[i].name.as_str(), name) {
            found = Some(nodes[i].id);
        }
        i = i + 1;
    }
    assert(nodes@.take(nodes@.len() as int) =~= nodes@);
    found
}

/// Whether a node is offered as a microphone.
fn mic_entry(n: &NodeInfo) -> (r: bool)
    ensures
        r == is_mic_entry(*n),
{
    (str_eq(n.media_class.as_str(), "Audio/Source") || str_eq(n.media_class.as_str(), "Audio/Source/Virtual"))
        && !str_eq(n.name.as_str(), "pbs_virtual_mic")
}

/// The microphones to offer, in order.
fn mic_entries(nodes: &Vec<NodeInfo>) -> (r: Vec<DeviceEntry>)
    ensures
        r@.len() == mic_nodes(nodes@).len(),
        forall|k: int|
            0 <= k < r@.len() ==> (#[trigger] r@[k]).name@ == mic_nodes(nodes@)[k].name@ && r@[k].description@
                == mic_nodes(nodes@)[k].description@,
{
    let ghost ns = nodes@;
    let mut r: Vec<DeviceEntry> = Vec::new();
    let mut i: usize = 0;
    while i < nodes.len()
        invariant
            ns == nodes@,
            i <= ns.len(),
            r@.len() == mic_nodes(ns.take(i as int)).len(),
            forall|k: int|
                0 <= k < r@.len() ==> (#[trigger] r@[k]).name@ == mic_nodes(ns.take(i as int))[k].name@
                    && r@[k].description@ == mic_nodes(ns.take(i as int))[k].description@,
        decreases nodes.len() - i,
    {
        proof {
            crate::dump::lemma_filter_take_step(ns, |n: NodeInfo| is_mic_entry(n), i as int);
        }
        let n = &nodes[i];
        if mic_entry(n) {
            r.push(DeviceEntry { name: n.name.clone(), description: n.description.clone() });
        }
        i = i + 1;
    }
    assert(ns.take(ns.len() as int) =~= ns);
    r
}

/// Whether a text is among the strings of `s`.
fn has_text(s: &Vec<String>, t: &str) -> (r: bool)
    ensures
        r == exists|k: int| 0 <= k < s@.len() && (#[trigger] s@[k])@ == t@,
{
    let mut k: usize = 0;
    while k < s.len()
        invariant
            k <= s@.len(),
            forall|j: int| 0 <= j < k ==> (#[trigger] s@[j])@ != t@,
        decreases s.len() - k,
    {
        if str_eq(s[k].as_str(), t) {
            return true;
        }
        k = k + 1;
    }
    false
}

/// The playing applications to offer, each once, in order of first
/// appearance.
fn app_labels(nodes: &Vec<NodeInfo>) -> (r: Vec<String>)
    ensures
        distinct_texts(r@),
        forall|k: int| 0 <= k < r@.len() ==> is_app_label(nodes@, (#[trigger] r@[k])@),
        forall|label: Seq<char>| is_app_label(nodes@, label) ==> exists|k: int| 0 <= k < r@.len() && (#[trigger] r@[k])@ == label,
{
    let ghost ns = nodes@;
    let mut r: Vec<String> = Vec::new();
    let mut i: usize = 0;
    while i < nodes.len()
        invariant
            ns == nodes@,
            i <= ns.len(),
            distinct_texts(r@),
            forall|k: int| 0 <= k < r@.len() ==> is_app_label(ns.take(i as int), (#[trigger] r@[k])@),
            forall|label: Seq<char>|
                is_app_label(ns.take(i as int), label) ==> exists|k: int| 0 <= k < r@.len() && (#[trigger] r@[k])@ == label,
        decreases nodes.len() - i,
    {
        let n = &nodes[i];
        let ghost prev = ns.take(i as int);
        let ghost next = ns.take(i + 1);
        proof {
            assert forall|label: Seq<char>| is_app_label(prev, label) implies is_app_label(next, label) by {
                let k = choose|k: int| 0 <= k < prev.len() && is_stream(#[trigger] prev[k]) && stream_label(prev[k]) == label;
                assert(next[k] == prev[k]);
            }
            assert(next[i as int] == *n);
        }
        let ghost old_r = r@;
        if str_eq(n.media_class.as_str(), "Stream/Output/Audio") {
            let label: &String = match &n.app_name {
                Some(a) => a,
                None => &n.name,
            };
            assert(is_app_label(next, label@)) by {
                assert(next[i as int] == *n);
            }
            if !has_text(&r, label.as_str()) {
                r.push(label.clone());
                assert(r@[r@.len() - 1]@ == label@);
            }
            assert(exists|k: int| 0 <= k < r@.len() && (#[trigger] r@[k])@ == stream_label(*n));
        }
        proof {
            assert(is_stream(*n) ==> exists|k: int| 0 <= k < r@.len() && (#[trigger] r@[k])@ == stream_label(*n));
            assert(forall|j: int| 0 <= j < old_r.len() ==> r@[j] == old_r[j]);
            assert forall|label: Seq<char>| is_app_label(next, label) implies exists|k: int|
                0 <= k < r@.len() && (#[trigger] r@[k])@ == label by {
                let k = choose|k: int| 0 <= k < next.len() && is_stream(#[trigger] next[k]) && stream_label(next[k]) == label;
                if k < i {
                    assert(prev[k] == next[k]);
                    assert(is_app_label(prev, label));
                    let k2 = choose|k2: int| 0 <= k2 < old_r.len() && (#[trigger] old_r[k2])@ == label;
                    assert(r@[k2] == old_r[k2]);
                } else {
                    assert(next[k] == *n);
                }
            }
        }
        i = i + 1;
    }
    assert(ns.take(ns.len() as int) =~= ns);
    r
}

/// Whether a stream belongs to the chosen application, `target` being the
/// lowercased characters of a non-empty target.
fn target_match(n: &NodeInfo, target: &Vec<char>) -> (r: bool)
    ensures
        r == (is_stream(*n) && matches_target(*n, target@)),
{
    if !str_eq(n.media_class.as_str(), "Stream/Output/Audio") {
        return false;
    }
    if contains_chars(&chars_of(to_lowercase(n.name.as_str()).as_str()), target) {
        return true;
    }
    if contains_chars(&chars_of(to_lowercase(n.description.as_str()).as_str()), target) {
        return true;
    }
    match &n.app_name {
        Some(a) => contains_chars(&chars_of(to_lowercase(a.as_str()).as_str()), target),
        None => false,
    }
}

/// The ids of the streams of the chosen application, in order.
fn target_nodes(nodes: &Vec<NodeInfo>, target_app: &String) -> (r: Vec<u32>)
    ensures
        r@ == target_ids(nodes@, target_app@),
{
    let ghost ns = nodes@;
    let target = chars_of(to_lowercase(target_app.as_str()).as_str());
    let nonempty = target_app.as_str().unicode_len() > 0;
    let mut r: Vec<u32> = Vec::new();
    let mut i: usize = 0;
    while i < nodes.len()
        invariant
            ns == nodes@,
            i <= ns.len(),
            target@ == unicode_lowercase(target_app@),
            nonempty == (target_app@.len() > 0),
            r@ == target_ids(ns.take(i as int), target_app@),
        decreases nodes.len() - i,
    {
        proof {
            crate::dump::lemma_filter_take_step(ns, |n: NodeInfo| is_target(n, target_app@), i as int);
        }
        if nonempty && target_match(&nodes[i], &target) {
            r.push(nodes[i].id);
        }
        assert(r@ =~= target_ids(ns.take(i + 1), target_app@));
        i = i + 1;
    }
    assert(ns.take(ns.len() as int) =~= ns);
    r
}

/// The description of the default sink, or `"Default Output"`.
fn default_sink_description(nodes: &Vec<NodeInfo>, sink: &Option<String>) -> (r: String)
    ensures
        r@ == sink_description(nodes@, sink.deep_view()),
{
    let mut i: usize = nodes.len();
    assert(nodes@.take(i as int) =~= nodes@);
    // Scanning from the end finds the last node named like the sink.
    while i > 0
        invariant
            i <= nodes@.len(),
            sink_description(nodes@, sink.deep_view()) == sink_description(nodes@.take(i as int), sink.deep_view()),
        decreases i,
    {
        let t = Ghost(nodes@.take(i as int));
        assert(t@.drop_last() =~= nodes@.take(i - 1));
        let n = &nodes[i - 1];
        if let Some(s) = sink {
            if str_eq(n.name.as_str(), s.as_str()) {
                return n.description.clone();
            }
        }
        i = i - 1;
    }
    String::from_str("Default Output")
}

/// The ports of node `node` with direction `dir`, in order.
fn ports_on<'a>(ports: &'a Vec<PortInfo>, node: u32, dir: &str) -> (r: Vec<&'a PortInfo>)
    ensures
        derefs(r@) == node_ports(ports@, node, dir@),
{
    let ghost ps = ports@;
    let mut r: Vec<&PortInfo> = Vec::new();
    let mut i: usize = 0;
    while i < ports.len()
        invariant
            ps == ports@,
            i <= ps.len(),
            derefs(r@) == node_ports(ps.take(i as int), node, dir@),
        decreases ports.len() - i,
    {
        let p = &ports[i];
        proof {
            crate::dump::lemma_filter_take_step(ps, |q: PortInfo| q.node_id == node && q.direction@ == dir@, i as int);
        }
        if p.node_id == node && str_eq(p.direction.as_str(), dir) {
            r.push(p);
        }
        assert(derefs(r@) =~= node_ports(ps.take(i + 1), node, dir@));
        i = i + 1;
    }
    assert(ps.take(ps.len() as int) =~= ps);
    r
}

/// Appends the wanted links that do not exist yet.
fn push_missing(out: &mut Vec<(u32, u32)>, wanted: &Vec<(u32, u32)>, links: &Vec<LinkInfo>)
    ensures
        final(out)@ == old(out)@ + missing_links(wanted@, links@),
{
    let ghost start = out@;
    let mut k: usize = 0;
    while k < wanted.len()
        invariant
            k <= wanted@.len(),
            out@ == start + missing_links(wanted@.take(k as int), links@),
        decreases wanted.len() - k,
    {
        proof {
            crate::dump::lemma_filter_take_step(wanted@, |l: (u32, u32)| !port_linked(links@, l.0, l.1), k as int);
        }
        let (o, i) = wanted[k];
        if !is_port_linked(links.as_slice(), o, i) {
            out.push((o, i));
        }
        assert(out@ =~= start + missing_links(wanted@.take(k + 1), links@));
        k = k + 1;
    }
    assert(wanted@.take(wanted@.len() as int) =~= wanted@);
}

/// Decides one round of the routing loop from a snapshot of the graph and
/// the settings.
pub fn plan_cycle(
    nodes: &Vec<NodeInfo>,
    ports: &Vec<PortInfo>,
    links: &Vec<LinkInfo>,
    default_sink: &Option<String>,
    settings: &RouteSettings,
) -> (r: CyclePlan)
    ensures
        (r is CreateVirtualMic) <==> (settings.enabled && virtual_mic_id(nodes@) is None),
        (r is DestroyVirtualMic) <==> (!settings.enabled && virtual_mic_id(nodes@) is Some),
        r matches CyclePlan::Sync(plan) ==> reports_round(plan, nodes@, ports@, links@, default_sink.deep_view(), *settings),
{
    let vinput = find_last_named(nodes, "pbs_virtual_mic");
    if settings.enabled {
        if vinput.is_none() {
            return CyclePlan::CreateVirtualMic;
        }
    } else {
        if vinput.is_some() {
            return CyclePlan::DestroyVirtualMic;
        }
    }
    let available_mics = mic_entries(nodes);
    let available_apps = app_labels(nodes);
    let mic_node_id = if settings.physical_mic.as_str().unicode_len() > 0 {
        find_last_named(nodes, settings.physical_mic.as_str())
    } else {
        None
    };
    let app_node_ids = target_nodes(nodes, &settings.target_app);
    let default_sink_name = default_sink_description(nodes, default_sink);

    let mut mic_volume_node: Option<u32> = None;
    let mut new_links: Vec<(u32, u32)> = Vec::new();
    if settings.enabled {
        if let Some(vinput_id) = vinput {
            let vinput_in_ports = ports_on(ports, vinput_id, "in");
            if vinput_in_ports.len() > 0 {
                if let Some(mic_id) = mic_node_id {
                    mic_volume_node = Some(mic_id);
                    let mic_out_ports = ports_on(ports, mic_id, "out");
                    let desired = get_desired_links(mic_out_ports.as_slice(), vinput_in_ports.as_slice());
                    push_missing(&mut new_links, &desired, links);
                }
                let ghost from_mic = new_links@;
                let mut k: usize = 0;
                while k < app_node_ids.len()
                    invariant
                        k <= app_node_ids@.len(),
                        derefs(vinput_in_ports@) == virtual_inputs(nodes@, ports@),
                        new_links@ == from_mic + app_links(app_node_ids@.take(k as int), ports@, derefs(vinput_in_ports@), links@),
                    decreases app_node_ids.len() - k,
                {
                    let app_id = app_node_ids[k];
                    let app_out_ports = ports_on(ports, app_id, "out");
                    let desired = get_desired_links(app_out_ports.as_slice(), vinput_in_ports.as_slice());
                    push_missing(&mut new_links, &desired, links);
                    proof {
                        let t = app_node_ids@.take(k + 1);
                        assert(t.drop_last() =~= app_node_ids@.take(k as int));
                    }
                    assert(new_links@ =~= from_mic + app_links(app_node_ids@.take(k + 1), ports@, derefs(vinput_in_ports@), links@));
                    k = k + 1;
                }
                assert(app_node_ids@.take(app_node_ids@.len() as int) =~= app_node_ids@);
            }
        }
    }
    let plan = SyncPlan {
        available_mics,
        available_apps,
        mic_connected: mic_node_id.is_some(),
        app_connected: app_node_ids.len() > 0,
        default_sink_name,
        mic_volume_node,
        new_links,
    };
    assert(reports_round(plan, nodes@, ports@, links@, default_sink.deep_view(), *settings));
    CyclePlan::Sync(plan)
}

/// Links, as the graph would list them once created.
pub open spec fn as_links(pairs: Seq<(u32, u32)>) -> Seq<LinkInfo> {
    pairs.map_values(|p: (u32, u32)| LinkInfo { out_port: p.0, in_port: p.1 })
}

/// A filter whose predicate holds of no element is empty.
proof fn lemma_filter_none<A>(s: Seq<A>, pred: spec_fn(A) -> bool)
    requires
        forall|k: int| 0 <= k < s.len() ==> !pred(#[trigger] s[k]),
    ensures
        s.filter(pred).len() == 0,
{
    broadcast use vstd::seq_lib::group_filter_ensures;

    if s.filter(pred).len() > 0 {
        let x = s.filter(pred)[0];
        assert(pred(x));
        assert(s.filter(pred).contains(x));
        s.lemma_filter_contains_rev(pred, x);
    }
}

/// Once every missing link is among `extra`, none is missing any more.
proof fn lemma_missing_cleared(wanted: Seq<(u32, u32)>, links: Seq<LinkInfo>, extra: Seq<(u32, u32)>)
    requires
        forall|k: int|
            0 <= k < missing_links(wanted, links).len() ==> extra.contains(
                #[trigger] missing_links(wanted, links)[k],
            ),
    ensures
        missing_links(wanted, links + as_links(extra)).len() == 0,
{
    broadcast use vstd::seq_lib::group_filter_ensures;

    let all = links + as_links(extra);
    let pred = |l: (u32, u32)| !port_linked(links, l.0, l.1);
    assert forall|k: int| 0 <= k < wanted.len() implies port_linked(all, (#[trigger] wanted[k]).0, wanted[k].1) by {
        let w = wanted[k];
        if port_linked(links, w.0, w.1) {
            let j = choose|j: int| 0 <= j < links.len() && (#[trigger] links[j]).out_port == w.0 && links[j].in_port == w.1;
            assert(all[j] == links[j]);
        } else {
            assert(pred(wanted[k]));
            assert(wanted.filter(pred).contains(w));
            let m = choose|m: int| 0 <= m < wanted.filter(pred).len() && wanted.filter(pred)[m] == w;
            assert(extra.contains(missing_links(wanted, links)[m]));
            let e = choose|e: int| 0 <= e < extra.len() && extra[e] == w;
            assert(all[links.len() + e] == LinkInfo { out_port: w.0, in_port: w.1 });
        }
    }
    lemma_filter_none(wanted, |l: (u32, u32)| !port_linked(all, l.0, l.1));
}

/// Once every link planned for the streams is among `extra`, none is
/// planned for them any more.
proof fn lemma_app_links_cleared(
    apps: Seq<u32>,
    ports: Seq<PortInfo>,
    vin: Seq<PortInfo>,
    links: Seq<LinkInfo>,
    extra: Seq<(u32, u32)>,
)
    requires
        forall|k: int|
            0 <= k < app_links(apps, ports, vin, links).len() ==> extra.contains(
                #[trigger] app_links(apps, ports, vin, links)[k],
            ),
    ensures
        app_links(apps, ports, vin, links + as_links(extra)).len() == 0,
    decreases apps.len(),
{
    if apps.len() > 0 {
        let front = app_links(apps.drop_last(), ports, vin, links);
        let back = missing_links(desired_links(node_ports(ports, apps.last(), "out"@), vin), links);
        assert(app_links(apps, ports, vin, links) == front + back);
        assert forall|k: int| 0 <= k < front.len() implies extra.contains(#[trigger] front[k]) by {
            assert(app_links(apps, ports, vin, links)[k] == front[k]);
        }
        assert forall|k: int| 0 <= k < back.len() implies extra.contains(#[trigger] back[k]) by {
            assert(app_links(apps, ports, vin, links)[front.len() + k] == back[k]);
        }
        lemma_app_links_cleared(apps.drop_last(), ports, vin, links, extra);
        lemma_missing_cleared(desired_links(node_ports(ports, apps.last(), "out"@), vin), links, extra);
    }
}

/// Once the links a round plans exist, the next round over the same graph
/// plans none: rounds restore missing links and never repeat one.
pub proof fn law_created_links_are_not_planned_again(
    nodes: Seq<NodeInfo>,
    ports: Seq<PortInfo>,
    links: Seq<LinkInfo>,
    settings: RouteSettings,
)
    ensures
        planned_links(
            nodes,
            ports,
            links + as_links(planned_links(nodes, ports, links, settings)),
            settings,
        ).len() == 0,
{
    let planned = planned_links(nodes, ports, links, settings);
    let vin = virtual_inputs(nodes, ports);
    if settings.enabled && vin.len() > 0 {
        let from_mic = match mic_node(nodes, settings.physical_mic@) {
            Some(m) => missing_links(desired_links(node_ports(ports, m, "out"@), vin), links),
            None => Seq::empty(),
        };
        let apps = target_ids(nodes, settings.target_app@);
        let from_apps = app_links(apps, ports, vin, links);
        assert(planned == from_mic + from_apps);
        assert forall|k: int| 0 <= k < from_apps.len() implies planned.contains(#[trigger] from_apps[k]) by {
            assert(planned[from_mic.len() + k] == from_apps[k]);
        }
        lemma_app_links_cleared(apps, ports, vin, links, planned);
        if let Some(m) = mic_node(nodes, settings.physical_mic@) {
            let w = desired_links(node_ports(ports, m, "out"@), vin);
            assert forall|k: int| 0 <= k < missing_links(w, links).len() implies planned.contains(
                #[trigger] missing_links(w, links)[k],
            ) by {
                assert(planned[k] == from_mic[k]);
            }
            lemma_missing_cleared(w, links, planned);
        }
    }
}

/// The nodes offered as microphones never include the virtual microphone.
pub proof fn law_offered_mics_exclude_virtual_mic(nodes: Seq<NodeInfo>)
    ensures
        forall|k: int| 0 <= k < mic_nodes(nodes).len() ==> (#[trigger] mic_nodes(nodes)[k]).name@ != virtual_mic_name(),
{
    broadcast use vstd::seq_lib::group_filter_ensures;

}

/// An output port, in `ports`, of node `node`.
pub open spec fn is_output_of(ports: Seq<PortInfo>, node: u32, id: u32) -> bool {
    exists|q: int|
        0 <= q < ports.len() && (#[trigger] ports[q]).id == id && ports[q].node_id == node
            && ports[q].direction@ == "out"@
}

/// A missing link from the outputs of `node` to `vin` is new, enters one of
/// `vin`, and leaves an output port of `node`.
proof fn lemma_missing_link_shape(
    node: u32,
    ports: Seq<PortInfo>,
    vin: Seq<PortInfo>,
    links: Seq<LinkInfo>,
    l: (u32, u32),
)
    requires
        missing_links(desired_links(node_ports(ports, node, "out"@), vin), links).contains(l),
    ensures
        !port_linked(links, l.0, l.1),
        port_ids(vin).contains(l.1),
        is_output_of(ports, node, l.0),
{
    broadcast use vstd::seq_lib::group_filter_ensures;

    let outs = node_ports(ports, node, "out"@);
    let w = desired_links(outs, vin);
    let pred = |x: (u32, u32)| !port_linked(links, x.0, x.1);
    let j = choose|j: int| 0 <= j < w.filter(pred).len() && w.filter(pred)[j] == l;
    assert(pred(w.filter(pred)[j]));
    w.lemma_filter_contains_rev(pred, l);
    let i = choose|i: int| 0 <= i < w.len() && w[i] == l;
    law_links_join_outputs_to_inputs(outs, vin);
    assert(port_ids(outs).contains(w[i].0));
    let a = choose|a: int| 0 <= a < port_ids(outs).len() && port_ids(outs)[a] == l.0;
    let portp = |p: PortInfo| p.node_id == node && p.direction@ == "out"@;
    assert(outs.contains(outs[a]));
    ports.lemma_filter_contains_rev(portp, outs[a]);
    assert(portp(outs[a]));
    let q = choose|q: int| 0 <= q < ports.len() && ports[q] == outs[a];
    assert(ports[q].id == l.0);
}

/// A link planned for the streams comes from the missing links of one of them.
proof fn lemma_app_link_source(
    apps: Seq<u32>,
    ports: Seq<PortInfo>,
    vin: Seq<PortInfo>,
    links: Seq<LinkInfo>,
    k: int,
)
    requires
        0 <= k < app_links(apps, ports, vin, links).len(),
    ensures
        exists|a: int|
            0 <= a < apps.len() && missing_links(
                desired_links(node_ports(ports, #[trigger] apps[a], "out"@), vin),
                links,
            ).contains(app_links(apps, ports, vin, links)[k]),
    decreases apps.len(),
{
    let front = app_links(apps.drop_last(), ports, vin, links);
    let back = missing_links(desired_links(node_ports(ports, apps.last(), "out"@), vin), links);
    assert(app_links(apps, ports, vin, links) == front + back);
    if k < front.len() {
        lemma_app_link_source(apps.drop_last(), ports, vin, links, k);
        let a = choose|a: int|
            0 <= a < apps.drop_last().len() && missing_links(
                desired_links(node_ports(ports, #[trigger] apps.drop_last()[a], "out"@), vin),
                links,
            ).contains(front[k]);
        assert(apps[a] == apps.drop_last()[a]);
    } else {
        let a = apps.len() - 1;
        assert(back[k - front.len()] == app_links(apps, ports, vin, links)[k]);
        assert(back.contains(back[k - front.len()]));
        assert(apps[a] == apps.last());
    }
}

/// Every link a round plans is new, enters an input port of the virtual
/// microphone, and leaves an output port of the chosen microphone or of a
/// stream of the chosen application.
pub proof fn law_planned_links_feed_the_virtual_mic(
    nodes: Seq<NodeInfo>,
    ports: Seq<PortInfo>,
    links: Seq<LinkInfo>,
    settings: RouteSettings,
)
    ensures
        forall|k: int|
            0 <= k < planned_links(nodes, ports, links, settings).len() ==> {
                let l = #[trigger] planned_links(nodes, ports, links, settings)[k];
                &&& !port_linked(links, l.0, l.1)
                &&& port_ids(virtual_inputs(nodes, ports)).contains(l.1)
                &&& (match mic_node(nodes, settings.physical_mic@) {
                    Some(m) => is_output_of(ports, m, l.0),
                    None => false,
                } || exists|a: int|
                    0 <= a < target_ids(nodes, settings.target_app@).len() && is_output_of(
                        ports,
                        #[trigger] target_ids(nodes, settings.target_app@)[a],
                        l.0,
                    ))
            },
{
    let planned = planned_links(nodes, ports, links, settings);
    let vin = virtual_inputs(nodes, ports);
    let apps = target_ids(nodes, settings.target_app@);
    assert forall|k: int| 0 <= k < planned.len() implies {
        let l = #[trigger] planned[k];
        &&& !port_linked(links, l.0, l.1)
        &&& port_ids(vin).contains(l.1)
        &&& (match mic_node(nodes, settings.physical_mic@) {
            Some(m) => is_output_of(ports, m, l.0),
            None => false,
        } || exists|a: int| 0 <= a < apps.len() && is_output_of(ports, #[trigger] apps[a], l.0))
    } by {
        let from_mic = match mic_node(nodes, settings.physical_mic@) {
            Some(m) => missing_links(desired_links(node_ports(ports, m, "out"@), vin), links),
            None => Seq::empty(),
        };
        let from_apps = app_links(apps, ports, vin, links);
        assert(planned == from_mic + from_apps);
        if k < from_mic.len() {
            let m = mic_node(nodes, settings.physical_mic@).unwrap();
            assert(from_mic.contains(planned[k]));
            lemma_missing_link_shape(m, ports, vin, links, planned[k]);
        } else {
            let j = k - from_mic.len();
            assert(planned[k] == from_apps[j]);
            lemma_app_link_source(apps, ports, vin, links, j);
            let a = choose|a: int|
                0 <= a < apps.len() && missing_links(
                    desired_links(node_ports(ports, #[trigger] apps[a], "out"@), vin),
                    links,
                ).contains(from_apps[j]);
            lemma_missing_link_shape(apps[a], ports, vin, links, planned[k]);
        }
    }
}

/// The links planned for the streams include the missing links of each.
proof fn lemma_app_links_include(
    apps: Seq<u32>,
    ports: Seq<PortInfo>,
    vin: Seq<PortInfo>,
    links: Seq<LinkInfo>,
    a: int,
    l: (u32, u32),
)
    requires
        0 <= a < apps.len(),
        missing_links(desired_links(node_ports(ports, apps[a], "out"@), vin), links).contains(l),
    ensures
        app_links(apps, ports, vin, links).contains(l),
    decreases apps.len(),
{
    let front = app_links(apps.drop_last(), ports, vin, links);
    let back = missing_links(desired_links(node_ports(ports, apps.last(), "out"@), vin), links);
    assert(app_links(apps, ports, vin, links) == front + back);
    if a < apps.len() - 1 {
        assert(apps.drop_last()[a] == apps[a]);
        lemma_app_links_include(apps.drop_last(), ports, vin, links, a, l);
        let j = choose|j: int| 0 <= j < front.len() && front[j] == l;
        assert((front + back)[j] == l);
    } else {
        let j = choose|j: int| 0 <= j < back.len() && back[j] == l;
        assert((front + back)[front.len() + j] == l);
    }
}

/// While routing is on and the virtual microphone has input ports, every
/// link wanted from the chosen microphone or from a stream of the chosen
/// application either exists or is planned: a round restores any such link
/// that went missing.
pub proof fn law_missing_wanted_links_are_restored(
    nodes: Seq<NodeInfo>,
    ports: Seq<PortInfo>,
    links: Seq<LinkInfo>,
    settings: RouteSettings,
    source: u32,
    wanted: (u32, u32),
)
    requires
        settings.enabled,
        virtual_inputs(nodes, ports).len() > 0,
        mic_node(nodes, settings.physical_mic@) == Some(source) || target_ids(
            nodes,
            settings.target_app@,
        ).contains(source),
        desired_links(node_ports(ports, source, "out"@), virtual_inputs(nodes, ports)).contains(
            wanted,
        ),
    ensures
        port_linked(links, wanted.0, wanted.1) || planned_links(nodes, ports, links, settings).contains(
            wanted,
        ),
{
    broadcast use vstd::seq_lib::group_filter_ensures;

    let vin = virtual_inputs(nodes, ports);
    let w = desired_links(node_ports(ports, source, "out"@), vin);
    let pred = |x: (u32, u32)| !port_linked(links, x.0, x.1);
    if !port_linked(links, wanted.0, wanted.1) {
        let i = choose|i: int| 0 <= i < w.len() && w[i] == wanted;
        assert(pred(w[i]));
        assert(missing_links(w, links).contains(wanted));
        let planned = planned_links(nodes, ports, links, settings);
        let from_mic = match mic_node(nodes, settings.physical_mic@) {
            Some(m) => missing_links(desired_links(node_ports(ports, m, "out"@), vin), links),
            None => Seq::empty(),
        };
        let apps = target_ids(nodes, settings.target_app@);
        let from_apps = app_links(apps, ports, vin, links);
        assert(planned == from_mic + from_apps);
        if mic_node(nodes, settings.physical_mic@) == Some(source) {
            let j = choose|j: int| 0 <= j < from_mic.len() && from_mic[j] == wanted;
            assert(planned[j] == wanted);
        } else {
            let a = choose|a: int| 0 <= a < apps.len() && apps[a] == source;
            lemma_app_links_include(apps, ports, vin, links, a, wanted);
            let j = choose|j: int| 0 <= j < from_apps.len() && from_apps[j] == wanted;
            assert(planned[from_mic.len() + j] == wanted);
        }
    }
}

/// The lowercased target `t` stands at position `i` of the lowercased `text`.
pub open spec fn occurs_at(text: Seq<char>, t: Seq<char>, i: int) -> bool {
    0 <= i && i + t.len() <= unicode_lowercase(text).len() && unicode_lowercase(text).subrange(
        i,
        i + t.len(),
    ) == t
}

/// A playing stream is among the chosen application's streams as soon as the
/// lowercased target occurs anywhere (at any position) in its lowercased node
/// name, description or application name; so the application counts as
/// connected.
pub proof fn law_target_found_anywhere_in_a_stream(
    nodes: Seq<NodeInfo>,
    target: Seq<char>,
    k: int,
    i: int,
)
    requires
        target.len() > 0,
        0 <= k < nodes.len(),
        nodes[k].media_class@ == "Stream/Output/Audio"@,
        occurs_at(nodes[k].name@, unicode_lowercase(target), i) || occurs_at(
            nodes[k].description@,
            unicode_lowercase(target),
            i,
        ) || (nodes[k].app_name matches Some(a) && occurs_at(a@, unicode_lowercase(target), i)),
    ensures
        target_ids(nodes, target).contains(nodes[k].id),
        target_ids(nodes, target).len() > 0,
{
    broadcast use vstd::seq_lib::group_filter_ensures;

    let t = unicode_lowercase(target);
    let n = nodes[k];
    if occurs_at(n.name@, t, i) {
        assert(unicode_lowercase(n.name@).subrange(i, i + t.len()) == t);
    } else if occurs_at(n.description@, t, i) {
        assert(unicode_lowercase(n.description@).subrange(i, i + t.len()) == t);
    } else {
        let a = n.app_name.unwrap();
        assert(unicode_lowercase(a@).subrange(i, i + t.len()) == t);
    }
    assert(matches_target(n, t));
    let pred = |m: NodeInfo| is_target(m, target);
    assert(pred(nodes[k]));
    assert(nodes.filter(pred).contains(nodes[k]));
    let j = choose|j: int| 0 <= j < nodes.filter(pred).len() && nodes.filter(pred)[j] == nodes[k];
    assert(target_ids(nodes, target)[j] == nodes[k].id);
}

/// The lowercased target `t` stands somewhere in the lowercased `text`.
pub open spec fn occurs_in(text: Seq<char>, t: Seq<char>) -> bool {
    exists|i: int| #[trigger] occurs_at(text, t, i)
}

/// Every stream taken for the chosen application is a playing stream whose
/// lowercased node name, description or application name holds the
/// lowercased, non-empty target somewhere.
pub proof fn law_target_streams_hold_the_target(nodes: Seq<NodeInfo>, target: Seq<char>, x: u32)
    requires
        target_ids(nodes, target).contains(x),
    ensures
        target.len() > 0,
        exists|k: int|
            0 <= k < nodes.len() && (#[trigger] nodes[k]).id == x && nodes[k].media_class@
                == "Stream/Output/Audio"@ && (occurs_in(nodes[k].name@, unicode_lowercase(target))
                || occurs_in(nodes[k].description@, unicode_lowercase(target)) || (
            nodes[k].app_name matches Some(a) && occurs_in(a@, unicode_lowercase(target)))),
{
    broadcast use vstd::seq_lib::group_filter_ensures;

    let t = unicode_lowercase(target);
    let pred = |m: NodeInfo| is_target(m, target);
    let f = nodes.filter(pred);
    let j = choose|j: int| 0 <= j < target_ids(nodes, target).len() && target_ids(nodes, target)[j] == x;
    assert(pred(f[j]));
    assert(f.contains(f[j]));
    nodes.lemma_filter_contains_rev(pred, f[j]);
    let k = choose|k: int| 0 <= k < nodes.len() && nodes[k] == f[j];
    let n = nodes[k];
    assert(n.id == x);
    if has_infix(unicode_lowercase(n.name@), t) {
        let i = choose|i: int| 0 <= i && i + t.len() <= unicode_lowercase(n.name@).len() && #[trigger] unicode_lowercase(n.name@).subrange(i, i + t.len()) == t;
        assert(occurs_at(n.name@, t, i));
    } else if has_infix(unicode_lowercase(n.description@), t) {
        let i = choose|i: int| 0 <= i && i + t.len() <= unicode_lowercase(n.description@).len() && #[trigger] unicode_lowercase(n.description@).subrange(i, i + t.len()) == t;
        assert(occurs_at(n.description@, t, i));
    } else {
        let a = n.app_name.unwrap();
        let i = choose|i: int| 0 <= i && i + t.len() <= unicode_lowercase(a@).len() && #[trigger] unicode_lowercase(a@).subrange(i, i + t.len()) == t;
        assert(occurs_at(a@, t, i));
    }
}

} // verus!
