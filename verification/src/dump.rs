//! The objects that `pw-dump` reports, and their reading into nodes, ports,
//! links and the default sink.
use vstd::prelude::*;

use crate::links::{LinkInfo, PortInfo};
use crate::text::{
    chars_of, has_prefix, parse_u32, parse_u32_spec, starts_with_chars, str_eq, to_lowercase,
    unicode_lowercase,
};

verus! {

/// The value of a property, as the routing logic reads it.
#[derive(Debug, Clone)]
pub enum PropValue {
    /// A JSON string, by its contents.
    Str(String),
    /// Any other JSON value: its JSON text, and its number where it is a
    /// non-negative integer that fits in a `u64`.
    Other { json: String, unsigned: Option<u64> },
}

/// One key of a JSON object, with its value.
#[derive(Debug, Clone)]
pub struct PropEntry {
    pub key: String,
    pub value: PropValue,
}

/// The `info` part of a `pw-dump` object.
#[derive(Debug, Clone)]
pub struct PwInfo {
    /// The entries of `info.props`, where it is present (an object that is
    /// not a JSON object has no entries).
    pub props: Option<Vec<PropEntry>>,
    pub direction: Option<String>,
    pub output_node_id: Option<u32>,
    pub output_port_id: Option<u32>,
    pub input_node_id: Option<u32>,
    pub input_port_id: Option<u32>,
}

/// One entry of the `metadata` list of a metadata object.
#[derive(Debug, Clone)]
pub struct PwMetadata {
    pub key: String,
    /// The entries of the entry's value where it is a JSON object, else none.
    pub value: Vec<PropEntry>,
}

/// One object of the `pw-dump` output.
#[derive(Debug, Clone)]
pub struct PwObject {
    pub id: u32,
    pub object_type: String,
    pub info: Option<PwInfo>,
    pub props: Option<Vec<PropEntry>>,
    pub metadata: Option<Vec<PwMetadata>>,
}

/// A node of the PipeWire graph.
#[derive(Debug)]
pub struct NodeInfo {
    pub id: u32,
    pub name: String,
    pub description: String,
    pub media_class: String,
    pub app_name: Option<String>,
}

/// The value stored under `key`: that of the first entry with that key.
pub open spec fn prop_lookup(entries: Seq<PropEntry>, key: Seq<char>) -> Option<PropValue>
    decreases entries.len(),
{
    if entries.len() == 0 {
        None
    } else if entries[0].key@ == key {
        Some(entries[0].value)
    } else {
        prop_lookup(entries.drop_first(), key)
    }
}

/// A property as text: a string's contents, else the value's JSON text.
pub open spec fn prop_text(v: PropValue) -> Seq<char> {
    match v {
        PropValue::Str(s) => s@,
        PropValue::Other { json, .. } => json@,
    }
}

/// A property as a `u32`: an unsigned number cut to its low 32 bits, or a
/// string that parses as a `u32`.
pub open spec fn prop_number(v: PropValue) -> Option<u32> {
    match v {
        PropValue::Str(s) => parse_u32_spec(s@),
        PropValue::Other { unsigned, .. } => match unsigned {
            Some(n) => Some(n as u32),
            None => None,
        },
    }
}

/// The value under `key` in `info.props`, if any.
pub open spec fn info_prop(obj: PwObject, key: Seq<char>) -> Option<PropValue> {
    match obj.info {
        Some(info) => match info.props {
            Some(p) => prop_lookup(p@, key),
            None => None,
        },
        None => None,
    }
}

/// The value under `key` in the object's own `props`, if any.
pub open spec fn own_prop(obj: PwObject, key: Seq<char>) -> Option<PropValue> {
    match obj.props {
        Some(p) => prop_lookup(p@, key),
        None => None,
    }
}

/// A property as text, looked up in `info.props` first and then in `props`.
pub open spec fn prop_str(obj: PwObject, key: Seq<char>) -> Option<Seq<char>> {
    match info_prop(obj, key) {
        Some(v) => Some(prop_text(v)),
        None => match own_prop(obj, key) {
            Some(v) => Some(prop_text(v)),
            None => None,
        },
    }
}

/// A property as a `u32`: from `info.props` where it is there and readable
/// as a number, else from `props`.
pub open spec fn prop_u32(obj: PwObject, key: Seq<char>) -> Option<u32> {
    let first = match info_prop(obj, key) {
        Some(v) => prop_number(v),
        None => None,
    };
    match first {
        Some(n) => Some(n),
        None => match own_prop(obj, key) {
            Some(v) => prop_number(v),
            None => None,
        },
    }
}

/// Entries before position `i` hold another key, so the lookup starts at `i`.
proof fn lemma_lookup_skip(s: Seq<PropEntry>, key: Seq<char>, i: int)
    requires
        0 <= i <= s.len(),
        forall|j: int| 0 <= j < i ==> (#[trigger] s[j]).key@ != key,
    ensures
        prop_lookup(s, key) == prop_lookup(s.subrange(i, s.len() as int), key),
    decreases i,
{
    if i > 0 {
        let rest = s.drop_first();
        assert forall|j: int| 0 <= j < i - 1 implies (#[trigger] rest[j]).key@ != key by {
            assert(rest[j] == s[j + 1]);
        }
        lemma_lookup_skip(rest, key, i - 1);
        assert(rest.subrange(i - 1, rest.len() as int) =~= s.subrange(i, s.len() as int));
    } else {
        assert(s.subrange(0, s.len() as int) =~= s);
    }
}

/// The position of the first entry with key `key`.
fn find_prop(entries: &Vec<PropEntry>, key: &str) -> (r: Option<usize>)
    ensures
        match r {
            Some(i) => i < entries@.len() && prop_lookup(entries@, key@) == Some(entries@[i as int].value),
            None => prop_lookup(entries@, key@) is None,
        },
{
    let mut i: usize = 0;
    while i < entries.len()
        invariant
            i <= entries@.len(),
            forall|j: int| 0 <= j < i ==> (#[trigger] entries@[j]).key@ != key@,
        decreases entries.len() - i,
    {
        if str_eq(entries[i].key.as_str(), key) {
            proof {
                lemma_lookup_skip(entries@, key@, i as int);
            }
            return Some(i);
        }
        i = i + 1;
    }
    proof {
        lemma_lookup_skip(entries@, key@, i as int);
    }
    None
}

/// A property as text.
fn text_of(v: &PropValue) -> (r: String)
    ensures
        r@ == prop_text(*v),
{
    match v {
        PropValue::Str(s) => s.clone(),
        PropValue::Other { json, .. } => json.clone(),
    }
}

/// A property as a `u32`.
fn number_of(v: &PropValue) -> (r: Option<u32>)
    ensures
        r == prop_number(*v),
{
    match v {
        PropValue::Other { unsigned: Some(n), .. } => Some(*n as u32),
        PropValue::Str(s) => parse_u32(s.as_str()),
        _ => None,
    }
}

/// The value under `key` in optional property entries.
fn lookup_in<'a>(props: &'a Option<Vec<PropEntry>>, key: &str) -> (r: Option<&'a PropValue>)
    ensures
        ({
            let found = match props {
                Some(p) => prop_lookup(p@, key@),
                None => None,
            };
            match r {
                Some(v) => found == Some(*v),
                None => found is None,
            }
        }),
{
    match props {
        Some(p) => match find_prop(p, key) {
            Some(i) => Some(&p[i].value),
            None => None,
        },
        None => None,
    }
}

/// Reads a property as text from `info.props`, else from `props`.
pub fn get_prop_str(obj: &PwObject, key: &str) -> (r: Option<String>)
    ensures
        r.deep_view() == prop_str(*obj, key@),
{
    if let Some(info) = &obj.info {
        if let Some(v) = lookup_in(&info.props, key) {
            return Some(text_of(v));
        }
    }
    if let Some(v) = lookup_in(&obj.props, key) {
        return Some(text_of(v));
    }
    None
}

/// Reads a property as a `u32` from `info.props`, else from `props`.
pub fn get_prop_u32(obj: &PwObject, key: &str) -> (r: Option<u32>)
    ensures
        r == prop_u32(*obj, key@),
{
    if let Some(info) = &obj.info {
        if let Some(v) = lookup_in(&info.props, key) {
            if let Some(n) = number_of(v) {
                return Some(n);
            }
        }
    }
    if let Some(v) = lookup_in(&obj.props, key) {
        if let Some(n) = number_of(v) {
            return Some(n);
        }
    }
    None
}

/// Text that may be missing, read as empty when it is.
pub open spec fn text_or_empty(t: Option<Seq<char>>) -> Seq<char> {
    match t {
        Some(s) => s,
        None => Seq::empty(),
    }
}

/// A node object.
pub open spec fn is_node_object(o: PwObject) -> bool {
    o.object_type@ == "PipeWire:Interface:Node"@
}

/// A port object that names its node.
pub open spec fn is_port_object(o: PwObject) -> bool {
    o.object_type@ == "PipeWire:Interface:Port"@ && prop_u32(o, "node.id"@) is Some
}

/// A link object that names both its ports.
pub open spec fn is_link_object(o: PwObject) -> bool {
    o.object_type@ == "PipeWire:Interface:Link"@ && match o.info {
        Some(info) => info.output_port_id is Some && info.input_port_id is Some,
        None => false,
    }
}

/// `n` is the node that object `o` describes.
pub open spec fn node_matches(o: PwObject, n: NodeInfo) -> bool {
    let name = text_or_empty(prop_str(o, "node.name"@));
    &&& n.id == o.id
    &&& n.name@ == name
    &&& n.description@ == match prop_str(o, "node.description"@) {
        Some(d) => d,
        None => name,
    }
    &&& n.media_class@ == text_or_empty(prop_str(o, "media.class"@))
    &&& n.app_name.deep_view() == match prop_str(o, "application.name"@) {
        Some(a) => Some(a),
        None => prop_str(o, "app.name"@),
    }
}

/// The direction a port object states: its `port.direction` property, else
/// `info.direction`, else nothing.
pub open spec fn raw_direction(o: PwObject) -> Seq<char> {
    match prop_str(o, "port.direction"@) {
        Some(d) => d,
        None => match o.info {
            Some(info) => match info.direction {
                Some(d) => d@,
                None => Seq::empty(),
            },
            None => Seq::empty(),
        },
    }
}

/// A lowercased direction, cut to `"in"` or `"out"` where it starts so.
pub open spec fn normal_direction(l: Seq<char>) -> Seq<char> {
    if has_prefix(l, "in"@) {
        "in"@
    } else if has_prefix(l, "out"@) {
        "out"@
    } else {
        l
    }
}

/// `p` is the port that object `o` describes.
pub open spec fn port_matches(o: PwObject, p: PortInfo) -> bool {
    &&& p.id == o.id
    &&& prop_u32(o, "node.id"@) == Some(p.node_id)
    &&& p.name@ == text_or_empty(prop_str(o, "port.name"@))
    &&& p.direction@ == normal_direction(unicode_lowercase(raw_direction(o)))
}

/// `l` is the link that object `o` describes.
pub open spec fn link_matches(o: PwObject, l: LinkInfo) -> bool {
    match o.info {
        Some(info) => info.output_port_id == Some(l.out_port) && info.input_port_id == Some(l.in_port),
        None => false,
    }
}

/// The default sink named by a metadata entry, if it names one.
pub open spec fn entry_sink(m: PwMetadata) -> Option<Seq<char>> {
    if m.key@ == "default.audio.sink"@ {
        match prop_lookup(m.value@, "name"@) {
            Some(PropValue::Str(n)) => Some(n@),
            _ => None,
        }
    } else {
        None
    }
}

/// The default sink named by the last entry that names one.
pub open spec fn last_entry_sink(ms: Seq<PwMetadata>) -> Option<Seq<char>>
    decreases ms.len(),
{
    if ms.len() == 0 {
        None
    } else {
        match entry_sink(ms.last()) {
            Some(n) => Some(n),
            None => last_entry_sink(ms.drop_last()),
        }
    }
}

/// The default sink that an object names: only the metadata object named
/// `default` names one.
pub open spec fn object_sink(o: PwObject) -> Option<Seq<char>> {
    if o.object_type@ == "PipeWire:Interface:Metadata"@ && prop_str(o, "metadata.name"@) == Some(
        "default"@,
    ) {
        match o.metadata {
            Some(ms) => last_entry_sink(ms@),
            None => None,
        }
    } else {
        None
    }
}

/// The default sink named by the last object that names one.
pub open spec fn dump_default_sink(objs: Seq<PwObject>) -> Option<Seq<char>>
    decreases objs.len(),
{
    if objs.len() == 0 {
        None
    } else {
        match object_sink(objs.last()) {
            Some(n) => Some(n),
            None => dump_default_sink(objs.drop_last()),
        }
    }
}

/// The node objects, in order.
pub open spec fn node_objects(objs: Seq<PwObject>) -> Seq<PwObject> {
    objs.filter(|o: PwObject| is_node_object(o))
}

/// The port objects that name their node, in order.
pub open spec fn port_objects(objs: Seq<PwObject>) -> Seq<PwObject> {
    objs.filter(|o: PwObject| is_port_object(o))
}

/// The link objects that name both ports, in order.
pub open spec fn link_objects(objs: Seq<PwObject>) -> Seq<PwObject> {
    objs.filter(|o: PwObject| is_link_object(o))
}

/// Filtering one more element of a sequence.
pub proof fn lemma_filter_take_step<A>(s: Seq<A>, pred: spec_fn(A) -> bool, i: int)
    requires
        0 <= i < s.len(),
    ensures
        s.take(i + 1).filter(pred) == if pred(s[i]) {
            s.take(i).filter(pred).push(s[i])
        } else {
            s.take(i).filter(pred)
        },
{
    reveal_with_fuel(Seq::<_>::filter, 1);
    assert(s.take(i + 1).drop_last() =~= s.take(i));
    assert(s.take(i + 1).last() == s[i]);
}

/// The four kinds of object are told apart by their type names.
proof fn lemma_object_kinds_distinct()
    ensures
        "PipeWire:Interface:Node"@ != "PipeWire:Interface:Port"@,
        "PipeWire:Interface:Node"@ != "PipeWire:Interface:Link"@,
        "PipeWire:Interface:Port"@ != "PipeWire:Interface:Link"@,
        "PipeWire:Interface:Metadata"@ != "PipeWire:Interface:Node"@,
        "PipeWire:Interface:Metadata"@ != "PipeWire:Interface:Port"@,
        "PipeWire:Interface:Metadata"@ != "PipeWire:Interface:Link"@,
{
    reveal_strlit("PipeWire:Interface:Node");
    reveal_strlit("PipeWire:Interface:Port");
    reveal_strlit("PipeWire:Interface:Link");
    reveal_strlit("PipeWire:Interface:Metadata");
    assert("PipeWire:Interface:Node"@[19] == 'N');
    assert("PipeWire:Interface:Port"@[19] == 'P');
    assert("PipeWire:Interface:Link"@[19] == 'L');
    assert("PipeWire:Interface:Metadata"@.len() == 27);
    assert("PipeWire:Interface:Node"@.len() == 23);
}

/// The node that a node object describes.
fn node_from_object(obj: &PwObject) -> (n: NodeInfo)
    ensures
        node_matches(*obj, n),
{
    let name = match get_prop_str(obj, "node.name") {
        Some(s) => s,
        None => String::new(),
    };
    let description = match get_prop_str(obj, "node.description") {
        Some(s) => s,
        None => name.clone(),
    };
    let media_class = match get_prop_str(obj, "media.class") {
        Some(s) => s,
        None => String::new(),
    };
    let app_name = match get_prop_str(obj, "application.name") {
        Some(s) => Some(s),
        None => get_prop_str(obj, "app.name"),
    };
    NodeInfo { id: obj.id, name, description, media_class, app_name }
}

/// The port that a port object describes, where it names its node.
fn port_from_object(obj: &PwObject) -> (r: Option<PortInfo>)
    ensures
        r is Some <==> prop_u32(*obj, "node.id"@) is Some,
        r matches Some(p) ==> port_matches(*obj, p),
{
    let node_id = match get_prop_u32(obj, "node.id") {
        Some(n) => n,
        None => return None,
    };
    let name = match get_prop_str(obj, "port.name") {
        Some(s) => s,
        None => String::new(),
    };
    let raw = match get_prop_str(obj, "port.direction") {
        Some(d) => d,
        None => match &obj.info {
            Some(info) => match &info.direction {
                Some(d) => d.clone(),
                None => String::new(),
            },
            None => String::new(),
        },
    };
    let raw_dir = to_lowercase(raw.as_str());
    let chars = chars_of(raw_dir.as_str());
    let direction = if starts_with_chars(&chars, &chars_of("in")) {
        String::from_str("in")
    } else if starts_with_chars(&chars, &chars_of("out")) {
        String::from_str("out")
    } else {
        raw_dir
    };
    Some(PortInfo { id: obj.id, node_id, name, direction })
}

/// The link that a link object describes, where it names both ports.
fn link_from_object(obj: &PwObject) -> (r: Option<LinkInfo>)
    ensures
        r is Some <==> (obj.info matches Some(info) && info.output_port_id is Some
            && info.input_port_id is Some),
        r matches Some(l) ==> link_matches(*obj, l),
{
    if let Some(info) = &obj.info {
        if let (Some(out_p), Some(in_p)) = (info.output_port_id, info.input_port_id) {
            return Some(LinkInfo { out_port: out_p, in_port: in_p });
        }
    }
    None
}

/// The default sink that the entries of a `default` metadata object name.
fn sink_of_entries(metas: &Vec<PwMetadata>) -> (r: Option<String>)
    ensures
        r.deep_view() == last_entry_sink(metas@),
{
    let mut found: Option<String> = None;
    let mut j: usize = 0;
    while j < metas.len()
        invariant
            j <= metas@.len(),
            found.deep_view() == last_entry_sink(metas@.take(j as int)),
        decreases metas.len() - j,
    {
        let meta = &metas[j];
        proof {
            let t = metas@.take(j + 1);
            assert(t.drop_last() =~= metas@.take(j as int));
            assert(t.last() == *meta);
        }
        if str_eq(meta.key.as_str(), "default.audio.sink") {
            if let Some(k) = find_prop(&meta.value, "name") {
                if let PropValue::Str(n) = &meta.value[k].value {
                    found = Some(n.clone());
                }
            }
        }
        j = j + 1;
    }
    assert(metas@.take(metas@.len() as int) =~= metas@);
    found
}

/// Reads the objects of a `pw-dump` into nodes, ports, links and the name of
/// the default sink.
pub fn parse_dump(objects: &[PwObject]) -> (r: (Vec<NodeInfo>, Vec<PortInfo>, Vec<LinkInfo>, Option<String>))
    ensures
        r.0@.len() == node_objects(objects@).len(),
        forall|k: int| 0 <= k < r.0@.len() ==> node_matches(node_objects(objects@)[k], #[trigger] r.0@[k]),
        r.1@.len() == port_objects(objects@).len(),
        forall|k: int| 0 <= k < r.1@.len() ==> port_matches(port_objects(objects@)[k], #[trigger] r.1@[k]),
        r.2@.len() == link_objects(objects@).len(),
        forall|k: int| 0 <= k < r.2@.len() ==> link_matches(link_objects(objects@)[k], #[trigger] r.2@[k]),
        r.3.deep_view() == dump_default_sink(objects@),
{
    let ghost objs = objects@;
    let mut nodes: Vec<NodeInfo> = Vec::new();
    let mut ports: Vec<PortInfo> = Vec::new();
    let mut links: Vec<LinkInfo> = Vec::new();
    let mut default_sink: Option<String> = None;
    let mut i: usize = 0;
    while i < objects.len()
        invariant
            objs == objects@,
            i <= objs.len(),
            nodes@.len() == node_objects(objs.take(i as int)).len(),
            forall|k: int| 0 <= k < nodes@.len() ==> node_matches(node_objects(objs.take(i as int))[k], #[trigger] nodes@[k]),
            ports@.len() == port_objects(objs.take(i as int)).len(),
            forall|k: int| 0 <= k < ports@.len() ==> port_matches(port_objects(objs.take(i as int))[k], #[trigger] ports@[k]),
            links@.len() == link_objects(objs.take(i as int)).len(),
            forall|k: int| 0 <= k < links@.len() ==> link_matches(link_objects(objs.take(i as int))[k], #[trigger] links@[k]),
            default_sink.deep_view() == dump_default_sink(objs.take(i as int)),
        decreases objects.len() - i,
    {
        let obj = &objects[i];
        let ghost prev = objs.take(i as int);
        let ghost next = objs.take(i + 1);
        proof {
            lemma_filter_take_step(objs, |o: PwObject| is_node_object(o), i as int);
            lemma_filter_take_step(objs, |o: PwObject| is_port_object(o), i as int);
            lemma_filter_take_step(objs, |o: PwObject| is_link_object(o), i as int);
            assert(next.drop_last() =~= prev);
            assert(next.last() == *obj);
            lemma_object_kinds_distinct();
        }
        let kind = obj.object_type.as_str();
        if str_eq(kind, "PipeWire:Interface:Node") {
            let n = node_from_object(obj);
            nodes.push(n);
        } else if str_eq(kind, "PipeWire:Interface:Port") {
            if let Some(p) = port_from_object(obj) {
                ports.push(p);
            }
        } else if str_eq(kind, "PipeWire:Interface:Link") {
            if let Some(l) = link_from_object(obj) {
                links.push(l);
            }
        } else if str_eq(kind, "PipeWire:Interface:Metadata") {
            let name = get_prop_str(obj, "metadata.name");
            let is_default = match &name {
                Some(s) => str_eq(s.as_str(), "default"),
                None => false,
            };
            if is_default {
                if let Some(metas) = &obj.metadata {
                    if let Some(n) = sink_of_entries(metas) {
                        default_sink = Some(n);
                    }
                }
            }
        }
        i = i + 1;
    }
    assert(objs.take(objs.len() as int) =~= objs);
    (nodes, ports, links, default_sink)
}

/// A node's description is its `node.description` property wherever that is
/// present; only without it does the node's name stand in. Likewise its
/// application name is `application.name` wherever present, and `app.name`
/// only without it.
pub proof fn law_node_description_and_app_name(o: PwObject, n: NodeInfo)
    requires
        node_matches(o, n),
    ensures
        prop_str(o, "node.description"@) matches Some(d) ==> n.description@ == d,
        prop_str(o, "node.description"@) is None ==> n.description@ == n.name@,
        prop_str(o, "application.name"@) matches Some(a) ==> n.app_name.deep_view() == Some(a),
        prop_str(o, "application.name"@) is None ==> n.app_name.deep_view() == prop_str(
            o,
            "app.name"@,
        ),
{
}

/// The first `key` entry of `info.props` is what a property lookup finds.
proof fn lemma_info_entry_found(o: PwObject, key: Seq<char>, k: int)
    requires
        o.info matches Some(info) && info.props matches Some(p) && 0 <= k < p@.len()
            && p@[k].key@ == key && forall|j: int| 0 <= j < k ==> (#[trigger] p@[j]).key@ != key,
    ensures
        prop_str(o, key) == Some(prop_text(o.info.unwrap().props.unwrap()@[k].value)),
{
    let p = o.info.unwrap().props.unwrap()@;
    lemma_lookup_skip(p, key, k);
    assert(p.subrange(k, p.len() as int)[0] == p[k]);
}

/// A node object whose `info.props` holds the text `d` under
/// `node.description` (its first entry with that key) yields a node whose
/// description is `d`, whatever its name.
pub proof fn law_node_takes_description_text(o: PwObject, n: NodeInfo, k: int, d: String)
    requires
        node_matches(o, n),
        o.info matches Some(info) && info.props matches Some(p) && 0 <= k < p@.len()
            && p@[k].key@ == "node.description"@ && p@[k].value == PropValue::Str(d)
            && forall|j: int| 0 <= j < k ==> (#[trigger] p@[j]).key@ != "node.description"@,
    ensures
        n.description@ == d@,
{
    lemma_info_entry_found(o, "node.description"@, k);
}

/// A node object whose `info.props` holds the text `a` under
/// `application.name` (its first entry with that key) yields a node whose
/// application name is `a`, whatever `app.name` says.
pub proof fn law_node_takes_application_name_text(o: PwObject, n: NodeInfo, k: int, a: String)
    requires
        node_matches(o, n),
        o.info matches Some(info) && info.props matches Some(p) && 0 <= k < p@.len()
            && p@[k].key@ == "application.name"@ && p@[k].value == PropValue::Str(a)
            && forall|j: int| 0 <= j < k ==> (#[trigger] p@[j]).key@ != "application.name"@,
    ensures
        n.app_name.deep_view() == Some(a@),
{
    lemma_info_entry_found(o, "application.name"@, k);
}

} // verus!
