//! Which output ports to link to which input ports, and whether a link exists.
use vstd::prelude::*;

use crate::channel::{channel_of_name, detect_channel, Channel};
use vstd::arithmetic::div_mod::{lemma_fundamental_div_mod, lemma_fundamental_div_mod_converse};

verus! {

/// A port of the PipeWire graph.
#[derive(Debug)]
pub struct PortInfo {
    pub id: u32,
    pub node_id: u32,
    pub name: String,
    /// `"in"`, `"out"`, or the raw direction text where it is neither.
    pub direction: String,
}

/// A link of the PipeWire graph, from an output port to an input port.
#[derive(Debug)]
pub struct LinkInfo {
    pub out_port: u32,
    pub in_port: u32,
}

/// The ports behind a slice of references.
pub open spec fn derefs(ps: Seq<&PortInfo>) -> Seq<PortInfo> {
    ps.map_values(|p: &PortInfo| *p)
}

/// The channel of a port.
pub open spec fn port_channel(p: PortInfo) -> Channel {
    channel_of_name(p.name@)
}

/// The ids of the ports, in order.
pub open spec fn port_ids(ps: Seq<PortInfo>) -> Seq<u32> {
    ps.map_values(|p: PortInfo| p.id)
}

/// The ids of the ports on channel `c`, in order.
pub open spec fn ids_on(ps: Seq<PortInfo>, c: Channel) -> Seq<u32> {
    port_ids(ps.filter(|p: PortInfo| port_channel(p) == c))
}

/// Every output id paired with every input id: outputs in order, and for
/// each output the inputs in order.
pub open spec fn cross(outs: Seq<u32>, ins: Seq<u32>) -> Seq<(u32, u32)>
    decreases outs.len(),
{
    if outs.len() == 0 {
        Seq::empty()
    } else {
        cross(outs.drop_last(), ins) + ins.map_values(|i: u32| (outs.last(), i))
    }
}

/// Whether left/right matching applies: both sides have a port that is left
/// or right.
pub open spec fn is_stereo_pairing(outs: Seq<PortInfo>, ins: Seq<PortInfo>) -> bool {
    (ids_on(outs, Channel::Left).len() > 0 || ids_on(outs, Channel::Right).len() > 0) && (ids_on(
        ins,
        Channel::Left,
    ).len() > 0 || ids_on(ins, Channel::Right).len() > 0)
}

/// The links wanted from `outs` to `ins`: left to left and right to right when
/// both sides have a left or right port, otherwise every output to every input.
pub open spec fn desired_links(outs: Seq<PortInfo>, ins: Seq<PortInfo>) -> Seq<(u32, u32)> {
    if is_stereo_pairing(outs, ins) {
        cross(ids_on(outs, Channel::Left), ids_on(ins, Channel::Left)) + cross(
            ids_on(outs, Channel::Right),
            ids_on(ins, Channel::Right),
        )
    } else {
        cross(port_ids(outs), port_ids(ins))
    }
}

/// Some link in `links` goes from `out_port` to `in_port`.
pub open spec fn port_linked(links: Seq<LinkInfo>, out_port: u32, in_port: u32) -> bool {
    exists|k: int|
        0 <= k < links.len() && (#[trigger] links[k]).out_port == out_port && links[k].in_port
            == in_port
}

/// The ids of the ports on channel `c`, in order.
fn ids_on_channel(ports: &[&PortInfo], c: Channel) -> (r: Vec<u32>)
    ensures
        r@ == ids_on(derefs(ports@), c),
{
    let ghost ps = derefs(ports@);
    let mut r: Vec<u32> = Vec::new();
    let mut i: usize = 0;
    while i < ports.len()
        invariant
            ps == derefs(ports@),
            i <= ports@.len(),
            r@ == ids_on(ps.take(i as int), c),
        decreases ports.len() - i,
    {
        let p: &PortInfo = ports[i];
        let pc = detect_channel(p.name.as_str());
        proof {
            reveal_with_fuel(Seq::<_>::filter, 1);
            assert(ps.take(i + 1).drop_last() =~= ps.take(i as int));
            assert(ps[i as int] == *p);
        }
        if pc == c {
            r.push(p.id);
        }
        proof {
            let pred = |q: PortInfo| port_channel(q) == c;
            assert(ps.take(i + 1).filter(pred) == if pred(ps[i as int]) {
                ps.take(i as int).filter(pred).push(ps[i as int])
            } else {
                ps.take(i as int).filter(pred)
            });
            assert(r@ =~= ids_on(ps.take(i + 1), c));
        }
        i = i + 1;
    }
    assert(ps.take(ports@.len() as int) =~= ps);
    r
}

/// The ids of all the ports, in order.
fn all_ids(ports: &[&PortInfo]) -> (r: Vec<u32>)
    ensures
        r@ == port_ids(derefs(ports@)),
{
    let ghost ps = derefs(ports@);
    let mut r: Vec<u32> = Vec::new();
    let mut i: usize = 0;
    while i < ports.len()
        invariant
            ps == derefs(ports@),
            i <= ports@.len(),
            r@ == port_ids(ps.take(i as int)),
        decreases ports.len() - i,
    {
        r.push(ports[i].id);
        assert(r@ =~= port_ids(ps.take(i + 1)));
        i = i + 1;
    }
    assert(ps.take(ports@.len() as int) =~= ps);
    r
}

/// Appends every pair of an output id with an input id.
fn push_cross(links: &mut Vec<(u32, u32)>, outs: &[u32], ins: &[u32])
    ensures
        final(links)@ == old(links)@ + cross(outs@, ins@),
{
    let ghost start = links@;
    let mut a: usize = 0;
    while a < outs.len()
        invariant
            a <= outs@.len(),
            links@ == start + cross(outs@.take(a as int), ins@),
        decreases outs.len() - a,
    {
        let o = outs[a];
        let ghost before = links@;
        let mut b: usize = 0;
        while b < ins.len()
            invariant
                b <= ins@.len(),
                links@ == before + ins@.take(b as int).map_values(|i: u32| (o, i)),
            decreases ins.len() - b,
        {
            links.push((o, ins[b]));
            assert(ins@.take(b + 1).map_values(|i: u32| (o, i)) =~= ins@.take(b as int).map_values(
                |i: u32| (o, i),
            ).push((o, ins@[b as int])));
            b = b + 1;
        }
        proof {
            let t = outs@.take(a + 1);
            assert(t.drop_last() =~= outs@.take(a as int));
            assert(ins@.take(ins@.len() as int) =~= ins@);
            assert(links@ =~= start + cross(t, ins@));
        }
        a = a + 1;
    }
    assert(outs@.take(outs@.len() as int) =~= outs@);
}

/// Matches output ports to input ports: left to left and right to right when
/// both sides carry a left or right port, else every output to every input.
#[verifier::loop_isolation(false)]
pub fn get_desired_links(out_ports: &[&PortInfo], in_ports: &[&PortInfo]) -> (links: Vec<(u32, u32)>)
    ensures
        links@ == desired_links(derefs(out_ports@), derefs(in_ports@)),
{
    let mut links: Vec<(u32, u32)> = Vec::new();
    let out_left = ids_on_channel(out_ports, Channel::Left);
    let out_right = ids_on_channel(out_ports, Channel::Right);
    let out_mono = ids_on_channel(out_ports, Channel::Mono);

    let in_left = ids_on_channel(in_ports, Channel::Left);
    let in_right = ids_on_channel(in_ports, Channel::Right);
    let in_mono = ids_on_channel(in_ports, Channel::Mono);

    if (out_left.len() > 0 || out_right.len() > 0) && (in_left.len() > 0 || in_right.len() > 0) {
        push_cross(&mut links, &out_left, &in_left);
        push_cross(&mut links, &out_right, &in_right);
        // Mono fallbacks where one side lacks left and right ports.
        if in_left.len() == 0 && in_right.len() == 0 {
            for k in 0..in_mono.len() {
                let im = [in_mono[k]];
                push_cross(&mut links, &out_left, &im);
                push_cross(&mut links, &out_right, &im);
            }
        }
        if out_left.len() == 0 && out_right.len() == 0 {
            for k in 0..out_mono.len() {
                let om = [out_mono[k]];
                push_cross(&mut links, &om, &in_left);
                push_cross(&mut links, &om, &in_right);
            }
        }
    } else {
        let outs = all_ids(out_ports);
        let ins = all_ids(in_ports);
        push_cross(&mut links, &outs, &ins);
    }
    links
}

/// Whether some link already goes from `out_port` to `in_port`.
pub fn is_port_linked(links: &[LinkInfo], out_port: u32, in_port: u32) -> (r: bool)
    ensures
        r == port_linked(links@, out_port, in_port),
{
    let mut k: usize = 0;
    while k < links.len()
        invariant
            k <= links@.len(),
            forall|j: int|
                0 <= j < k ==> !((#[trigger] links@[j]).out_port == out_port && links@[j].in_port
                    == in_port),
        decreases links.len() - k,
    {
        if links[k].out_port == out_port && links[k].in_port == in_port {
            return true;
        }
        k = k + 1;
    }
    false
}

/// The shape of `cross`: its length, and which pair stands at each position.
pub proof fn lemma_cross_shape(outs: Seq<u32>, ins: Seq<u32>)
    ensures
        cross(outs, ins).len() == outs.len() * ins.len(),
        forall|k: int|
            0 <= k < cross(outs, ins).len() ==> #[trigger] cross(outs, ins)[k] == (
                outs[k / (ins.len() as int)],
                ins[k % (ins.len() as int)],
            ) && 0 <= k / (ins.len() as int) < outs.len() && 0 <= k % (ins.len() as int) < ins.len(),
    decreases outs.len(),
{
    if outs.len() > 0 {
        let prev = outs.drop_last();
        lemma_cross_shape(prev, ins);
        let n = outs.len() as int;
        let m = ins.len() as int;
        assert((n - 1) * m + m == n * m) by (nonlinear_arith);
        let c = cross(outs, ins);
        let tail = ins.map_values(|i: u32| (outs.last(), i));
        assert(c == cross(prev, ins) + tail);
        assert forall|k: int| 0 <= k < c.len() implies #[trigger] c[k] == (
            outs[k / m],
            ins[k % m],
        ) && 0 <= k / m < n && 0 <= k % m < m by {
            if k < (n - 1) * m {
                lemma_fundamental_div_mod(k, m);
                let q = k / m;
                assert(0 <= k % m < m);
                assert(k == m * q + k % m);
                assert(q < n - 1) by (nonlinear_arith)
                    requires
                        k == m * q + k % m,
                        0 <= k % m,
                        k < (n - 1) * m,
                        m > 0,
                ;
                assert(q >= 0) by (nonlinear_arith)
                    requires
                        k == m * q + k % m,
                        k % m < m,
                        k >= 0,
                        m > 0,
                ;
                assert(c[k] == cross(prev, ins)[k]);
            } else {
                let r = k - (n - 1) * m;
                lemma_fundamental_div_mod_converse(k, m, n - 1, r);
                assert(c[k] == tail[r]);
            }
        }
    }
}

/// Every wanted link leaves one of the given output ports and enters one of
/// the given input ports.
pub proof fn law_links_join_outputs_to_inputs(outs: Seq<PortInfo>, ins: Seq<PortInfo>)
    ensures
        forall|k: int|
            0 <= k < desired_links(outs, ins).len() ==> port_ids(outs).contains(
                (#[trigger] desired_links(outs, ins)[k]).0,
            ) && port_ids(ins).contains(desired_links(outs, ins)[k].1),
{
    let d = desired_links(outs, ins);
    assert forall|k: int| 0 <= k < d.len() implies port_ids(outs).contains((#[trigger] d[k]).0)
        && port_ids(ins).contains(d[k].1) by {
        if is_stereo_pairing(outs, ins) {
            let c1 = cross(ids_on(outs, Channel::Left), ids_on(ins, Channel::Left));
            let c2 = cross(ids_on(outs, Channel::Right), ids_on(ins, Channel::Right));
            lemma_cross_shape(ids_on(outs, Channel::Left), ids_on(ins, Channel::Left));
            lemma_cross_shape(ids_on(outs, Channel::Right), ids_on(ins, Channel::Right));
            if k < c1.len() {
                assert(d[k] == c1[k]);
                lemma_channel_ids_are_ids(outs, Channel::Left);
                lemma_channel_ids_are_ids(ins, Channel::Left);
                let m = ids_on(ins, Channel::Left).len() as int;
                assert(ids_on(outs, Channel::Left).contains(d[k].0)) by {
                    assert(ids_on(outs, Channel::Left)[k / m] == d[k].0);
                }
                assert(ids_on(ins, Channel::Left).contains(d[k].1)) by {
                    assert(ids_on(ins, Channel::Left)[k % m] == d[k].1);
                }
            } else {
                let j = k - c1.len();
                assert(d[k] == c2[j]);
                lemma_channel_ids_are_ids(outs, Channel::Right);
                lemma_channel_ids_are_ids(ins, Channel::Right);
                let m = ids_on(ins, Channel::Right).len() as int;
                assert(ids_on(outs, Channel::Right).contains(d[k].0)) by {
                    assert(ids_on(outs, Channel::Right)[j / m] == d[k].0);
                }
                assert(ids_on(ins, Channel::Right).contains(d[k].1)) by {
                    assert(ids_on(ins, Channel::Right)[j % m] == d[k].1);
                }
            }
        } else {
            lemma_cross_shape(port_ids(outs), port_ids(ins));
            let m = ins.len() as int;
            assert(port_ids(outs)[k / m] == d[k].0);
            assert(port_ids(ins)[k % m] == d[k].1);
        }
    }
}

/// The ids of the ports on one channel are ids of the ports.
pub proof fn lemma_channel_ids_are_ids(ps: Seq<PortInfo>, c: Channel)
    ensures
        forall|x: u32| ids_on(ps, c).contains(x) ==> port_ids(ps).contains(x),
{
    let pred = |p: PortInfo| port_channel(p) == c;
    let f = ps.filter(pred);
    assert forall|x: u32| ids_on(ps, c).contains(x) implies port_ids(ps).contains(x) by {
        let j = choose|j: int| 0 <= j < ids_on(ps, c).len() && ids_on(ps, c)[j] == x;
        assert(f.contains(f[j]));
        ps.lemma_filter_contains_rev(pred, f[j]);
        let i = choose|i: int| 0 <= i < ps.len() && ps[i] == f[j];
        assert(port_ids(ps)[i] == x);
    }
}

/// When both sides carry left or right ports, links keep to one channel: a
/// left output goes to a left input and a right output to a right input, and
/// every such pair is linked.
pub proof fn law_stereo_links_keep_channel(outs: Seq<PortInfo>, ins: Seq<PortInfo>)
    requires
        is_stereo_pairing(outs, ins),
    ensures
        desired_links(outs, ins).len() == ids_on(outs, Channel::Left).len() * ids_on(
            ins,
            Channel::Left,
        ).len() + ids_on(outs, Channel::Right).len() * ids_on(ins, Channel::Right).len(),
        forall|k: int|
            0 <= k < desired_links(outs, ins).len() ==> {
                let l = #[trigger] desired_links(outs, ins)[k];
                (ids_on(outs, Channel::Left).contains(l.0) && ids_on(ins, Channel::Left).contains(
                    l.1,
                )) || (ids_on(outs, Channel::Right).contains(l.0) && ids_on(
                    ins,
                    Channel::Right,
                ).contains(l.1))
            },
        forall|x: int, y: int|
            0 <= x < ids_on(outs, Channel::Left).len() && 0 <= y < ids_on(ins, Channel::Left).len()
                ==> desired_links(outs, ins).contains(
                (#[trigger] ids_on(outs, Channel::Left)[x], #[trigger] ids_on(ins, Channel::Left)[y]),
            ),
        forall|x: int, y: int|
            0 <= x < ids_on(outs, Channel::Right).len() && 0 <= y < ids_on(ins, Channel::Right).len()
                ==> desired_links(outs, ins).contains(
                (
                    #[trigger] ids_on(outs, Channel::Right)[x],
                    #[trigger] ids_on(ins, Channel::Right)[y],
                ),
            ),
{
    let ol = ids_on(outs, Channel::Left);
    let il = ids_on(ins, Channel::Left);
    let or = ids_on(outs, Channel::Right);
    let ir = ids_on(ins, Channel::Right);
    let c1 = cross(ol, il);
    let c2 = cross(or, ir);
    let d = desired_links(outs, ins);
    lemma_cross_shape(ol, il);
    lemma_cross_shape(or, ir);
    assert(d == c1 + c2);
    assert forall|k: int| 0 <= k < d.len() implies {
        let l = #[trigger] d[k];
        (ol.contains(l.0) && il.contains(l.1)) || (or.contains(l.0) && ir.contains(l.1))
    } by {
        if k < c1.len() {
            let m = il.len() as int;
            assert(d[k] == c1[k]);
            assert(ol[k / m] == d[k].0);
            assert(il[k % m] == d[k].1);
        } else {
            let j = k - c1.len();
            let m = ir.len() as int;
            assert(d[k] == c2[j]);
            assert(or[j / m] == d[k].0);
            assert(ir[j % m] == d[k].1);
        }
    }
    assert forall|x: int, y: int| 0 <= x < ol.len() && 0 <= y < il.len() implies d.contains(
        (#[trigger] ol[x], #[trigger] il[y]),
    ) by {
        let m = il.len() as int;
        let k = x * m + y;
        lemma_fundamental_div_mod_converse(k, m, x, y);
        assert(0 <= k < ol.len() * il.len()) by (nonlinear_arith)
            requires
                0 <= x < ol.len(),
                0 <= y < m,
                m == il.len(),
                k == x * m + y,
        ;
        assert(d[k] == c1[k]);
    }
    assert forall|x: int, y: int| 0 <= x < or.len() && 0 <= y < ir.len() implies d.contains(
        (#[trigger] or[x], #[trigger] ir[y]),
    ) by {
        let m = ir.len() as int;
        let k = x * m + y;
        lemma_fundamental_div_mod_converse(k, m, x, y);
        assert(0 <= k < or.len() * ir.len()) by (nonlinear_arith)
            requires
                0 <= x < or.len(),
                0 <= y < m,
                m == ir.len(),
                k == x * m + y,
        ;
        assert(d[c1.len() + k] == c2[k]);
    }
}

/// When one side has no left or right port, every output is linked to every
/// input: outputs in order, and for each output the inputs in order.
pub proof fn law_fallback_links_every_output_to_every_input(outs: Seq<PortInfo>, ins: Seq<PortInfo>)
    requires
        !is_stereo_pairing(outs, ins),
    ensures
        desired_links(outs, ins).len() == outs.len() * ins.len(),
        forall|k: int|
            0 <= k < desired_links(outs, ins).len() ==> #[trigger] desired_links(outs, ins)[k] == (
                outs[k / (ins.len() as int)].id,
                ins[k % (ins.len() as int)].id,
            ),
{
    lemma_cross_shape(port_ids(outs), port_ids(ins));
}

/// An id on channel `c` is the id of a port on channel `c`.
proof fn lemma_channel_id_has_port(ps: Seq<PortInfo>, c: Channel, x: u32)
    requires
        ids_on(ps, c).contains(x),
    ensures
        exists|a: int| 0 <= a < ps.len() && (#[trigger] ps[a]).id == x && port_channel(ps[a]) == c,
{
    broadcast use vstd::seq_lib::group_filter_ensures;

    let pred = |p: PortInfo| port_channel(p) == c;
    let f = ps.filter(pred);
    let j = choose|j: int| 0 <= j < ids_on(ps, c).len() && ids_on(ps, c)[j] == x;
    assert(pred(f[j]));
    assert(f.contains(f[j]));
    ps.lemma_filter_contains_rev(pred, f[j]);
    let a = choose|a: int| 0 <= a < ps.len() && ps[a] == f[j];
    assert(ps[a].id == x);
}

/// A port on channel `c` puts its id among the ids on channel `c`.
proof fn lemma_port_on_channel(ps: Seq<PortInfo>, a: int)
    requires
        0 <= a < ps.len(),
    ensures
        ids_on(ps, port_channel(ps[a])).len() > 0,
{
    broadcast use vstd::seq_lib::group_filter_ensures;

    let c = port_channel(ps[a]);
    let pred = |p: PortInfo| port_channel(p) == c;
    assert(pred(ps[a]));
    assert(ps.filter(pred).contains(ps[a]));
}

/// As soon as the outputs have some left or right port and the inputs have
/// some left or right port (one of the two is enough on each side), every
/// wanted link joins an output and an input on the same channel, left or
/// right; no link crosses channels or touches a mono port.
pub proof fn law_left_or_right_on_both_sides_keeps_channels(
    outs: Seq<PortInfo>,
    ins: Seq<PortInfo>,
    a: int,
    b: int,
)
    requires
        0 <= a < outs.len(),
        port_channel(outs[a]) == Channel::Left || port_channel(outs[a]) == Channel::Right,
        0 <= b < ins.len(),
        port_channel(ins[b]) == Channel::Left || port_channel(ins[b]) == Channel::Right,
    ensures
        forall|k: int|
            #![trigger desired_links(outs, ins)[k]]
            0 <= k < desired_links(outs, ins).len() ==> exists|x: int, y: int|
                #![trigger outs[x], ins[y]]
                0 <= x < outs.len() && 0 <= y < ins.len() && outs[x].id == desired_links(outs, ins)[k].0
                    && ins[y].id == desired_links(outs, ins)[k].1 && port_channel(outs[x])
                    == port_channel(ins[y]) && port_channel(outs[x]) != Channel::Mono,
{
    lemma_port_on_channel(outs, a);
    lemma_port_on_channel(ins, b);
    assert(is_stereo_pairing(outs, ins));
    law_stereo_links_keep_channel(outs, ins);
    assert forall|k: int|
        #![trigger desired_links(outs, ins)[k]]
        0 <= k < desired_links(outs, ins).len() implies exists|x: int, y: int|
        #![trigger outs[x], ins[y]]
        0 <= x < outs.len() && 0 <= y < ins.len() && outs[x].id == desired_links(outs, ins)[k].0
            && ins[y].id == desired_links(outs, ins)[k].1 && port_channel(outs[x]) == port_channel(
            ins[y],
        ) && port_channel(outs[x]) != Channel::Mono by {
        let d = desired_links(outs, ins);
        let l = d[k];
        let c = if ids_on(outs, Channel::Left).contains(l.0) && ids_on(ins, Channel::Left).contains(l.1) {
            Channel::Left
        } else {
            Channel::Right
        };
        lemma_channel_id_has_port(outs, c, l.0);
        lemma_channel_id_has_port(ins, c, l.1);
        let x = choose|x: int| 0 <= x < outs.len() && (#[trigger] outs[x]).id == l.0 && port_channel(outs[x]) == c;
        let y = choose|y: int| 0 <= y < ins.len() && (#[trigger] ins[y]).id == l.1 && port_channel(ins[y]) == c;
        assert(outs[x].id == d[k].0 && ins[y].id == d[k].1);
    }
}

} // verus!
