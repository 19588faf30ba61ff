//! Closing the net once the term is read: the first binder and first use of
//! each variable are connected, the node ports are grouped by the wire they
//! stand on, each group becomes a link in memory (or an active pair), and
//! the memory image is encoded as little-endian 64-bit words.

use vstd::prelude::*;
use crate::alias::{connect_map, lemma_connect_merges, lemma_connect_result, resolve, resolves};
use crate::net::{Addr, NodeData, Port, VarData, WireId};
use crate::state::{Model, State};

verus! {

/// Why closing stopped.
#[derive(Clone, Copy, Debug, PartialEq, Eq, Structural)]
pub enum CloseError {
    /// The chain of aliases from a variable's use never ends.
    CyclicAlias,
    /// More than two ports stand on one wire, which the image cannot link.
    TooManyEndpoints,
    /// No single port stands on the root wire.
    NoRoot,
    /// A word of the image would leave the 64-bit range.
    Overflow,
}

// ---------------------------------------------------------------------------
// Connecting the variables
// ---------------------------------------------------------------------------

/// The aliases after connecting, for each of the first `i` variables in name
/// order that has both a binder and a use, the binder's wire to the use's
/// wire; the flag is false when a use's chain never ends (the aliases are
/// then those reached before that variable).
pub open spec fn link_vars(m: Map<u64, u64>, vars: Seq<(Seq<char>, VarData)>, i: nat) -> (Map<u64, u64>, bool)
    decreases i,
{
    if i == 0 {
        (m, true)
    } else {
        let (m1, ok) = link_vars(m, vars, (i - 1) as nat);
        if !ok {
            (m1, false)
        } else {
            let d = vars[i - 1].1;
            match (d.to_binder, d.to_user) {
                (Some(b), Some(u)) => if resolves(m1, u.0) {
                    (connect_map(m1, b.0, u.0), true)
                } else {
                    (m1, false)
                },
                _ => (m1, true),
            }
        }
    }
}

proof fn lemma_link_vars_stable(m: Map<u64, u64>, vars: Seq<(Seq<char>, VarData)>, i: nat, i2: nat)
    requires
        i <= i2,
        !link_vars(m, vars, i).1,
    ensures
        link_vars(m, vars, i2) == link_vars(m, vars, i),
    decreases i2,
{
    if i2 > i {
        lemma_link_vars_stable(m, vars, i, (i2 - 1) as nat);
    }
}

/// The wire of a variable's first binder (0 if none).
pub open spec fn binder_wire(d: VarData) -> u64 {
    match d.to_binder {
        Some(w) => w.0,
        None => 0,
    }
}

/// The wire of a variable's first use (0 if none).
pub open spec fn user_wire(d: VarData) -> u64 {
    match d.to_user {
        Some(w) => w.0,
        None => 0,
    }
}

/// Whether a variable has both a binder and a use.
pub open spec fn has_both(d: VarData) -> bool {
    d.to_binder is Some && d.to_user is Some
}

/// Linking the variables one at a time: after the first `i`, the next one
/// is connected (binder to use) when it has both and its use's chain ends,
/// whatever the variables before it lacked; one without both changes
/// nothing; a use whose chain never ends stops the linking for good.
pub proof fn lemma_link_vars_step(m: Map<u64, u64>, vars: Seq<(Seq<char>, VarData)>, i: nat)
    requires
        i < vars.len(),
    ensures
        ({
            let (a, ok) = link_vars(m, vars, i);
            let d = vars[i as int].1;
            let next = link_vars(m, vars, i + 1);
            &&& !ok ==> next == (a, false)
            &&& ok && !has_both(d) ==> next == (a, true)
            &&& ok && has_both(d) && resolves(a, user_wire(d)) ==> next == (
            connect_map(a, binder_wire(d), user_wire(d)), true)
            &&& ok && has_both(d) && !resolves(a, user_wire(d)) ==> next == (a, false)
        }),
{
}

/// The variable linking law: where every chain of aliases ends to begin
/// with, and no variable's binder and use already end at the same wire when
/// its turn comes, linking succeeds, every chain still ends, and for every
/// variable with both a binder and a use, the two end at the same wire
/// (so the ports on them are grouped together), whatever the other
/// variables hold.
pub proof fn lemma_link_vars_joins(m: Map<u64, u64>, vars: Seq<(Seq<char>, VarData)>, n: nat)
    requires
        n <= vars.len(),
        forall|w: u64| resolves(m, w),
        forall|i: int|
            0 <= i < n && has_both(#[trigger] vars[i].1) ==> resolve(
                link_vars(m, vars, i as nat).0,
                binder_wire(vars[i].1),
            ) != resolve(link_vars(m, vars, i as nat).0, user_wire(vars[i].1)),
    ensures
        link_vars(m, vars, n).1,
        forall|w: u64| resolves(link_vars(m, vars, n).0, w),
        forall|i: int|
            0 <= i < n && has_both(#[trigger] vars[i].1) ==> resolve(link_vars(m, vars, n).0, binder_wire(vars[i].1))
                == resolve(link_vars(m, vars, n).0, user_wire(vars[i].1)),
    decreases n,
{
    if n > 0 {
        let n1 = (n - 1) as nat;
        lemma_link_vars_joins(m, vars, n1);
        let a = link_vars(m, vars, n1).0;
        let d = vars[n1 as int].1;
        if has_both(d) {
            let b = binder_wire(d);
            let u = user_wire(d);
            assert(resolve(a, b) != resolve(a, u));
            lemma_connect_result(a, b, u);
            let a2 = connect_map(a, b, u);
            assert(link_vars(m, vars, n).0 == a2);
            assert forall|i: int| 0 <= i < n && has_both(#[trigger] vars[i].1) implies resolve(
                a2,
                binder_wire(vars[i].1),
            ) == resolve(a2, user_wire(vars[i].1)) by {
                let bi = binder_wire(vars[i].1);
                let ui = user_wire(vars[i].1);
                lemma_connect_merges(a, b, u, bi);
                lemma_connect_merges(a, b, u, ui);
                lemma_connect_merges(a, b, u, b);
            }
        }
    }
}

// ---------------------------------------------------------------------------
// Grouping ports by wire
// ---------------------------------------------------------------------------

/// The wire on port `port` of node `n`.
pub open spec fn port_wire(n: NodeData, port: u64) -> u64 {
    if port == 0 {
        n.p0.0
    } else if port == 1 {
        n.p1.0
    } else {
        n.p2.0
    }
}

/// All ports of `count` nodes, node by node and port by port.
pub open spec fn port_list(count: nat) -> Seq<Addr> {
    Seq::new(3 * count, |i: int| Addr { node: (i / 3) as u64, port: (i % 3) as u64 })
}

/// The wire that a port is grouped under: the wire on it, or what that wire
/// is directly aliased to.
pub open spec fn group_key(nodes: Seq<NodeData>, m: Map<u64, u64>, a: Addr) -> u64 {
    let w = port_wire(nodes[a.node as int], a.port);
    if m.contains_key(w) {
        m[w]
    } else {
        w
    }
}

/// `group_key` as a function of the port.
pub open spec fn key_fn(nodes: Seq<NodeData>, m: Map<u64, u64>) -> spec_fn(Addr) -> u64 {
    |a: Addr| group_key(nodes, m, a)
}

/// The ports that `keyf` sends to `k`.
pub open spec fn has_key(keyf: spec_fn(Addr) -> u64, k: u64) -> spec_fn(Addr) -> bool {
    |a: Addr| keyf(a) == k
}

/// Whether some group of `g` has key `k`.
pub open spec fn has_group(g: Seq<(u64, Seq<Addr>)>, k: u64) -> bool {
    exists|j: int| 0 <= j < g.len() && (#[trigger] g[j]).0 == k
}

/// `g` groups `ports` by `keyf`: one entry per key that some port has, in
/// increasing key order, each with the ports of that key in their order.
pub open spec fn is_grouping(g: Seq<(u64, Seq<Addr>)>, ports: Seq<Addr>, keyf: spec_fn(Addr) -> u64) -> bool {
    &&& forall|i: int, j: int| 0 <= i < j < g.len() ==> g[i].0 < g[j].0
    &&& forall|i: int| 0 <= i < g.len() ==> (#[trigger] g[i]).1 == ports.filter(has_key(keyf, g[i].0)) && g[i].1.len() > 0
    &&& forall|a: Addr| ports.contains(a) ==> #[trigger] has_group(g, keyf(a))
}

/// The grouping of all ports of `nodes` by their wire under `m`.
pub open spec fn port_groups(nodes: Seq<NodeData>, m: Map<u64, u64>) -> Seq<(u64, Seq<Addr>)> {
    choose|g: Seq<(u64, Seq<Addr>)>| #[trigger] is_grouping(g, port_list(nodes.len()), key_fn(nodes, m))
}

proof fn lemma_filter_push(s: Seq<Addr>, a: Addr, p: spec_fn(Addr) -> bool)
    ensures
        s.push(a).filter(p) == (if p(a) { s.filter(p).push(a) } else { s.filter(p) }),
{
    reveal(Seq::filter);
    assert(s.push(a).drop_last() =~= s);
}

/// Two groupings of the same ports by the same keys are the same.
proof fn lemma_grouping_unique(g1: Seq<(u64, Seq<Addr>)>, g2: Seq<(u64, Seq<Addr>)>, ports: Seq<Addr>, keyf: spec_fn(Addr) -> u64)
    requires
        is_grouping(g1, ports, keyf),
        is_grouping(g2, ports, keyf),
    ensures
        g1 == g2,
{
    broadcast use vstd::seq_lib::group_filter_ensures;
    assert forall|i: int| 0 <= i < g1.len() implies has_group(g2, (#[trigger] g1[i]).0) by {
        let x = g1[i].1[0];
        assert(ports.filter(has_key(keyf, g1[i].0)).contains(x));
        ports.lemma_filter_contains_rev(has_key(keyf, g1[i].0), x);
        assert(has_key(keyf, g1[i].0)(x));
        assert(has_group(g2, keyf(x)));
    }
    assert forall|j: int| 0 <= j < g2.len() implies has_group(g1, (#[trigger] g2[j]).0) by {
        let x = g2[j].1[0];
        assert(ports.filter(has_key(keyf, g2[j].0)).contains(x));
        ports.lemma_filter_contains_rev(has_key(keyf, g2[j].0), x);
        assert(has_key(keyf, g2[j].0)(x));
        assert(has_group(g1, keyf(x)));
    }
    lemma_sorted_keys_equal(g1, g2, ports, keyf);
}

proof fn lemma_sorted_keys_equal(g1: Seq<(u64, Seq<Addr>)>, g2: Seq<(u64, Seq<Addr>)>, ports: Seq<Addr>, keyf: spec_fn(Addr) -> u64)
    requires
        forall|i: int, j: int| 0 <= i < j < g1.len() ==> g1[i].0 < g1[j].0,
        forall|i: int, j: int| 0 <= i < j < g2.len() ==> g2[i].0 < g2[j].0,
        forall|i: int| 0 <= i < g1.len() ==> (#[trigger] g1[i]).1 == ports.filter(has_key(keyf, g1[i].0)),
        forall|i: int| 0 <= i < g2.len() ==> (#[trigger] g2[i]).1 == ports.filter(has_key(keyf, g2[i].0)),
        forall|i: int| 0 <= i < g1.len() ==> has_group(g2, (#[trigger] g1[i]).0),
        forall|j: int| 0 <= j < g2.len() ==> has_group(g1, (#[trigger] g2[j]).0),
    ensures
        g1 == g2,
    decreases g1.len(),
{
    if g1.len() == 0 {
        if g2.len() > 0 {
            assert(has_group(g1, g2[0].0));
        }
        assert(g1 =~= g2);
    } else {
        assert(has_group(g2, g1[0].0));
        assert(has_group(g1, g2[0].0));
        let j0 = choose|j: int| 0 <= j < g2.len() && (#[trigger] g2[j]).0 == g1[0].0;
        let i0 = choose|i: int| 0 <= i < g1.len() && (#[trigger] g1[i]).0 == g2[0].0;
        assert(g1[0].0 == g2[0].0) by {
            if j0 > 0 {
                assert(g2[0].0 < g2[j0].0);
            }
            if i0 > 0 {
                assert(g1[0].0 < g1[i0].0);
            }
        }
        let h1 = g1.drop_first();
        let h2 = g2.drop_first();
        assert forall|i: int| 0 <= i < h1.len() implies has_group(h2, (#[trigger] h1[i]).0) by {
            assert(g1[i + 1] == h1[i]);
            assert(has_group(g2, g1[i + 1].0));
            let j = choose|j: int| 0 <= j < g2.len() && (#[trigger] g2[j]).0 == g1[i + 1].0;
            assert(g1[0].0 < g1[i + 1].0);
            assert(j != 0);
            assert(h2[j - 1] == g2[j]);
        }
        assert forall|j: int| 0 <= j < h2.len() implies has_group(h1, (#[trigger] h2[j]).0) by {
            assert(g2[j + 1] == h2[j]);
            assert(has_group(g1, g2[j + 1].0));
            let i = choose|i: int| 0 <= i < g1.len() && (#[trigger] g1[i]).0 == g2[j + 1].0;
            assert(g2[0].0 < g2[j + 1].0);
            assert(i != 0);
            assert(h1[i - 1] == g1[i]);
        }
        assert forall|i: int| 0 <= i < h1.len() implies (#[trigger] h1[i]).1 == ports.filter(has_key(keyf, h1[i].0)) by {
            assert(g1[i + 1] == h1[i]);
        }
        assert forall|i: int| 0 <= i < h2.len() implies (#[trigger] h2[i]).1 == ports.filter(has_key(keyf, h2[i].0)) by {
            assert(g2[i + 1] == h2[i]);
        }
        lemma_sorted_keys_equal(h1, h2, ports, keyf);
        assert(g1[0] == g2[0]);
        assert(g1 =~= g2) by {
            assert forall|i: int| 0 <= i < g1.len() implies g1[i] == g2[i] by {
                if i > 0 {
                    assert(g1[i] == h1[i - 1]);
                    assert(g2[i] == h2[i - 1]);
                }
            }
        }
    }
}

/// Ports grouped by wire: keys in increasing order, and the ports of each.
pub struct PortGroups {
    keys: Vec<u64>,
    members: Vec<Vec<Addr>>,
}

impl View for PortGroups {
    type V = Seq<(u64, Seq<Addr>)>;

    closed spec fn view(&self) -> Seq<(u64, Seq<Addr>)> {
        Seq::new(self.keys@.len(), |i: int| (self.keys@[i], self.members@[i]@))
    }
}

impl PortGroups {
    /// Keys and member lists are in step.
    pub closed spec fn wf(&self) -> bool {
        self.keys@.len() == self.members@.len()
    }

    /// No groups.
    pub fn new() -> (r: PortGroups)
        ensures
            r.wf(),
            r@ == Seq::<(u64, Seq<Addr>)>::empty(),
    {
        let r = PortGroups { keys: Vec::new(), members: Vec::new() };
        assert(r@ =~= Seq::<(u64, Seq<Addr>)>::empty());
        r
    }

    /// The number of groups.
    pub fn len(&self) -> (r: usize)
        requires
            self.wf(),
        ensures
            r == self@.len(),
    {
        self.keys.len()
    }

    /// The key of group `i`.
    pub fn key_at(&self, i: usize) -> (r: u64)
        requires
            self.wf(),
            i < self@.len(),
        ensures
            r == self@[i as int].0,
    {
        self.keys[i]
    }

    /// The ports of group `i`.
    pub fn members_at(&self, i: usize) -> (r: &Vec<Addr>)
        requires
            self.wf(),
            i < self@.len(),
        ensures
            r@ == self@[i as int].1,
    {
        &self.members[i]
    }

    /// Adds port `a`, whose key is `k`, after the ports already grouped.
    pub fn add(&mut self, k: u64, a: Addr, Ghost(ports): Ghost<Seq<Addr>>, Ghost(keyf): Ghost<spec_fn(Addr) -> u64>)
        requires
            old(self).wf(),
            is_grouping(old(self)@, ports, keyf),
            keyf(a) == k,
        ensures
            final(self).wf(),
            is_grouping(final(self)@, ports.push(a), keyf),
    {
        broadcast use vstd::seq_lib::group_filter_ensures;
        let ghost g = self@;
        let n = self.keys.len();
        let mut p: usize = 0;
        while p < n && self.keys[p] < k
            invariant
                p <= n,
                n == self.keys@.len(),
                self.wf(),
                self@ == g,
                forall|i: int| 0 <= i < p ==> self.keys@[i] < k,
            decreases n - p,
        {
            p = p + 1;
        }
        let ghost ports2 = ports.push(a);
        if p < n && self.keys[p] == k {
            proof {
                lemma_filter_push(ports, a, has_key(keyf, k));
            }
            self.members[p].push(a);
            proof {
                let g2 = self@;
                assert(g2.len() == g.len());
                assert forall|i: int| 0 <= i < g2.len() implies (#[trigger] g2[i]).0 == g[i].0 by {}
                assert forall|i: int, j: int| 0 <= i < j < g2.len() implies g2[i].0 < g2[j].0 by {
                    assert(g2[i].0 == g[i].0);
                    assert(g2[j].0 == g[j].0);
                }
                assert forall|i: int| 0 <= i < g2.len() implies (#[trigger] g2[i]).1 == ports2.filter(has_key(keyf, g2[i].0))
                    && g2[i].1.len() > 0 by {
                    lemma_filter_push(ports, a, has_key(keyf, g2[i].0));
                    if i != p {
                        assert(g2[i] == g[i]);
                        assert(g[i].0 != k) by {
                            if i < p {
                                assert(self.keys@[i] < k);
                            } else {
                                assert(g[p as int].0 < g[i].0);
                            }
                        }
                    }
                }
                assert forall|b: Addr| ports2.contains(b) implies #[trigger] has_group(g2, keyf(b)) by {
                    if b == a {
                        assert(g2[p as int].0 == keyf(b));
                    } else {
                        let t = choose|t: int| 0 <= t < ports2.len() && ports2[t] == b;
                        assert(ports[t] == b);
                        assert(ports.contains(b));
                        assert(has_group(g, keyf(b)));
                        let i = choose|i: int| 0 <= i < g.len() && (#[trigger] g[i]).0 == keyf(b);
                        assert(g2[i].0 == g[i].0);
                    }
                }
            }
        } else {
            proof {
                assert forall|t: int| 0 <= t < ports.len() implies keyf(ports[t]) != k by {
                    assert(ports.contains(ports[t]));
                    assert(has_group(g, keyf(ports[t])));
                    let i = choose|i: int| 0 <= i < g.len() && (#[trigger] g[i]).0 == keyf(ports[t]);
                    if i < p {
                        assert(self.keys@[i] < k);
                    } else if i > p {
                        assert(g[p as int].0 < g[i].0);
                        assert(g[p as int].0 > k);
                    }
                }
                ports.lemma_all_neg_filter_empty(has_key(keyf, k));
                lemma_filter_push(ports, a, has_key(keyf, k));
                assert(ports2.filter(has_key(keyf, k)) =~= seq![a]);
            }
            self.keys.insert(p, k);
            let mut v: Vec<Addr> = Vec::new();
            v.push(a);
            self.members.insert(p, v);
            proof {
                let g2 = self@;
                assert(g2 =~= g.insert(p as int, (k, seq![a])));
                assert forall|i: int, j: int| 0 <= i < j < g2.len() implies g2[i].0 < g2[j].0 by {
                    if j < p {
                    } else if j == p {
                    } else if i < p {
                        assert(g[i].0 < k);
                        assert(g[j - 1].0 > k) by {
                            if j - 1 > p {
                                assert(g[p as int].0 < g[j - 1].0);
                            }
                        }
                    } else if i == p {
                        assert(g[j - 1].0 > k) by {
                            if j - 1 > p {
                                assert(g[p as int].0 < g[j - 1].0);
                            }
                        }
                    } else {
                        assert(g[i - 1].0 < g[j - 1].0);
                    }
                }
                assert forall|i: int| 0 <= i < g2.len() implies (#[trigger] g2[i]).1 == ports2.filter(has_key(keyf, g2[i].0))
                    && g2[i].1.len() > 0 by {
                    if i != p {
                        let o = if i < p { i } else { i - 1 };
                        assert(g2[i] == g[o]);
                        lemma_filter_push(ports, a, has_key(keyf, g[o].0));
                        assert(g[o].0 != k) by {
                            if o < p {
                                assert(self.keys@[o] < k);
                            } else {
                                assert(g[p as int].0 > k);
                                if o > p {
                                    assert(g[p as int].0 < g[o].0);
                                }
                            }
                        }
                    }
                }
                assert forall|b: Addr| ports2.contains(b) implies #[trigger] has_group(g2, keyf(b)) by {
                    if b == a {
                        assert(g2[p as int].0 == keyf(b));
                    } else {
                        let t = choose|t: int| 0 <= t < ports2.len() && ports2[t] == b;
                        assert(ports[t] == b);
                        assert(ports.contains(b));
                        assert(has_group(g, keyf(b)));
                        let i = choose|i: int| 0 <= i < g.len() && (#[trigger] g[i]).0 == keyf(b);
                        if i < p {
                            assert(g2[i] == g[i]);
                        } else {
                            assert(g2[i + 1] == g[i]);
                        }
                    }
                }
            }
        }
    }
}

proof fn lemma_port_list_step(n: nat, c: int)
    requires
        0 <= c < 3 * n,
    ensures
        port_list(n).take(c + 1) == port_list(n).take(c).push(port_list(n)[c]),
        port_list(n)[c] == (Addr { node: (c / 3) as u64, port: (c % 3) as u64 }),
{
    assert(port_list(n).take(c + 1) =~= port_list(n).take(c).push(port_list(n)[c]));
}

// ---------------------------------------------------------------------------
// Laying out memory
// ---------------------------------------------------------------------------

/// Memory and active pairs while the groups are turned into links.
pub struct Layout {
    /// One pair of auxiliary port slots per node.
    pub mem: Seq<(Port, Port)>,
    /// The active pairs: two principal ports facing each other.
    pub redex: Seq<(Port, Port)>,
    /// The nodes, with the erasers added so far.
    pub nodes: Seq<NodeData>,
    /// The port that stands on the root wire, once found.
    pub root: Option<Addr>,
}

/// The port that points at `target` and describes node `n`.
pub open spec fn node_port(n: NodeData, target: Addr) -> Port {
    Port { is_primary: n.primary, is_vanilla: n.vanilla, is_lazy: n.lazy, target, label: n.label }
}

/// The plain port that points at the auxiliary port `target`.
pub open spec fn aux_port(target: Addr) -> Port {
    Port { is_primary: false, is_vanilla: true, is_lazy: false, target, label: 0 }
}

/// The pair of slots with the slot for auxiliary port `port` set to `p`.
pub open spec fn set_aux(pair: (Port, Port), port: u64, p: Port) -> (Port, Port) {
    if port == 1 {
        (p, pair.1)
    } else {
        (pair.0, p)
    }
}

/// Linking two ports that stand on one wire: two principal ports make an
/// active pair; a principal and an auxiliary port make the auxiliary slot
/// describe the principal's node; two auxiliary ports point at each other.
pub open spec fn link_pair(l: Layout, v0: Addr, v1: Addr) -> Layout {
    if v0.port == 0 && v1.port == 0 {
        Layout {
            redex: l.redex.push((node_port(l.nodes[v0.node as int], v0), node_port(l.nodes[v1.node as int], v1))),
            ..l
        }
    } else if v0.port == 0 {
        Layout {
            mem: l.mem.update(v1.node as int, set_aux(l.mem[v1.node as int], v1.port, node_port(l.nodes[v0.node as int], v0))),
            ..l
        }
    } else if v1.port == 0 {
        Layout {
            mem: l.mem.update(v0.node as int, set_aux(l.mem[v0.node as int], v0.port, node_port(l.nodes[v1.node as int], v1))),
            ..l
        }
    } else {
        let mem1 = l.mem.update(v0.node as int, set_aux(l.mem[v0.node as int], v0.port, aux_port(v1)));
        Layout { mem: mem1.update(v1.node as int, set_aux(mem1[v1.node as int], v1.port, aux_port(v0))), ..l }
    }
}

/// The node that erases whatever reaches its principal port.
pub open spec fn eraser() -> NodeData {
    NodeData {
        primary: true,
        vanilla: true,
        lazy: false,
        label: 0xFF,
        p0: WireId(u64::MAX),
        p1: WireId(u64::MAX),
        p2: WireId(u64::MAX),
    }
}

/// The slots of an eraser at node `e`: its auxiliary ports point at each other.
pub open spec fn eraser_slots(e: u64) -> (Port, Port) {
    (
        Port { target: Addr { node: e, port: 2 }, is_vanilla: true, ..Port::blank() },
        Port { target: Addr { node: e, port: 1 }, is_vanilla: true, ..Port::blank() },
    )
}

/// One group: a lone port on the root wire is the root; another lone port
/// is linked to a new eraser; two ports are linked; more is an error.
pub open spec fn layout_step(l: Layout, key: u64, members: Seq<Addr>, root: u64) -> (Layout, Option<CloseError>) {
    if members.len() == 1 {
        if key == root {
            (Layout { root: Some(members[0]), ..l }, None)
        } else {
            let e = l.mem.len() as u64;
            let l1 = Layout { nodes: l.nodes.push(eraser()), mem: l.mem.push(eraser_slots(e)), ..l };
            (link_pair(l1, members[0], Addr { node: e, port: 0 }), None)
        }
    } else if members.len() == 2 {
        (link_pair(l, members[0], members[1]), None)
    } else if members.len() > 2 {
        (l, Some(CloseError::TooManyEndpoints))
    } else {
        (l, None)
    }
}

/// The layout after the first `i` groups of `g`, stopping at an error.
pub open spec fn layout_iter(g: Seq<(u64, Seq<Addr>)>, root: u64, l0: Layout, i: nat) -> (Layout, Option<CloseError>)
    decreases i,
{
    if i == 0 {
        (l0, None)
    } else {
        let prev = layout_iter(g, root, l0, (i - 1) as nat);
        if prev.1 is Some {
            prev
        } else {
            layout_step(prev.0, g[i - 1].0, g[i - 1].1, root)
        }
    }
}

proof fn lemma_layout_stable(g: Seq<(u64, Seq<Addr>)>, root: u64, l0: Layout, i: nat, i2: nat)
    requires
        i <= i2,
        layout_iter(g, root, l0, i).1 is Some,
    ensures
        layout_iter(g, root, l0, i2) == layout_iter(g, root, l0, i),
    decreases i2,
{
    if i2 > i {
        lemma_layout_stable(g, root, l0, i, (i2 - 1) as nat);
    }
}

/// Whether one of the first `i` groups has more than two ports.
pub open spec fn crowded_upto(g: Seq<(u64, Seq<Addr>)>, i: int) -> bool {
    exists|j: int| 0 <= j < i && (#[trigger] g[j]).1.len() > 2
}

/// Whether one of the first `i` groups is the root wire's, with one port.
pub open spec fn rooted_upto(g: Seq<(u64, Seq<Addr>)>, root: u64, i: int) -> bool {
    exists|j: int| 0 <= j < i && (#[trigger] g[j]).0 == root && g[j].1.len() == 1
}

/// Whether a group gets an eraser: a lone port on a wire other than the root.
pub open spec fn gets_eraser(grp: (u64, Seq<Addr>), root: u64) -> bool {
    grp.1.len() == 1 && grp.0 != root
}

/// How many of the first `i` groups get an eraser.
pub open spec fn eraser_count(g: Seq<(u64, Seq<Addr>)>, root: u64, i: nat) -> nat
    decreases i,
{
    if i == 0 {
        0
    } else {
        eraser_count(g, root, (i - 1) as nat) + if gets_eraser(g[i - 1], root) { 1nat } else { 0nat }
    }
}

/// The active pairs that the first `i` groups make, with `nodes` the nodes
/// before any eraser: two principal ports on one wire face each other, and
/// a lone principal port faces the principal port of its eraser.
pub open spec fn active_pairs(g: Seq<(u64, Seq<Addr>)>, root: u64, nodes: Seq<NodeData>, i: nat) -> Seq<(Port, Port)>
    decreases i,
{
    if i == 0 {
        Seq::empty()
    } else {
        let prev = active_pairs(g, root, nodes, (i - 1) as nat);
        let grp = g[i - 1];
        if grp.1.len() == 2 && grp.1[0].port == 0 && grp.1[1].port == 0 {
            prev.push((node_port(nodes[grp.1[0].node as int], grp.1[0]), node_port(nodes[grp.1[1].node as int], grp.1[1])))
        } else if gets_eraser(grp, root) && grp.1[0].port == 0 {
            let e = (nodes.len() + eraser_count(g, root, (i - 1) as nat)) as u64;
            prev.push((node_port(nodes[grp.1[0].node as int], grp.1[0]), node_port(eraser(), Addr { node: e, port: 0 })))
        } else {
            prev
        }
    }
}

/// What the layout looks like after the first `i` groups: it stops with
/// `TooManyEndpoints` exactly when one of them has more than two ports;
/// otherwise one eraser is added per lone port off the root wire, the
/// active pairs are those the groups make, and the root is found exactly
/// when the root wire's group has one port.
#[verifier::spinoff_prover]
proof fn lemma_layout_shape(g: Seq<(u64, Seq<Addr>)>, root: u64, nodes: Seq<NodeData>, i: nat)
    requires
        i <= g.len(),
        members_valid(g, nodes.len()),
        forall|a: int, b: int| 0 <= a < b < g.len() ==> g[a].0 < g[b].0,
        nodes.len() + eraser_count(g, root, i) <= u64::MAX,
    ensures
        ({
            let (l, e) = layout_iter(g, root, initial_layout(nodes), i);
            &&& (e is Some) == crowded_upto(g, i as int)
            &&& e is Some ==> e == Some(CloseError::TooManyEndpoints)
            &&& e is None ==> {
                &&& l.nodes == nodes + Seq::new(eraser_count(g, root, i), |k: int| eraser())
                &&& l.mem.len() == l.nodes.len()
                &&& l.redex == active_pairs(g, root, nodes, i)
                &&& (l.root is Some) == rooted_upto(g, root, i as int)
                &&& l.root matches Some(a) ==> exists|j: int|
                    0 <= j < i && (#[trigger] g[j]).0 == root && g[j].1.len() == 1 && a == g[j].1[0]
            }
        }),
    decreases i,
{
    let l0 = initial_layout(nodes);
    if i == 0 {
        assert(nodes + Seq::new(0, |k: int| eraser()) =~= nodes);
    } else {
        let i1 = (i - 1) as nat;
        lemma_layout_shape(g, root, nodes, i1);
        let (l, e) = layout_iter(g, root, l0, i1);
        let grp = g[i1 as int];
        if e is Some {
            let j = choose|j: int| 0 <= j < i1 && (#[trigger] g[j]).1.len() > 2;
            assert(crowded_upto(g, i as int));
        } else {
            let ec = eraser_count(g, root, i1);
            assert forall|j: int| 0 <= j < i implies !((#[trigger] g[j]).0 == root && g[j].1.len() == 1) || j == i1
                || rooted_upto(g, root, i1 as int) by {}
            if grp.1.len() > 2 {
                assert(crowded_upto(g, i as int));
            } else {
                assert(!crowded_upto(g, i as int)) by {
                    if crowded_upto(g, i as int) {
                        let j = choose|j: int| 0 <= j < i && (#[trigger] g[j]).1.len() > 2;
                        assert(j != i1);
                        assert(crowded_upto(g, i1 as int));
                    }
                }
                assert(grp.1.len() > 0 ==> grp.1[0].node < nodes.len() && grp.1[0].port <= 2);
                assert(grp.1.len() > 1 ==> grp.1[1].node < nodes.len() && grp.1[1].port <= 2);
                if rooted_upto(g, root, i as int) && !rooted_upto(g, root, i1 as int) {
                    let j = choose|j: int| 0 <= j < i && (#[trigger] g[j]).0 == root && g[j].1.len() == 1;
                    assert(j == i1);
                }
                if grp.1.len() == 1 && grp.0 != root {
                    let e0 = l.mem.len() as u64;
                    assert(l.mem.len() == nodes.len() + ec);
                    assert(e0 == (nodes.len() + ec) as u64);
                    let l1 = Layout { nodes: l.nodes.push(eraser()), mem: l.mem.push(eraser_slots(e0)), ..l };
                    assert(l1.nodes == nodes + Seq::new(ec + 1, |k: int| eraser()));
                    assert(l1.nodes[grp.1[0].node as int] == nodes[grp.1[0].node as int]);
                    assert(l1.nodes[e0 as int] == eraser());
                    assert(!rooted_upto(g, root, i as int) || rooted_upto(g, root, i1 as int));
                } else if grp.1.len() == 2 {
                    assert(l.nodes[grp.1[0].node as int] == nodes[grp.1[0].node as int]);
                    assert(l.nodes[grp.1[1].node as int] == nodes[grp.1[1].node as int]);
                    assert(!rooted_upto(g, root, i as int) || rooted_upto(g, root, i1 as int));
                } else if grp.1.len() == 1 {
                    assert(rooted_upto(g, root, i as int));
                    if rooted_upto(g, root, i1 as int) {
                        let j = choose|j: int| 0 <= j < i1 && (#[trigger] g[j]).0 == root && g[j].1.len() == 1;
                        assert(g[j].0 < g[i1 as int].0);
                    }
                } else {
                    assert(!rooted_upto(g, root, i as int) || rooted_upto(g, root, i1 as int));
                }
            }
        }
    }
}

/// The slot of auxiliary port `a` in memory.
pub open spec fn slot(mem: Seq<(Port, Port)>, a: Addr) -> Port {
    if a.port == 1 {
        mem[a.node as int].0
    } else {
        mem[a.node as int].1
    }
}

/// Whether a group is two auxiliary ports on one wire.
pub open spec fn aux_linked(grp: (u64, Seq<Addr>)) -> bool {
    grp.1.len() == 2 && grp.1[0].port != 0 && grp.1[1].port != 0
}

proof fn lemma_slot_set(mem: Seq<(Port, Port)>, x: Addr, p: Port, y: Addr)
    requires
        x.node < mem.len(),
        y.node < mem.len(),
        1 <= x.port <= 2,
        1 <= y.port <= 2,
    ensures
        slot(mem.update(x.node as int, set_aux(mem[x.node as int], x.port, p)), y) == if y == x {
            p
        } else {
            slot(mem, y)
        },
{
}

/// After the first `i` groups, the slots of two auxiliary ports that share
/// a wire point at each other.
#[verifier::spinoff_prover]
proof fn lemma_layout_slots(g: Seq<(u64, Seq<Addr>)>, root: u64, nodes: Seq<NodeData>, keyf: spec_fn(Addr) -> u64, i: nat)
    requires
        i <= g.len(),
        members_valid(g, nodes.len()),
        forall|a: int, b: int| 0 <= a < b < g.len() ==> g[a].0 < g[b].0,
        forall|t: int, k: int| 0 <= t < g.len() && 0 <= k < g[t].1.len() ==> keyf(#[trigger] g[t].1[k]) == g[t].0,
        nodes.len() + eraser_count(g, root, i) <= u64::MAX,
        !crowded_upto(g, i as int),
    ensures
        forall|t: int|
            0 <= t < i && aux_linked(#[trigger] g[t]) ==> {
                let mem = layout_iter(g, root, initial_layout(nodes), i).0.mem;
                &&& slot(mem, g[t].1[0]) == aux_port(g[t].1[1])
                &&& slot(mem, g[t].1[1]) == aux_port(g[t].1[0])
            },
    decreases i,
{
    if i > 0 {
        let i1 = (i - 1) as nat;
        assert(!crowded_upto(g, i1 as int)) by {
            if crowded_upto(g, i1 as int) {
                let j = choose|j: int| 0 <= j < i1 && (#[trigger] g[j]).1.len() > 2;
                assert(g[j].1.len() > 2);
            }
        }
        assert(g[i1 as int].1.len() <= 2);
        lemma_layout_shape(g, root, nodes, i1);
        lemma_layout_slots(g, root, nodes, keyf, i1);
        let l = layout_iter(g, root, initial_layout(nodes), i1).0;
        let l2 = layout_iter(g, root, initial_layout(nodes), i).0;
        let grp = g[i1 as int];
        assert(grp.1.len() > 0 ==> grp.1[0].node < nodes.len() && grp.1[0].port <= 2);
        assert(grp.1.len() > 1 ==> grp.1[1].node < nodes.len() && grp.1[1].port <= 2);
        assert forall|t: int| 0 <= t < i && aux_linked(#[trigger] g[t]) implies slot(l2.mem, g[t].1[0]) == aux_port(
            g[t].1[1],
        ) && slot(l2.mem, g[t].1[1]) == aux_port(g[t].1[0]) by {
            let u = g[t].1[0];
            let v = g[t].1[1];
            assert(u.node < nodes.len() && u.port <= 2);
            assert(v.node < nodes.len() && v.port <= 2);
            if t == i1 {
                let mem1 = l.mem.update(u.node as int, set_aux(l.mem[u.node as int], u.port, aux_port(v)));
                lemma_slot_set(l.mem, u, aux_port(v), u);
                lemma_slot_set(mem1, v, aux_port(u), u);
                lemma_slot_set(mem1, v, aux_port(u), v);
            } else {
                assert(g[t].0 < grp.0);
                assert(keyf(u) == g[t].0 && keyf(v) == g[t].0);
                if grp.1.len() == 2 {
                    let v0 = grp.1[0];
                    let v1 = grp.1[1];
                    assert(keyf(v0) == grp.0 && keyf(v1) == grp.0);
                    if v0.port == 0 && v1.port == 0 {
                    } else if v0.port == 0 {
                        lemma_slot_set(l.mem, v1, node_port(l.nodes[v0.node as int], v0), u);
                        lemma_slot_set(l.mem, v1, node_port(l.nodes[v0.node as int], v0), v);
                    } else if v1.port == 0 {
                        lemma_slot_set(l.mem, v0, node_port(l.nodes[v1.node as int], v1), u);
                        lemma_slot_set(l.mem, v0, node_port(l.nodes[v1.node as int], v1), v);
                    } else {
                        let mem1 = l.mem.update(v0.node as int, set_aux(l.mem[v0.node as int], v0.port, aux_port(v1)));
                        lemma_slot_set(l.mem, v0, aux_port(v1), u);
                        lemma_slot_set(l.mem, v0, aux_port(v1), v);
                        lemma_slot_set(mem1, v1, aux_port(v0), u);
                        lemma_slot_set(mem1, v1, aux_port(v0), v);
                    }
                } else if grp.1.len() == 1 && grp.0 != root {
                    let m0 = grp.1[0];
                    assert(keyf(m0) == grp.0);
                    let e0 = l.mem.len() as u64;
                    let mem0 = l.mem.push(eraser_slots(e0));
                    assert(slot(mem0, u) == slot(l.mem, u));
                    assert(slot(mem0, v) == slot(l.mem, v));
                    let l1 = Layout { nodes: l.nodes.push(eraser()), mem: mem0, ..l };
                    if m0.port != 0 {
                        lemma_slot_set(mem0, m0, node_port(l1.nodes[e0 as int], Addr { node: e0, port: 0 }), u);
                        lemma_slot_set(mem0, m0, node_port(l1.nodes[e0 as int], Addr { node: e0, port: 0 }), v);
                    }
                }
            }
        }
    }
}

/// Whether a group is one principal and one auxiliary port on one wire.
pub open spec fn prin_aux(grp: (u64, Seq<Addr>)) -> bool {
    grp.1.len() == 2 && (grp.1[0].port == 0) != (grp.1[1].port == 0)
}

/// The principal port of such a group.
pub open spec fn pa_prin(grp: (u64, Seq<Addr>)) -> Addr {
    if grp.1[0].port == 0 {
        grp.1[0]
    } else {
        grp.1[1]
    }
}

/// The auxiliary port of such a group.
pub open spec fn pa_aux(grp: (u64, Seq<Addr>)) -> Addr {
    if grp.1[0].port == 0 {
        grp.1[1]
    } else {
        grp.1[0]
    }
}

/// The linking law: linking two ports of one wire sets exactly the slots of
/// its auxiliary ports. An auxiliary port facing a principal port gets a
/// port with the principal's node flags and label that targets the
/// principal port; two auxiliary ports get plain vanilla ports targeting
/// each other; two principal ports leave memory alone and add one active
/// pair, each side describing its node and targeting its port. Every other
/// slot keeps its port.
pub proof fn lemma_link_pair_law(l: Layout, v0: Addr, v1: Addr, y: Addr)
    requires
        v0.node < l.mem.len(),
        v1.node < l.mem.len(),
        v0.node < l.nodes.len(),
        v1.node < l.nodes.len(),
        v0.port <= 2,
        v1.port <= 2,
        y.node < l.mem.len(),
        1 <= y.port <= 2,
    ensures
        ({
            let r = link_pair(l, v0, v1);
            let n0 = l.nodes[v0.node as int];
            let n1 = l.nodes[v1.node as int];
            &&& r.nodes == l.nodes
            &&& r.mem.len() == l.mem.len()
            &&& v0.port == 0 && v1.port == 0 ==> r.mem == l.mem && r.redex == l.redex.push(
                (
                    Port { is_primary: n0.primary, is_vanilla: n0.vanilla, is_lazy: n0.lazy, target: v0, label: n0.label },
                    Port { is_primary: n1.primary, is_vanilla: n1.vanilla, is_lazy: n1.lazy, target: v1, label: n1.label },
                ),
            )
            &&& !(v0.port == 0 && v1.port == 0) ==> r.redex == l.redex
            &&& v0.port == 0 && v1.port != 0 && y == v1 ==> slot(r.mem, y) == (Port {
                is_primary: n0.primary,
                is_vanilla: n0.vanilla,
                is_lazy: n0.lazy,
                target: v0,
                label: n0.label,
            })
            &&& v1.port == 0 && v0.port != 0 && y == v0 ==> slot(r.mem, y) == (Port {
                is_primary: n1.primary,
                is_vanilla: n1.vanilla,
                is_lazy: n1.lazy,
                target: v1,
                label: n1.label,
            })
            &&& v0.port != 0 && v1.port != 0 && y == v1 ==> slot(r.mem, y) == (Port {
                is_primary: false,
                is_vanilla: true,
                is_lazy: false,
                target: v0,
                label: 0,
            })
            &&& v0.port != 0 && v1.port != 0 && y == v0 && v0 != v1 ==> slot(r.mem, y) == (Port {
                is_primary: false,
                is_vanilla: true,
                is_lazy: false,
                target: v1,
                label: 0,
            })
            &&& y != v0 && y != v1 ==> slot(r.mem, y) == slot(l.mem, y)
        }),
{
    if v0.port == 0 && v1.port != 0 {
        lemma_slot_set(l.mem, v1, node_port(l.nodes[v0.node as int], v0), y);
    } else if v1.port == 0 && v0.port != 0 {
        lemma_slot_set(l.mem, v0, node_port(l.nodes[v1.node as int], v1), y);
    } else if v0.port != 0 && v1.port != 0 {
        let mem1 = l.mem.update(v0.node as int, set_aux(l.mem[v0.node as int], v0.port, aux_port(v1)));
        lemma_slot_set(l.mem, v0, aux_port(v1), y);
        lemma_slot_set(mem1, v1, aux_port(v0), y);
    }
}

/// After the first `i` groups, the slot of the auxiliary port of a group of
/// one principal and one auxiliary port describes the principal's node and
/// targets the principal port.
#[verifier::spinoff_prover]
proof fn lemma_layout_slots_pa(g: Seq<(u64, Seq<Addr>)>, root: u64, nodes: Seq<NodeData>, keyf: spec_fn(Addr) -> u64, i: nat)
    requires
        i <= g.len(),
        members_valid(g, nodes.len()),
        forall|a: int, b: int| 0 <= a < b < g.len() ==> g[a].0 < g[b].0,
        forall|t: int, k: int| 0 <= t < g.len() && 0 <= k < g[t].1.len() ==> keyf(#[trigger] g[t].1[k]) == g[t].0,
        nodes.len() + eraser_count(g, root, i) <= u64::MAX,
        !crowded_upto(g, i as int),
    ensures
        forall|t: int|
            0 <= t < i && prin_aux(#[trigger] g[t]) ==> slot(
                layout_iter(g, root, initial_layout(nodes), i).0.mem,
                pa_aux(g[t]),
            ) == node_port(nodes[pa_prin(g[t]).node as int], pa_prin(g[t])),
    decreases i,
{
    if i > 0 {
        let i1 = (i - 1) as nat;
        assert(!crowded_upto(g, i1 as int)) by {
            if crowded_upto(g, i1 as int) {
                let j = choose|j: int| 0 <= j < i1 && (#[trigger] g[j]).1.len() > 2;
                assert(g[j].1.len() > 2);
            }
        }
        assert(g[i1 as int].1.len() <= 2);
        lemma_layout_shape(g, root, nodes, i1);
        lemma_layout_slots_pa(g, root, nodes, keyf, i1);
        let l = layout_iter(g, root, initial_layout(nodes), i1).0;
        let l2 = layout_iter(g, root, initial_layout(nodes), i).0;
        let grp = g[i1 as int];
        assert(grp.1.len() > 0 ==> grp.1[0].node < nodes.len() && grp.1[0].port <= 2);
        assert(grp.1.len() > 1 ==> grp.1[1].node < nodes.len() && grp.1[1].port <= 2);
        assert forall|t: int| 0 <= t < i && prin_aux(#[trigger] g[t]) implies slot(l2.mem, pa_aux(g[t])) == node_port(
            nodes[pa_prin(g[t]).node as int],
            pa_prin(g[t]),
        ) by {
            let y = pa_aux(g[t]);
            let pp = pa_prin(g[t]);
            assert(g[t].1[0].node < nodes.len() && g[t].1[0].port <= 2);
            assert(g[t].1[1].node < nodes.len() && g[t].1[1].port <= 2);
            assert(l.nodes[pp.node as int] == nodes[pp.node as int]);
            if t == i1 {
                lemma_link_pair_law(l, grp.1[0], grp.1[1], y);
            } else {
                assert(g[t].0 < grp.0);
                assert(keyf(y) == g[t].0);
                if grp.1.len() == 2 {
                    assert(keyf(grp.1[0]) == grp.0 && keyf(grp.1[1]) == grp.0);
                    lemma_link_pair_law(l, grp.1[0], grp.1[1], y);
                } else if grp.1.len() == 1 && grp.0 != root {
                    let m0 = grp.1[0];
                    assert(keyf(m0) == grp.0);
                    let e0 = l.mem.len() as u64;
                    let mem0 = l.mem.push(eraser_slots(e0));
                    assert(slot(mem0, y) == slot(l.mem, y));
                    let l1 = Layout { nodes: l.nodes.push(eraser()), mem: mem0, ..l };
                    lemma_link_pair_law(l1, m0, Addr { node: e0, port: 0 }, y);
                }
            }
        }
    }
}

/// No group writes the slot of the root wire's lone auxiliary port: it
/// stays blank.
#[verifier::spinoff_prover]
proof fn lemma_layout_root_slot(g: Seq<(u64, Seq<Addr>)>, root: u64, nodes: Seq<NodeData>, keyf: spec_fn(Addr) -> u64, i: nat, t: int)
    requires
        i <= g.len(),
        members_valid(g, nodes.len()),
        forall|a: int, b: int| 0 <= a < b < g.len() ==> g[a].0 < g[b].0,
        forall|t: int, k: int| 0 <= t < g.len() && 0 <= k < g[t].1.len() ==> keyf(#[trigger] g[t].1[k]) == g[t].0,
        nodes.len() + eraser_count(g, root, i) <= u64::MAX,
        !crowded_upto(g, i as int),
        0 <= t < g.len(),
        g[t].0 == root,
        g[t].1.len() == 1,
        g[t].1[0].port != 0,
    ensures
        slot(layout_iter(g, root, initial_layout(nodes), i).0.mem, g[t].1[0]) == Port::blank(),
    decreases i,
{
    let y = g[t].1[0];
    assert(y.node < nodes.len() && y.port <= 2);
    assert(keyf(y) == root);
    if i == 0 {
        assert(initial_layout(nodes).mem[y.node as int] == (Port::blank(), Port::blank()));
    } else {
        let i1 = (i - 1) as nat;
        assert(!crowded_upto(g, i1 as int)) by {
            if crowded_upto(g, i1 as int) {
                let j = choose|j: int| 0 <= j < i1 && (#[trigger] g[j]).1.len() > 2;
                assert(g[j].1.len() > 2);
            }
        }
        assert(g[i1 as int].1.len() <= 2);
        lemma_layout_shape(g, root, nodes, i1);
        lemma_layout_root_slot(g, root, nodes, keyf, i1, t);
        let l = layout_iter(g, root, initial_layout(nodes), i1).0;
        let grp = g[i1 as int];
        assert(grp.1.len() > 0 ==> grp.1[0].node < nodes.len() && grp.1[0].port <= 2);
        assert(grp.1.len() > 1 ==> grp.1[1].node < nodes.len() && grp.1[1].port <= 2);
        if i1 != t {
            if i1 < t {
                assert(grp.0 < g[t].0);
            } else {
                assert(g[t].0 < grp.0);
            }
            if grp.1.len() == 2 {
                assert(keyf(grp.1[0]) == grp.0 && keyf(grp.1[1]) == grp.0);
                lemma_link_pair_law(l, grp.1[0], grp.1[1], y);
            } else if grp.1.len() == 1 && grp.0 != root {
                let m0 = grp.1[0];
                assert(keyf(m0) == grp.0);
                let e0 = l.mem.len() as u64;
                let mem0 = l.mem.push(eraser_slots(e0));
                assert(slot(mem0, y) == slot(l.mem, y));
                let l1 = Layout { nodes: l.nodes.push(eraser()), mem: mem0, ..l };
                lemma_link_pair_law(l1, m0, Addr { node: e0, port: 0 }, y);
            }
        }
    }
}

/// Blank slots for every node, no active pairs, no root yet.
pub open spec fn initial_layout(nodes: Seq<NodeData>) -> Layout {
    Layout {
        mem: Seq::new(nodes.len(), |i: int| (Port::blank(), Port::blank())),
        redex: Seq::empty(),
        nodes,
        root: None,
    }
}

/// Every member of every group is a port of one of the first `n` nodes.
pub open spec fn members_valid(g: Seq<(u64, Seq<Addr>)>, n: nat) -> bool {
    forall|i: int, t: int| 0 <= i < g.len() && 0 <= t < g[i].1.len() ==> (#[trigger] g[i].1[t]).node < n
        && g[i].1[t].port <= 2
}

proof fn lemma_grouping_members_valid(g: Seq<(u64, Seq<Addr>)>, n: nat, keyf: spec_fn(Addr) -> u64)
    requires
        is_grouping(g, port_list(n), keyf),
    ensures
        members_valid(g, n),
        forall|t: int, k: int| 0 <= t < g.len() && 0 <= k < g[t].1.len() ==> keyf(#[trigger] g[t].1[k]) == g[t].0,
{
    broadcast use vstd::seq_lib::group_filter_ensures;
    assert forall|i: int, t: int| 0 <= i < g.len() && 0 <= t < g[i].1.len() implies (#[trigger] g[i].1[t]).node < n
        && g[i].1[t].port <= 2 && keyf(g[i].1[t]) == g[i].0 by {
        let x = g[i].1[t];
        assert(port_list(n).filter(has_key(keyf, g[i].0)).contains(x));
        port_list(n).lemma_filter_contains_rev(has_key(keyf, g[i].0), x);
        let c = choose|c: int| 0 <= c < port_list(n).len() && port_list(n)[c] == x;
    }
}

/// The memory image being built: slots, active pairs, and the root port.
pub struct LaidOut {
    pub mem: Vec<(Port, Port)>,
    pub redex: Vec<(Port, Port)>,
    pub root: Option<Addr>,
}

/// What closing wrote before it stopped, and why it stopped.
#[derive(Debug)]
pub struct CloseFailure {
    pub written: Vec<u8>,
    pub error: CloseError,
}

/// The aliases after the variables are linked, and whether every chain met
/// along the way ended.
pub open spec fn linked(m: Model) -> (Map<u64, u64>, bool) {
    link_vars(m.aliases, m.vars, m.vars.len())
}

/// The ports of the nodes grouped by wire after the variables are linked.
pub open spec fn close_groups(m: Model) -> Seq<(u64, Seq<Addr>)> {
    port_groups(m.nodes, linked(m).0)
}

/// The port that stands on the root wire: the lone port of its group.
pub open spec fn root_member(g: Seq<(u64, Seq<Addr>)>, root: u64) -> Addr {
    g[choose|j: int| 0 <= j < g.len() && (#[trigger] g[j]).0 == root && g[j].1.len() == 1].1[0]
}

/// The first word of the image: the bits of the port that describes the
/// root (the node's own description for a principal port, a plain port
/// otherwise) plus 16.
pub open spec fn root_word(nodes: Seq<NodeData>, ra: Addr) -> int {
    (if ra.port == 0 {
        node_port(nodes[ra.node as int], ra)
    } else {
        aux_port(ra)
    }).bits_sum() + 16
}

/// Closing the net with root wire `root`: the state after it, the bytes of
/// the image (up to where an overflow stopped it), and the error if any.
pub open spec fn close_result(m: Model, root: u64) -> (Model, Seq<u8>, Option<CloseError>) {
    let (a1, ok) = link_vars(m.aliases, m.vars, m.vars.len());
    let m1 = Model { aliases: a1, ..m };
    if !ok {
        (m1, Seq::empty(), Some(CloseError::CyclicAlias))
    } else {
        let g = port_groups(m1.nodes, a1);
        let (l, e) = layout_iter(g, root, initial_layout(m1.nodes), g.len());
        let m2 = Model { nodes: l.nodes, ..m1 };
        if e is Some {
            (m2, Seq::empty(), e)
        } else {
            match l.root {
                None => (m2, Seq::empty(), Some(CloseError::NoRoot)),
                Some(ra) => {
                    let recs = records(l, ra);
                    let (b, done) = emit(recs, recs.len());
                    (m2, b, if done { None } else { Some(CloseError::Overflow) })
                },
            }
        }
    }
}

/// Links two ports in memory (see `link_pair`).
fn link_ports(v0: Addr, v1: Addr, mem: &mut Vec<(Port, Port)>, redex: &mut Vec<(Port, Port)>, nd: &Vec<NodeData>)
    requires
        v0.node < old(mem)@.len(),
        v1.node < old(mem)@.len(),
        old(mem)@.len() == nd@.len(),
        v0.port <= 2,
        v1.port <= 2,
    ensures
        final(mem)@ == link_pair(Layout { mem: old(mem)@, redex: old(redex)@, nodes: nd@, root: None }, v0, v1).mem,
        final(redex)@ == link_pair(Layout { mem: old(mem)@, redex: old(redex)@, nodes: nd@, root: None }, v0, v1).redex,
{
    let ml = mem.len();
    assert(v0.node as usize == v0.node && v1.node as usize == v1.node);
    if v0.port == 0 && v1.port == 0 {
        let n1 = nd[v0.node as usize];
        let n2 = nd[v1.node as usize];
        redex.push(
            (
                Port { is_primary: n1.primary, is_vanilla: n1.vanilla, is_lazy: n1.lazy, target: v0, label: n1.label },
                Port { is_primary: n2.primary, is_vanilla: n2.vanilla, is_lazy: n2.lazy, target: v1, label: n2.label },
            ),
        );
    } else if v0.port == 0 {
        let node = nd[v0.node as usize];
        let mut pair = mem[v1.node as usize];
        let q = v1.get_tuple_2(&mut pair);
        *q = Port { is_primary: node.primary, is_vanilla: node.vanilla, is_lazy: node.lazy, target: v0, label: node.label };
        mem.set(v1.node as usize, pair);
    } else if v1.port == 0 {
        let node = nd[v1.node as usize];
        let mut pair = mem[v0.node as usize];
        let q = v0.get_tuple_2(&mut pair);
        *q = Port { is_primary: node.primary, is_vanilla: node.vanilla, is_lazy: node.lazy, target: v1, label: node.label };
        mem.set(v0.node as usize, pair);
    } else {
        let mut pair = mem[v0.node as usize];
        let q = v0.get_tuple_2(&mut pair);
        *q = Port { is_primary: false, is_vanilla: true, is_lazy: false, target: v1, label: 0 };
        mem.set(v0.node as usize, pair);
        let mut pair = mem[v1.node as usize];
        let q = v1.get_tuple_2(&mut pair);
        *q = Port { is_primary: false, is_vanilla: true, is_lazy: false, target: v0, label: 0 };
        mem.set(v1.node as usize, pair);
    }
}

// ---------------------------------------------------------------------------
// Encoding the image
// ---------------------------------------------------------------------------

/// The eight bytes of `v`, least significant first.
pub open spec fn le_bytes(v: u64) -> Seq<u8> {
    seq![
        v as u8,
        (v >> 8u64) as u8,
        (v >> 16u64) as u8,
        (v >> 24u64) as u8,
        (v >> 32u64) as u8,
        (v >> 40u64) as u8,
        (v >> 48u64) as u8,
        (v >> 56u64) as u8,
    ]
}

/// The bytes of a sequence of words.
pub open spec fn words_bytes(ws: Seq<u64>) -> Seq<u8>
    decreases ws.len(),
{
    if ws.len() == 0 {
        Seq::empty()
    } else {
        words_bytes(ws.drop_last()) + le_bytes(ws.last())
    }
}

/// `x - y` modulo 2^64.
pub open spec fn wsub(x: u64, y: u64) -> u64 {
    vstd::wrapping::u64_specs::wrapping_sub(x, y)
}

/// The port that stands for the root: the node's own description when the
/// root is a principal port, a plain port otherwise.
pub open spec fn root_port(l: Layout, ra: Addr) -> Port {
    if ra.port == 0 {
        node_port(l.nodes[ra.node as int], ra)
    } else {
        aux_port(ra)
    }
}

/// The word that locates the active pairs, for `start` slot pairs and
/// `amount` active pairs: 0 without active pairs, else
/// `start * 16 + amount * 48 - 8`, if that stays in range.
pub open spec fn redex_word(start: nat, amount: nat) -> Option<u64> {
    if amount == 0 {
        Some(0)
    } else if start * 16 + amount * 48 <= u64::MAX {
        Some((start * 16 + amount * 48 - 8) as u64)
    } else {
        None
    }
}

/// The first two words: the root port's bits plus 16, and the active-pair
/// word.
pub open spec fn header_record(l: Layout, ra: Addr) -> Option<Seq<u64>> {
    match redex_word(l.mem.len(), l.redex.len()) {
        None => None,
        Some(rw) => {
            let b = root_port(l, ra).bits_sum();
            if b + 16 <= u64::MAX {
                Some(seq![(b + 16) as u64, rw])
            } else {
                None
            }
        },
    }
}

/// The two words of slot pair `i`: each port's bits minus its own byte
/// offset (`16 i` and `16 i + 8`), modulo 2^64; the slot that the root
/// stands in is lowered by 14 more.
pub open spec fn mem_record(l: Layout, ra: Addr, i: int) -> Option<Seq<u64>> {
    let pr = l.mem[i];
    let a = i * 16;
    if pr.0.bits_sum() <= u64::MAX && pr.1.bits_sum() <= u64::MAX && a + 8 <= u64::MAX {
        let w1 = wsub(pr.0.bits_sum() as u64, a as u64);
        let w2 = wsub(pr.1.bits_sum() as u64, (a + 8) as u64);
        Some(
            seq![
                if i == ra.node && ra.port == 1 { wsub(w1, 14) } else { w1 },
                if i == ra.node && ra.port == 2 { wsub(w2, 14) } else { w2 },
            ],
        )
    } else {
        None
    }
}

/// The first five words of active pair `i`: each port's bits minus its
/// offset, 8, the other port, 8, and the negated offset of the third word.
pub open spec fn redex_record(l: Layout, i: int) -> Option<Seq<u64>> {
    let pr = l.redex[i];
    let b = (i * 3 + l.mem.len()) * 16;
    if pr.0.bits_sum() <= u64::MAX && pr.1.bits_sum() <= u64::MAX && b + 32 <= u64::MAX {
        Some(
            seq![
                wsub(pr.0.bits_sum() as u64, b as u64),
                8,
                wsub(pr.1.bits_sum() as u64, (b + 16) as u64),
                8,
                wsub(0, (b + 32) as u64),
            ],
        )
    } else {
        None
    }
}

/// The word after the last active pair: `8 - 48 n` as a signed 64-bit word
/// (`n` the number of active pairs, read as signed), if the signed
/// arithmetic stays in range.
pub open spec fn tail_word(n: u64) -> Option<u64> {
    let a = (n as i64) as int;
    if i64::MIN <= a * 16 <= i64::MAX && i64::MIN <= a * 48 <= i64::MAX && i64::MIN <= 8 - a * 48 <= i64::MAX {
        Some((8 - a * 48) as u64)
    } else {
        None
    }
}

/// The sixth word of active pair `i`: the tail word for the last pair, 8
/// otherwise.
pub open spec fn redex_end_record(l: Layout, i: int) -> Option<Seq<u64>> {
    if l.redex.len() == i + 1 {
        match tail_word(l.redex.len() as u64) {
            Some(w) => Some(seq![w]),
            None => None,
        }
    } else {
        Some(seq![8])
    }
}

/// The records of the image in the order they are written; `None` marks a
/// record whose arithmetic leaves the 64-bit range.
pub open spec fn records(l: Layout, ra: Addr) -> Seq<Option<Seq<u64>>> {
    seq![header_record(l, ra)] + Seq::new(l.mem.len(), |i: int| mem_record(l, ra, i)) + Seq::new(
        2 * l.redex.len(),
        |j: int| if j % 2 == 0 { redex_record(l, j / 2) } else { redex_end_record(l, j / 2) },
    )
}

/// The bytes of the first `i` records, stopping before the first `None`; the
/// flag says whether none was met.
pub open spec fn emit(recs: Seq<Option<Seq<u64>>>, i: nat) -> (Seq<u8>, bool)
    decreases i,
{
    if i == 0 {
        (Seq::empty(), true)
    } else {
        let (b, ok) = emit(recs, (i - 1) as nat);
        if !ok {
            (b, false)
        } else {
            match recs[i - 1] {
                None => (b, false),
                Some(ws) => (b + words_bytes(ws), true),
            }
        }
    }
}

proof fn lemma_emit_stable(recs: Seq<Option<Seq<u64>>>, i: nat, i2: nat)
    requires
        i <= i2,
        !emit(recs, i).1,
    ensures
        emit(recs, i2) == emit(recs, i),
    decreases i2,
{
    if i2 > i {
        lemma_emit_stable(recs, i, (i2 - 1) as nat);
    }
}

proof fn lemma_words_bytes_len(ws: Seq<u64>)
    ensures
        words_bytes(ws).len() == 8 * ws.len(),
    decreases ws.len(),
{
    if ws.len() > 0 {
        lemma_words_bytes_len(ws.drop_last());
    }
}

/// How many bytes the first `i` records of an image with `m` slot pairs
/// take: 16 for the header and for each slot pair, then 40 and 8 for the
/// two records of each active pair.
spec fn image_prefix_len(m: nat, i: nat) -> int {
    if i <= 1 + m {
        16 * i as int
    } else {
        let j = i - 1 - m;
        16 * (1 + m) + 48 * (j / 2) + (if j % 2 == 1 { 40int } else { 0int })
    }
}

proof fn lemma_emit_len(l: Layout, ra: Addr, i: nat)
    requires
        i <= records(l, ra).len(),
    ensures
        emit(records(l, ra), i).1 ==> emit(records(l, ra), i).0.len() == image_prefix_len(l.mem.len(), i),
    decreases i,
{
    let recs = records(l, ra);
    let m = l.mem.len();
    if i > 0 {
        let i1 = (i - 1) as nat;
        lemma_emit_len(l, ra, i1);
        if emit(recs, i).1 {
            lemma_emit_stable_back(recs, i1, i);
            let ws = recs[i1 as int]->Some_0;
            lemma_words_bytes_len(ws);
            if i1 == 0 {
                assert(recs[0] == header_record(l, ra));
            } else if i1 <= m {
                assert(recs[i1 as int] == mem_record(l, ra, i1 - 1));
            } else {
                let j = i1 - 1 - m;
                if j % 2 == 0 {
                    assert(recs[i1 as int] == redex_record(l, j / 2));
                } else {
                    assert(recs[i1 as int] == redex_end_record(l, j / 2));
                }
            }
        }
    }
}

proof fn lemma_emit_stable_back(recs: Seq<Option<Seq<u64>>>, i: nat, i2: nat)
    requires
        i <= i2,
        emit(recs, i2).1,
    ensures
        emit(recs, i).1,
{
    if !emit(recs, i).1 {
        lemma_emit_stable(recs, i, i2);
    }
}

/// The image law: a fully written image holds a two-word header, two words
/// for each slot pair and six words for each active pair.
pub proof fn lemma_image_size(l: Layout, ra: Addr)
    ensures
        emit(records(l, ra), records(l, ra).len()).1 ==> emit(records(l, ra), records(l, ra).len()).0.len() == 16 + 16
            * l.mem.len() + 48 * l.redex.len(),
{
    lemma_emit_len(l, ra, records(l, ra).len());
    let m = l.mem.len();
    let n = records(l, ra).len();
    assert(n == 1 + m + 2 * l.redex.len());
    if n > 1 + m {
        let j = n - 1 - m;
        assert(j / 2 == l.redex.len() && j % 2 == 0);
    }
}

/// Bytes already written stay at the front of what is written later.
proof fn lemma_emit_prefix(recs: Seq<Option<Seq<u64>>>, i: nat, j: nat)
    requires
        i <= j,
        emit(recs, j).1,
    ensures
        emit(recs, i).0.len() <= emit(recs, j).0.len(),
        emit(recs, j).0.subrange(0, emit(recs, i).0.len() as int) == emit(recs, i).0,
    decreases j,
{
    if j > i {
        let j1 = (j - 1) as nat;
        lemma_emit_stable_back(recs, j1, j);
        lemma_emit_prefix(recs, i, j1);
        let a = emit(recs, j1).0;
        let b = emit(recs, j).0;
        assert(b == a + words_bytes(recs[j1 as int]->Some_0));
        assert(b.subrange(0, emit(recs, i).0.len() as int) =~= a.subrange(0, emit(recs, i).0.len() as int));
    } else {
        assert(emit(recs, j).0.subrange(0, emit(recs, j).0.len() as int) =~= emit(recs, j).0);
    }
}

/// In a fully written image, record `i` stands between the bytes of the
/// records before it and those of the records up to it.
proof fn lemma_record_at(recs: Seq<Option<Seq<u64>>>, i: nat)
    requires
        i < recs.len(),
        emit(recs, recs.len()).1,
    ensures
        emit(recs, i).1,
        emit(recs, i + 1).1,
        recs[i as int] is Some,
        emit(recs, i).0.len() <= emit(recs, i + 1).0.len() <= emit(recs, recs.len()).0.len(),
        emit(recs, recs.len()).0.subrange(emit(recs, i).0.len() as int, emit(recs, i + 1).0.len() as int)
            == words_bytes(recs[i as int]->Some_0),
{
    lemma_emit_stable_back(recs, i + 1, recs.len());
    lemma_emit_stable_back(recs, i, recs.len());
    lemma_emit_prefix(recs, i + 1, recs.len());
    let all = emit(recs, recs.len()).0;
    let a = emit(recs, i).0;
    let b = emit(recs, i + 1).0;
    assert(b == a + words_bytes(recs[i as int]->Some_0));
    assert(all.subrange(a.len() as int, b.len() as int) =~= b.subrange(a.len() as int, b.len() as int));
    assert(b.subrange(a.len() as int, b.len() as int) =~= words_bytes(recs[i as int]->Some_0));
}

/// The six words of active pair `k` of `r`, with `n` slot pairs before the
/// active pairs: each port's bits minus its byte offset, 8, the other port's
/// likewise, 8, the negated offset of the third word, and `8 - 48 r` after
/// the last pair (8 after the others).
pub open spec fn pair_words(p: (Port, Port), n: nat, k: nat, r: nat) -> Seq<u64> {
    let b = (k * 3 + n) * 16;
    seq![
        wsub(p.0.bits_sum() as u64, b as u64),
        8,
        wsub(p.1.bits_sum() as u64, (b + 16) as u64),
        8,
        wsub(0, (b + 32) as u64),
        if k + 1 == r { (8 - (r as int) * 48) as u64 } else { 8 },
    ]
}

/// Appends the eight bytes of `v`, least significant first.
fn push_le(out: &mut Vec<u8>, v: u64)
    ensures
        final(out)@ == old(out)@ + le_bytes(v),
{
    out.push(v as u8);
    out.push((v >> 8u64) as u8);
    out.push((v >> 16u64) as u8);
    out.push((v >> 24u64) as u8);
    out.push((v >> 32u64) as u8);
    out.push((v >> 40u64) as u8);
    out.push((v >> 48u64) as u8);
    out.push((v >> 56u64) as u8);
    assert(out@ =~= old(out)@ + le_bytes(v));
}

/// Appends the bytes of a record.
fn push_words(out: &mut Vec<u8>, ws: &Vec<u64>)
    ensures
        final(out)@ == old(out)@ + words_bytes(ws@),
{
    let mut i: usize = 0;
    assert(ws@.take(0) =~= Seq::<u64>::empty());
    while i < ws.len()
        invariant
            i <= ws@.len(),
            out@ == old(out)@ + words_bytes(ws@.take(i as int)),
        decreases ws@.len() - i,
    {
        push_le(out, ws[i]);
        assert(ws@.take(i + 1).drop_last() =~= ws@.take(i as int));
        assert(out@ =~= old(out)@ + words_bytes(ws@.take(i + 1)));
        i = i + 1;
    }
    assert(ws@.take(ws@.len() as int) =~= ws@);
}

/// The header record (see `header_record`).
fn header_words(image: &LaidOut, nodes: &Vec<NodeData>, ra: Addr) -> (r: Option<Vec<u64>>)
    requires
        ra.node < nodes@.len(),
        ra.port <= 2,
    ensures
        match r {
            Some(v) => header_record(Layout { mem: image.mem@, redex: image.redex@, nodes: nodes@, root: Some(ra) }, ra) == Some(v@),
            None => header_record(Layout { mem: image.mem@, redex: image.redex@, nodes: nodes@, root: Some(ra) }, ra) is None,
        },
{
    let ghost l = Layout { mem: image.mem@, redex: image.redex@, nodes: nodes@, root: Some(ra) };
    let nl = nodes.len();
    let start = image.mem.len() as u128;
    let amount = image.redex.len() as u128;
    let rw: u64;
    if amount == 0 {
        rw = 0;
    } else if start * 16 + amount * 48 <= 0xffff_ffff_ffff_ffffu128 {
        rw = (start * 16 + amount * 48 - 8) as u64;
    } else {
        assert(redex_word(l.mem.len(), l.redex.len()) is None);
        return None;
    }
    assert(redex_word(l.mem.len(), l.redex.len()) == Some(rw));
    let rp = if ra.port == 0 {
        let n = nodes[ra.node as usize];
        Port { is_primary: n.primary, is_vanilla: n.vanilla, is_lazy: n.lazy, target: ra, label: n.label }
    } else {
        Port { is_primary: false, is_vanilla: true, is_lazy: false, target: ra, label: 0 }
    };
    assert(rp == root_port(l, ra));
    if !rp.bits_fit() {
        return None;
    }
    let b = rp.to_bits();
    if b > u64::MAX - 16 {
        return None;
    }
    let mut v: Vec<u64> = Vec::new();
    v.push(b + 16);
    v.push(rw);
    assert(v@ =~= seq![(b + 16) as u64, rw]);
    Some(v)
}

/// The record of slot pair `i` (see `mem_record`).
fn mem_words(image: &LaidOut, nodes: &Vec<NodeData>, ra: Addr, i: usize) -> (r: Option<Vec<u64>>)
    requires
        i < image.mem@.len(),
    ensures
        match r {
            Some(v) => mem_record(Layout { mem: image.mem@, redex: image.redex@, nodes: nodes@, root: Some(ra) }, ra, i as int) == Some(v@),
            None => mem_record(Layout { mem: image.mem@, redex: image.redex@, nodes: nodes@, root: Some(ra) }, ra, i as int) is None,
        },
{
    let (p1, p2) = image.mem[i];
    let a = i as u128 * 16;
    if !p1.bits_fit() || !p2.bits_fit() || a + 8 > 0xffff_ffff_ffff_ffffu128 {
        return None;
    }
    let mut w1 = p1.to_bits().wrapping_sub(a as u64);
    let mut w2 = p2.to_bits().wrapping_sub((a + 8) as u64);
    if i as u64 == ra.node {
        if ra.port == 1 {
            w1 = w1.wrapping_sub(14);
        }
        if ra.port == 2 {
            w2 = w2.wrapping_sub(14);
        }
    }
    let mut v: Vec<u64> = Vec::new();
    v.push(w1);
    v.push(w2);
    proof {
        let l = Layout { mem: image.mem@, redex: image.redex@, nodes: nodes@, root: Some(ra) };
        assert(v@ =~= mem_record(l, ra, i as int)->Some_0);
    }
    Some(v)
}

/// The first record of active pair `i` (see `redex_record`).
fn redex_words(image: &LaidOut, nodes: &Vec<NodeData>, ra: Addr, i: usize) -> (r: Option<Vec<u64>>)
    requires
        i < image.redex@.len(),
    ensures
        match r {
            Some(v) => redex_record(Layout { mem: image.mem@, redex: image.redex@, nodes: nodes@, root: Some(ra) }, i as int) == Some(v@),
            None => redex_record(Layout { mem: image.mem@, redex: image.redex@, nodes: nodes@, root: Some(ra) }, i as int) is None,
        },
{
    let (p1, p2) = image.redex[i];
    let b = (i as u128 * 3 + image.mem.len() as u128) * 16;
    if !p1.bits_fit() || !p2.bits_fit() || b + 32 > 0xffff_ffff_ffff_ffffu128 {
        return None;
    }
    let mut v: Vec<u64> = Vec::new();
    v.push(p1.to_bits().wrapping_sub(b as u64));
    v.push(8);
    v.push(p2.to_bits().wrapping_sub((b + 16) as u64));
    v.push(8);
    v.push(0u64.wrapping_sub((b + 32) as u64));
    proof {
        let l = Layout { mem: image.mem@, redex: image.redex@, nodes: nodes@, root: Some(ra) };
        assert(v@ =~= redex_record(l, i as int)->Some_0);
    }
    Some(v)
}

/// The second record of active pair `i` (see `redex_end_record`).
fn redex_end_words(image: &LaidOut, nodes: &Vec<NodeData>, ra: Addr, i: usize) -> (r: Option<Vec<u64>>)
    requires
        i < image.redex@.len(),
    ensures
        match r {
            Some(v) => redex_end_record(Layout { mem: image.mem@, redex: image.redex@, nodes: nodes@, root: Some(ra) }, i as int) == Some(v@),
            None => redex_end_record(Layout { mem: image.mem@, redex: image.redex@, nodes: nodes@, root: Some(ra) }, i as int) is None,
        },
{
    let n = image.redex.len();
    let mut v: Vec<u64> = Vec::new();
    if n == i + 1 {
        let a = n as u64 as i64;
        let x = match a.checked_mul(16) {
            Some(x) => x,
            None => {
                return None;
            },
        };
        let y = match a.checked_mul(48) {
            Some(y) => y,
            None => {
                return None;
            },
        };
        let z = match 8i64.checked_sub(y) {
            Some(z) => z,
            None => {
                return None;
            },
        };
        v.push(z as u64);
    } else {
        v.push(8);
    }
    assert(v@ =~= redex_end_record(Layout { mem: image.mem@, redex: image.redex@, nodes: nodes@, root: Some(ra) }, i as int)->Some_0);
    Some(v)
}

/// The bytes of the image, up to the first record whose arithmetic leaves
/// the 64-bit range, and whether all records were written (see `emit`).
pub fn encode(image: &LaidOut, nodes: &Vec<NodeData>, ra: Addr) -> (r: (Vec<u8>, bool))
    requires
        ra.node < nodes@.len(),
        ra.port <= 2,
    ensures
        ({
            let recs = records(Layout { mem: image.mem@, redex: image.redex@, nodes: nodes@, root: Some(ra) }, ra);
            (r.0@, r.1) == emit(recs, recs.len())
        }),
{
    let ghost l = Layout { mem: image.mem@, redex: image.redex@, nodes: nodes@, root: Some(ra) };
    let ghost recs = records(l, ra);
    let ghost total = recs.len();
    let mut out: Vec<u8> = Vec::new();
    let mlen = image.mem.len();
    let rlen = image.redex.len();
    assert(recs[0] == header_record(l, ra));
    assert(emit(recs, 0) == (Seq::<u8>::empty(), true));
    match header_words(image, nodes, ra) {
        None => {
            proof {
                lemma_emit_stable(recs, 1, total);
            }
            return (out, false);
        },
        Some(ws) => {
            push_words(&mut out, &ws);
        },
    }
    assert((out@, true) == emit(recs, 1));
    let mut i: usize = 0;
    while i < mlen
        invariant
            l == (Layout { mem: image.mem@, redex: image.redex@, nodes: nodes@, root: Some(ra) }),
            recs == records(l, ra),
            total == recs.len(),
            mlen == image.mem@.len(),
            rlen == image.redex@.len(),
            i <= mlen,
            (out@, true) == emit(recs, (1 + i) as nat),
        decreases mlen - i,
    {
        assert(recs[1 + i] == mem_record(l, ra, i as int));
        match mem_words(image, nodes, ra, i) {
            None => {
                proof {
                    lemma_emit_stable(recs, (2 + i) as nat, total);
                }
                return (out, false);
            },
            Some(ws) => {
                push_words(&mut out, &ws);
            },
        }
        i = i + 1;
    }
    let mut j: usize = 0;
    while j < rlen
        invariant
            l == (Layout { mem: image.mem@, redex: image.redex@, nodes: nodes@, root: Some(ra) }),
            recs == records(l, ra),
            total == recs.len(),
            total == 1 + mlen + 2 * rlen,
            mlen == image.mem@.len(),
            rlen == image.redex@.len(),
            j <= rlen,
            (out@, true) == emit(recs, (1 + mlen + 2 * j) as nat),
        decreases rlen - j,
    {
        assert(recs[1 + mlen + 2 * j] == redex_record(l, j as int));
        match redex_words(image, nodes, ra, j) {
            None => {
                proof {
                    lemma_emit_stable(recs, (2 + mlen + 2 * j) as nat, total);
                }
                return (out, false);
            },
            Some(ws) => {
                push_words(&mut out, &ws);
            },
        }
        assert((out@, true) == emit(recs, (2 + mlen + 2 * j) as nat));
        assert(recs[1 + mlen + 2 * j + 1] == redex_end_record(l, j as int));
        match redex_end_words(image, nodes, ra, j) {
            None => {
                proof {
                    lemma_emit_stable(recs, (3 + mlen + 2 * j) as nat, total);
                }
                return (out, false);
            },
            Some(ws) => {
                push_words(&mut out, &ws);
            },
        }
        j = j + 1;
    }
    (out, true)
}

/// The first two words of a fully written image.
proof fn lemma_image_header(l: Layout, ra: Addr)
    requires
        emit(records(l, ra), records(l, ra).len()).1,
    ensures
        ({
            let bytes = emit(records(l, ra), records(l, ra).len()).0;
            let hw = header_record(l, ra)->Some_0;
            &&& header_record(l, ra) is Some
            &&& bytes.subrange(0, 8) == le_bytes(hw[0])
            &&& bytes.subrange(8, 16) == le_bytes(hw[1])
            &&& hw == seq![(root_port(l, ra).bits_sum() + 16) as u64, redex_word(l.mem.len(), l.redex.len())->Some_0]
        }),
{
    let recs = records(l, ra);
    let bytes = emit(recs, recs.len()).0;
    lemma_record_at(recs, 0);
    lemma_emit_len(l, ra, 0);
    lemma_emit_len(l, ra, 1);
    assert(recs[0] == header_record(l, ra));
    let hw = recs[0]->Some_0;
    assert(hw.len() == 2);
    assert(hw.drop_last() =~= seq![hw[0]]);
    assert(seq![hw[0]].drop_last() =~= Seq::<u64>::empty());
    assert(words_bytes(seq![hw[0]]) =~= le_bytes(hw[0]));
    assert(words_bytes(hw) =~= le_bytes(hw[0]) + le_bytes(hw[1]));
    assert(bytes.subrange(0, 16) == le_bytes(hw[0]) + le_bytes(hw[1]));
    assert(bytes.subrange(0, 8) =~= bytes.subrange(0, 16).subrange(0, 8));
    assert(bytes.subrange(8, 16) =~= bytes.subrange(0, 16).subrange(8, 16));
}

/// The six words of each active pair in a fully written image.
#[verifier::spinoff_prover]
#[verifier::rlimit(50)]
proof fn lemma_image_pairs(l: Layout, ra: Addr, k: int)
    requires
        emit(records(l, ra), records(l, ra).len()).1,
        0 <= k < l.redex.len(),
    ensures
        ({
            let bytes = emit(records(l, ra), records(l, ra).len()).0;
            let n = l.mem.len();
            bytes.subrange(16 + 16 * n + 48 * k, 16 + 16 * n + 48 * k + 48) == words_bytes(
                pair_words(l.redex[k], n, k as nat, l.redex.len()),
            )
        }),
{
    let recs = records(l, ra);
    let bytes = emit(recs, recs.len()).0;
    let n = l.mem.len();
    let r = l.redex.len();
    let i = (1 + n + 2 * k) as nat;
    lemma_record_at(recs, i);
    lemma_record_at(recs, i + 1);
    lemma_emit_len(l, ra, i);
    lemma_emit_len(l, ra, i + 1);
    lemma_emit_len(l, ra, i + 2);
    assert((i - 1 - n) / 2 == k && (i - 1 - n) % 2 == 0);
    assert((i + 1 - 1 - n) / 2 == k && (i + 1 - 1 - n) % 2 == 1);
    assert((i + 2 - 1 - n) / 2 == k + 1 && (i + 2 - 1 - n) % 2 == 0);
    assert(recs[i as int] == redex_record(l, k));
    assert(recs[i + 1int] == redex_end_record(l, k));
    let w1 = recs[i as int]->Some_0;
    let w2 = recs[i + 1int]->Some_0;
    let pw = pair_words(l.redex[k], n, k as nat, r);
    assert(pw =~= w1 + w2);
    lemma_words_bytes_add(w1, w2);
    let a = 16 + 16 * n + 48 * k;
    assert(bytes.subrange(a, a + 48) =~= bytes.subrange(a, a + 40) + bytes.subrange(a + 40, a + 48));
}

/// In a fully written image, the word of the slot of auxiliary port `a`
/// (other than the root) is the bits of the port in it minus the slot's own
/// byte offset.
proof fn lemma_image_slot(l: Layout, ra: Addr, a: Addr)
    requires
        emit(records(l, ra), records(l, ra).len()).1,
        a.node < l.mem.len(),
        1 <= a.port <= 2,
        a != ra,
    ensures
        ({
            let bytes = emit(records(l, ra), records(l, ra).len()).0;
            let off = 16 * a.node + 8 * (a.port - 1);
            bytes.subrange(16 + off, 24 + off) == le_bytes(wsub(slot(l.mem, a).bits_sum() as u64, off as u64))
        }),
{
    let recs = records(l, ra);
    let bytes = emit(recs, recs.len()).0;
    let i = (1 + a.node) as nat;
    lemma_record_at(recs, i);
    lemma_emit_len(l, ra, i);
    lemma_emit_len(l, ra, i + 1);
    assert(recs[i as int] == mem_record(l, ra, a.node as int));
    let w = recs[i as int]->Some_0;
    assert(w.len() == 2);
    assert(w.drop_last() =~= seq![w[0]]);
    assert(seq![w[0]].drop_last() =~= Seq::<u64>::empty());
    assert(words_bytes(seq![w[0]]) =~= le_bytes(w[0]));
    assert(words_bytes(w) =~= le_bytes(w[0]) + le_bytes(w[1]));
    let b = 16 + 16 * a.node;
    assert(bytes.subrange(b, b + 16) == le_bytes(w[0]) + le_bytes(w[1]));
    assert(bytes.subrange(b, b + 8) =~= bytes.subrange(b, b + 16).subrange(0, 8));
    assert(bytes.subrange(b + 8, b + 16) =~= bytes.subrange(b, b + 16).subrange(8, 16));
}

/// In a fully written image, the word of the root's slot, when the root is
/// an auxiliary port, is the bits of the port in it minus the slot's offset
/// and minus 14 more.
proof fn lemma_image_root_slot(l: Layout, ra: Addr)
    requires
        emit(records(l, ra), records(l, ra).len()).1,
        ra.node < l.mem.len(),
        1 <= ra.port <= 2,
    ensures
        ({
            let bytes = emit(records(l, ra), records(l, ra).len()).0;
            let off = 16 * ra.node + 8 * (ra.port - 1);
            bytes.subrange(16 + off, 24 + off) == le_bytes(wsub(wsub(slot(l.mem, ra).bits_sum() as u64, off as u64), 14))
        }),
{
    let recs = records(l, ra);
    let bytes = emit(recs, recs.len()).0;
    let i = (1 + ra.node) as nat;
    lemma_record_at(recs, i);
    lemma_emit_len(l, ra, i);
    lemma_emit_len(l, ra, i + 1);
    assert(recs[i as int] == mem_record(l, ra, ra.node as int));
    let w = recs[i as int]->Some_0;
    assert(w.len() == 2);
    assert(w.drop_last() =~= seq![w[0]]);
    assert(seq![w[0]].drop_last() =~= Seq::<u64>::empty());
    assert(words_bytes(seq![w[0]]) =~= le_bytes(w[0]));
    assert(words_bytes(w) =~= le_bytes(w[0]) + le_bytes(w[1]));
    let b = 16 + 16 * ra.node;
    assert(bytes.subrange(b, b + 16) == le_bytes(w[0]) + le_bytes(w[1]));
    assert(bytes.subrange(b, b + 8) =~= bytes.subrange(b, b + 16).subrange(0, 8));
    assert(bytes.subrange(b + 8, b + 16) =~= bytes.subrange(b, b + 16).subrange(8, 16));
}

/// A failed layout failed on a group of more than two ports.
proof fn lemma_layout_error(g: Seq<(u64, Seq<Addr>)>, root: u64, l0: Layout, i: nat)
    ensures
        layout_iter(g, root, l0, i).1 is Some ==> layout_iter(g, root, l0, i).1 == Some(CloseError::TooManyEndpoints),
    decreases i,
{
    if i > 0 {
        lemma_layout_error(g, root, l0, (i - 1) as nat);
    }
}

/// With keys in increasing order, the root wire's group is unique.
proof fn lemma_root_member(g: Seq<(u64, Seq<Addr>)>, root: u64, j: int)
    requires
        forall|a: int, b: int| 0 <= a < b < g.len() ==> g[a].0 < g[b].0,
        0 <= j < g.len(),
        g[j].0 == root,
        g[j].1.len() == 1,
    ensures
        root_member(g, root) == g[j].1[0],
        rooted_upto(g, root, g.len() as int),
{
    let j2 = choose|j2: int| 0 <= j2 < g.len() && (#[trigger] g[j2]).0 == root && g[j2].1.len() == 1;
    if j < j2 {
        assert(g[j].0 < g[j2].0);
    } else if j2 < j {
        assert(g[j2].0 < g[j].0);
    }
}

proof fn lemma_words_bytes_add(a: Seq<u64>, b: Seq<u64>)
    ensures
        words_bytes(a + b) == words_bytes(a) + words_bytes(b),
    decreases b.len(),
{
    if b.len() == 0 {
        assert(a + b =~= a);
        assert(words_bytes(a) + words_bytes(b) =~= words_bytes(a));
    } else {
        lemma_words_bytes_add(a, b.drop_last());
        assert((a + b).drop_last() =~= a + b.drop_last());
        assert(words_bytes(a) + words_bytes(b) =~= words_bytes(a) + words_bytes(b.drop_last()) + le_bytes(b.last()));
    }
}

impl State {
    /// Groups all node ports by the wire they stand on, where a wire that is
    /// directly aliased counts as the wire it is aliased to.
    pub fn group_ports(&self) -> (r: PortGroups)
        requires
            self.aliases.wf(),
        ensures
            r.wf(),
            r@ == port_groups(self@.nodes, self@.aliases),
            is_grouping(r@, port_list(self@.nodes.len()), key_fn(self@.nodes, self@.aliases)),
    {
        let n = self.node_data.len();
        let ghost keyf = key_fn(self@.nodes, self@.aliases);
        let ghost all = port_list(n as nat);
        let mut g = PortGroups::new();
        let mut idx: usize = 0;
        assert(all.take(0) =~= Seq::<Addr>::empty());
        while idx < n
            invariant
                g.wf(),
                self.aliases.wf(),
                idx <= n,
                n == self@.nodes.len(),
                all == port_list(n as nat),
                keyf == key_fn(self@.nodes, self@.aliases),
                is_grouping(g@, all.take(3 * idx), keyf),
            decreases n - idx,
        {
            let node = self.node_data[idx];
            let ghost c: int = 3 * idx;
            let w0 = node.p0.0;
            let k0 = match self.aliases.get(w0) {
                Some(x) => x,
                None => w0,
            };
            proof {
                lemma_port_list_step(n as nat, c);
            }
            g.add(k0, Addr { node: idx as u64, port: 0 }, Ghost(all.take(c)), Ghost(keyf));
            let w1 = node.p1.0;
            let k1 = match self.aliases.get(w1) {
                Some(x) => x,
                None => w1,
            };
            proof {
                lemma_port_list_step(n as nat, c + 1);
            }
            g.add(k1, Addr { node: idx as u64, port: 1 }, Ghost(all.take(c + 1)), Ghost(keyf));
            let w2 = node.p2.0;
            let k2 = match self.aliases.get(w2) {
                Some(x) => x,
                None => w2,
            };
            proof {
                lemma_port_list_step(n as nat, c + 2);
            }
            g.add(k2, Addr { node: idx as u64, port: 2 }, Ghost(all.take(c + 2)), Ghost(keyf));
            idx = idx + 1;
        }
        proof {
            assert(all.take(3 * n) =~= all);
            let h = port_groups(self@.nodes, self@.aliases);
            assert(is_grouping(h, all, keyf));
            lemma_grouping_unique(g@, h, all, keyf);
        }
        g
    }

    /// Turns the groups into links, in key order (see `layout_iter`); adds the
    /// erasers it creates to the nodes. Stops at a group of more than two ports.
    pub fn lay_out(&mut self, groups: &PortGroups, root: u64) -> (r: (LaidOut, Option<CloseError>))
        requires
            groups.wf(),
            members_valid(groups@, old(self)@.nodes.len()),
        ensures
            layout_iter(groups@, root, initial_layout(old(self)@.nodes), groups@.len()) == (
            Layout { mem: r.0.mem@, redex: r.0.redex@, nodes: final(self)@.nodes, root: r.0.root },
            r.1),
            final(self)@ == (Model { nodes: final(self)@.nodes, ..old(self)@ }),
            final(self).aliases == old(self).aliases,
            final(self).vars == old(self).vars,
            final(self).label_map == old(self).label_map,
            r.0.mem@.len() == final(self)@.nodes.len(),
            final(self)@.nodes.len() >= old(self)@.nodes.len(),
            r.0.root matches Some(a) ==> a.node < old(self)@.nodes.len() && a.port <= 2,
            (r.1 is Some) == crowded_upto(groups@, groups@.len() as int),
            r.1 is None ==> final(self)@.nodes.len() == old(self)@.nodes.len() + eraser_count(groups@, root, groups@.len()),
    {
        let n0 = self.node_data.len();
        let ghost g = groups@;
        let ghost l0 = initial_layout(self@.nodes);
        let mut mem: Vec<(Port, Port)> = Vec::new();
        let mut i: usize = 0;
        while i < n0
            invariant
                i <= n0,
                mem@ =~= Seq::new(i as nat, |k: int| (Port::blank(), Port::blank())),
            decreases n0 - i,
        {
            mem.push((Port::default(), Port::default()));
            i = i + 1;
        }
        let mut redex: Vec<(Port, Port)> = Vec::new();
        let mut root_addr: Option<Addr> = None;
        let glen = groups.len();
        let mut j: usize = 0;
        assert(layout_iter(g, root, l0, 0) == (l0, None::<CloseError>));
        while j < glen
            invariant
                groups.wf(),
                g == groups@,
                glen == g.len(),
                j <= glen,
                l0 == initial_layout(old(self)@.nodes),
                n0 == old(self)@.nodes.len(),
                members_valid(g, n0 as nat),
                mem@.len() == self.node_data@.len(),
                n0 <= mem@.len(),
                self@ == (Model { nodes: self@.nodes, ..old(self)@ }),
                self.aliases == old(self).aliases,
                self.vars == old(self).vars,
                self.label_map == old(self).label_map,
                root_addr matches Some(a) ==> a.node < n0 && a.port <= 2,
                !crowded_upto(g, j as int),
                self.node_data@.len() == n0 + eraser_count(g, root, j as nat),
                layout_iter(g, root, l0, j as nat) == (
                Layout { mem: mem@, redex: redex@, nodes: self@.nodes, root: root_addr },
                None::<CloseError>),
            decreases glen - j,
        {
            let key = groups.key_at(j);
            let members = groups.members_at(j);
            let len = members.len();
            if len == 1 {
                assert(members@[0].node < n0 && members@[0].port <= 2);
                if key == root {
                    root_addr = Some(members[0]);
                } else {
                    let e = mem.len() as u64;
                    self.node_data.push(
                        NodeData {
                            primary: true,
                            vanilla: true,
                            lazy: false,
                            label: 0xFF,
                            p0: WireId(u64::MAX),
                            p1: WireId(u64::MAX),
                            p2: WireId(u64::MAX),
                        },
                    );
                    let blank = Port::default();
                    mem.push(
                        (
                            Port { target: Addr { node: e, port: 2 }, is_vanilla: true, ..blank },
                            Port { target: Addr { node: e, port: 1 }, is_vanilla: true, ..blank },
                        ),
                    );
                    link_ports(members[0], Addr { node: e, port: 0 }, &mut mem, &mut redex, &self.node_data);
                }
            } else if len == 2 {
                assert(members@[0].node < n0 && members@[1].node < n0);
                link_ports(members[0], members[1], &mut mem, &mut redex, &self.node_data);
            } else if len > 2 {
                proof {
                    lemma_layout_stable(g, root, l0, (j + 1) as nat, glen as nat);
                    assert(g[j as int].1.len() > 2);
                    assert(crowded_upto(g, glen as int));
                }
                return (LaidOut { mem, redex, root: root_addr }, Some(CloseError::TooManyEndpoints));
            }
            proof {
                assert(!crowded_upto(g, j + 1)) by {
                    if crowded_upto(g, j + 1) {
                        let t = choose|t: int| 0 <= t < j + 1 && (#[trigger] g[t]).1.len() > 2;
                        assert(t != j);
                    }
                }
            }
            j = j + 1;
        }
        (LaidOut { mem, redex, root: root_addr }, None)
    }

    /// Connects, for each variable in name order that has both, the wire of
    /// its first binder to the wire of its first use (see `link_vars`);
    /// false when a use's chain of aliases never ends.
    pub fn link_vars(&mut self) -> (r: bool)
        requires
            old(self).aliases.wf(),
        ensures
            final(self).aliases.wf(),
            (final(self)@.aliases, r) == link_vars(old(self)@.aliases, old(self)@.vars, old(self)@.vars.len()),
            final(self)@ == (Model { aliases: final(self)@.aliases, ..old(self)@ }),
            final(self).vars == old(self).vars,
            final(self).label_map == old(self).label_map,
            final(self).node_data == old(self).node_data,
    {
        let n = self.vars.len();
        let mut i: usize = 0;
        while i < n
            invariant
                self.aliases.wf(),
                i <= n,
                n == old(self)@.vars.len(),
                self.vars == old(self).vars,
                self.label_map == old(self).label_map,
                self.node_data == old(self).node_data,
                self@ == (Model { aliases: self@.aliases, ..old(self)@ }),
                (self@.aliases, true) == link_vars(old(self)@.aliases, old(self)@.vars, i as nat),
            decreases n - i,
        {
            let d = self.vars.value_at(i);
            if let Some(b) = d.to_binder {
                if let Some(u) = d.to_user {
                    if !self.aliases.chain_ends(u.0) {
                        proof {
                            lemma_link_vars_stable(old(self)@.aliases, old(self)@.vars, (i + 1) as nat, n as nat);
                        }
                        return false;
                    }
                    self.connect(&b, &u);
                }
            }
            i = i + 1;
        }
        true
    }

    /// Closes the net whose root is wire `root` (see `close_result`): links
    /// the variables, groups the ports, lays out memory (adding erasers to
    /// the nodes) and encodes the image. On failure gives what was written
    /// before it.
    #[verifier::spinoff_prover]
    pub fn close(&mut self, root: WireId) -> (r: Result<Vec<u8>, CloseFailure>)
        requires
            old(self).wf(),
        ensures
            final(self)@ == close_result(old(self)@, root.0).0,
            match r {
                Ok(bytes) => bytes@ == close_result(old(self)@, root.0).1 && close_result(old(self)@, root.0).2 is None,
                Err(f) => f.written@ == close_result(old(self)@, root.0).1 && close_result(old(self)@, root.0).2
                    == Some(f.error),
            },
            (r matches Err(f) && f.error == CloseError::CyclicAlias) <==> !linked(old(self)@).1,
            (r matches Err(f) && f.error == CloseError::TooManyEndpoints) <==> linked(old(self)@).1 && crowded_upto(
                close_groups(old(self)@),
                close_groups(old(self)@).len() as int,
            ),
            (r matches Err(f) && f.error == CloseError::NoRoot) <==> linked(old(self)@).1 && !crowded_upto(
                close_groups(old(self)@),
                close_groups(old(self)@).len() as int,
            ) && !rooted_upto(close_groups(old(self)@), root.0, close_groups(old(self)@).len() as int),
            r matches Err(f) ==> f.error == CloseError::Overflow || f.written@.len() == 0,
            r matches Ok(bytes) ==> ({
                let g = close_groups(old(self)@);
                let e = eraser_count(g, root.0, g.len());
                let ps = active_pairs(g, root.0, old(self)@.nodes, g.len());
                let n = old(self)@.nodes.len() + e;
                let ra = root_member(g, root.0);
                &&& final(self)@ == (Model {
                    nodes: old(self)@.nodes + Seq::new(e, |k: int| eraser()),
                    aliases: linked(old(self)@).0,
                    ..old(self)@
                })
                &&& rooted_upto(g, root.0, g.len() as int)
                &&& bytes@.len() == 8 * (2 + 2 * n + 6 * ps.len())
                &&& bytes@.subrange(0, 8) == le_bytes(root_word(old(self)@.nodes, ra) as u64)
                &&& bytes@.subrange(8, 16) == le_bytes(if ps.len() == 0 { 0 } else { (16 * n + 48 * ps.len() - 8) as u64 })
                &&& forall|k: int|
                    0 <= k < ps.len() ==> bytes@.subrange(16 + 16 * n + 48 * k, 16 + 16 * n + 48 * k + 48) == words_bytes(
                        #[trigger] pair_words(ps[k], n, k as nat, ps.len()),
                    )
                &&& ra.port != 0 ==> ({
                    let off = 16 * ra.node + 8 * (ra.port - 1);
                    bytes@.subrange(16 + off, 24 + off) == le_bytes(wsub(wsub(0, off as u64), 14))
                })
                &&& forall|t: int|
                    0 <= t < g.len() && prin_aux(#[trigger] g[t]) ==> {
                        let p = pa_prin(g[t]);
                        let a = pa_aux(g[t]);
                        let nd = old(self)@.nodes[p.node as int];
                        let oa = 16 * a.node + 8 * (a.port - 1);
                        bytes@.subrange(16 + oa, 24 + oa) == le_bytes(
                            wsub(
                                (Port {
                                    is_primary: nd.primary,
                                    is_vanilla: nd.vanilla,
                                    is_lazy: nd.lazy,
                                    target: p,
                                    label: nd.label,
                                }).bits_sum() as u64,
                                oa as u64,
                            ),
                        )
                    }
                &&& forall|t: int|
                    0 <= t < g.len() && aux_linked(#[trigger] g[t]) ==> {
                        let u = g[t].1[0];
                        let v = g[t].1[1];
                        let ou = 16 * u.node + 8 * (u.port - 1);
                        let ov = 16 * v.node + 8 * (v.port - 1);
                        &&& bytes@.subrange(16 + ou, 24 + ou) == le_bytes(wsub(aux_port(v).bits_sum() as u64, ou as u64))
                        &&& bytes@.subrange(16 + ov, 24 + ov) == le_bytes(wsub(aux_port(u).bits_sum() as u64, ov as u64))
                    }
            }),
    {
        let ghost m = self@;
        if !self.link_vars() {
            return Err(CloseFailure { written: Vec::new(), error: CloseError::CyclicAlias });
        }
        let ghost m1 = self@;
        let groups = self.group_ports();
        proof {
            lemma_grouping_members_valid(groups@, m1.nodes.len(), key_fn(m1.nodes, m1.aliases));
        }
        let ghost g = groups@;
        assert(g == close_groups(m));
        let (image, err) = self.lay_out(&groups, root.0);
        if let Some(e) = err {
            proof {
                lemma_layout_error(g, root.0, initial_layout(m.nodes), g.len());
            }
            return Err(CloseFailure { written: Vec::new(), error: e });
        }
        let nl = self.node_data.len();
        proof {
            lemma_layout_shape(g, root.0, m.nodes, g.len());
        }
        match image.root {
            None => Err(CloseFailure { written: Vec::new(), error: CloseError::NoRoot }),
            Some(ra) => {
                let (bytes, done) = encode(&image, &self.node_data, ra);
                proof {
                    let l = Layout { mem: image.mem@, redex: image.redex@, nodes: self@.nodes, root: Some(ra) };
                    lemma_image_size(l, ra);
                    if done {
                        let j = choose|j: int|
                            0 <= j < g.len() && (#[trigger] g[j]).0 == root.0 && g[j].1.len() == 1 && ra == g[j].1[0];
                        lemma_root_member(g, root.0, j);
                        lemma_image_header(l, ra);
                        assert(l.nodes[ra.node as int] == m.nodes[ra.node as int]);
                        assert(root_port(l, ra).bits_sum() + 16 == root_word(m.nodes, ra));
                        if l.redex.len() > 0 {
                            assert(redex_word(l.mem.len(), l.redex.len()) == Some(
                                (l.mem.len() * 16 + l.redex.len() * 48 - 8) as u64,
                            ));
                        }
                        let keyf = key_fn(m1.nodes, m1.aliases);
                        lemma_layout_slots(g, root.0, m.nodes, keyf, g.len());
                        lemma_layout_slots_pa(g, root.0, m.nodes, keyf, g.len());
                        if ra.port != 0 {
                            lemma_layout_root_slot(g, root.0, m.nodes, keyf, g.len(), j);
                            lemma_image_root_slot(l, ra);
                            assert((0u64 << 4u64) == 0u64 && (0u64 << 48u64) == 0u64) by (bit_vector);
                            assert(Port::blank().bits_sum() == 0);
                        }
                        assert forall|t: int| 0 <= t < g.len() && prin_aux(#[trigger] g[t]) implies ({
                            let p = pa_prin(g[t]);
                            let a = pa_aux(g[t]);
                            let nd = m.nodes[p.node as int];
                            let oa = 16 * a.node + 8 * (a.port - 1);
                            bytes@.subrange(16 + oa, 24 + oa) == le_bytes(
                                wsub(
                                    (Port {
                                        is_primary: nd.primary,
                                        is_vanilla: nd.vanilla,
                                        is_lazy: nd.lazy,
                                        target: p,
                                        label: nd.label,
                                    }).bits_sum() as u64,
                                    oa as u64,
                                ),
                            )
                        }) by {
                            let u = g[t].1[0];
                            let v = g[t].1[1];
                            assert(u.node < m.nodes.len() && u.port <= 2);
                            assert(v.node < m.nodes.len() && v.port <= 2);
                            assert(keyf(u) == g[t].0 && keyf(v) == g[t].0);
                            assert(keyf(ra) == g[j].0);
                            assert(t != j);
                            if t < j {
                                assert(g[t].0 < g[j].0);
                            } else {
                                assert(g[j].0 < g[t].0);
                            }
                            lemma_image_slot(l, ra, pa_aux(g[t]));
                        }
                        assert forall|t: int| 0 <= t < g.len() && aux_linked(#[trigger] g[t]) implies ({
                            let u = g[t].1[0];
                            let v = g[t].1[1];
                            let ou = 16 * u.node + 8 * (u.port - 1);
                            let ov = 16 * v.node + 8 * (v.port - 1);
                            &&& bytes@.subrange(16 + ou, 24 + ou) == le_bytes(wsub(aux_port(v).bits_sum() as u64, ou as u64))
                            &&& bytes@.subrange(16 + ov, 24 + ov) == le_bytes(wsub(aux_port(u).bits_sum() as u64, ov as u64))
                        }) by {
                            let u = g[t].1[0];
                            let v = g[t].1[1];
                            assert(u.node < m.nodes.len() && u.port <= 2);
                            assert(v.node < m.nodes.len() && v.port <= 2);
                            assert(keyf(u) == g[t].0 && keyf(v) == g[t].0);
                            assert(keyf(ra) == g[j].0);
                            assert(t != j);
                            if t < j {
                                assert(g[t].0 < g[j].0);
                            } else {
                                assert(g[j].0 < g[t].0);
                            }
                            lemma_image_slot(l, ra, u);
                            lemma_image_slot(l, ra, v);
                        }
                        assert forall|k: int| 0 <= k < l.redex.len() implies bytes@.subrange(
                            16 + 16 * l.mem.len() + 48 * k,
                            16 + 16 * l.mem.len() + 48 * k + 48,
                        ) == words_bytes(#[trigger] pair_words(l.redex[k], l.mem.len(), k as nat, l.redex.len())) by {
                            lemma_image_pairs(l, ra, k);
                        }
                    }
                }
                if done {
                    Ok(bytes)
                } else {
                    Err(CloseFailure { written: bytes, error: CloseError::Overflow })
                }
            },
        }
    }
}

} // verus!