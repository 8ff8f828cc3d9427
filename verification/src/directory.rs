//! Who is out there, and how to build a path through them.
//!
//! Mixes sit in layers and a route takes one node from each, then ends at the recipient's
//! provider, which is named rather than drawn. Layers cap what any one node can be on a path
//! and guarantee a fixed number of mixing stages however selection goes. Selection within a
//! layer is uniform. Each hop's delay is drawn by the caller and truncated at what a node will
//! hold, since the alternative is a packet a node refuses.
use vstd::prelude::*;
use crate::chance::pick_index;
use crate::node::MAX_DELAY_MS;

verus! {

broadcast use vstd::std_specs::vec::group_vec_axioms;

#[derive(Debug, Clone, Copy, PartialEq, Eq)]
pub enum RouteError {
    /// A layer has no nodes, so no path exists.
    EmptyLayer,
    /// More layers than a packet header holds.
    TooManyLayers,
    NoSuchNode,
}

/// What a route needs to know of a node.
#[derive(Debug, Clone, Copy, PartialEq, Eq)]
pub struct NodeEntry {
    pub id: u16,
    /// The node's mixing key.
    pub mix_public: [u8; 32],
    /// Which mixing stage this node serves. Providers sit in the last layer.
    pub layer: u8,
}

/// One hop of a route.
#[derive(Debug, Clone, Copy, PartialEq, Eq)]
pub struct RouteHop {
    pub id: u16,
    pub mix_public: [u8; 32],
    pub delay_ms: u32,
}

/// The first node listed under `id`, if any.
pub open spec fn lookup(nodes: Seq<NodeEntry>, id: u16) -> Option<NodeEntry>
    decreases nodes.len(),
{
    if nodes.len() == 0 {
        None
    } else {
        match lookup(nodes.drop_last(), id) {
            Some(n) => Some(n),
            None => if nodes.last().id == id {
                Some(nodes.last())
            } else {
                None
            },
        }
    }
}

/// Whether some node serves `layer`.
pub open spec fn layer_served(nodes: Seq<NodeEntry>, layer: int) -> bool {
    exists|i: int| 0 <= i < nodes.len() && #[trigger] nodes[i].layer == layer
}

/// Whether `hop` is a node listed as serving `layer`.
pub open spec fn served_by(nodes: Seq<NodeEntry>, hop: RouteHop, layer: int) -> bool {
    exists|k: int|
        0 <= k < nodes.len() && #[trigger] nodes[k].layer == layer && nodes[k].id == hop.id
            && nodes[k].mix_public == hop.mix_public
}

/// A drawn delay truncated at what a node will hold.
pub open spec fn held_delay(raw: u64) -> u32 {
    if raw < MAX_DELAY_MS {
        raw as u32
    } else {
        MAX_DELAY_MS
    }
}

/// What routing to `terminal` yields when it fails, or `None` when a route exists.
pub open spec fn route_error(nodes: Seq<NodeEntry>, terminal: u16, max_hops: usize) -> Option<RouteError> {
    match lookup(nodes, terminal) {
        None => Some(RouteError::NoSuchNode),
        Some(t) => if t.layer + 1 > max_hops {
            Some(RouteError::TooManyLayers)
        } else if exists|l: int| 0 <= l < t.layer && !layer_served(nodes, l) {
            Some(RouteError::EmptyLayer)
        } else {
            None
        },
    }
}

/// Every node the directory lists.
pub struct Directory {
    nodes: Vec<NodeEntry>,
}

impl View for Directory {
    type V = Seq<NodeEntry>;

    closed spec fn view(&self) -> Seq<NodeEntry> {
        self.nodes@
    }
}

impl Directory {
    pub fn new() -> (d: Self)
        ensures
            d@ == Seq::<NodeEntry>::empty(),
    {
        Directory { nodes: Vec::new() }
    }

    pub fn add(&mut self, info: NodeEntry)
        ensures
            final(self)@ == old(self)@.push(info),
    {
        self.nodes.push(info);
    }

    pub fn nodes(&self) -> (s: &[NodeEntry])
        ensures
            s@ == self@,
    {
        self.nodes.as_slice()
    }

    /// The first node listed under `id`.
    pub fn get(&self, id: u16) -> (r: Option<&NodeEntry>)
        ensures
            match r {
                Some(n) => lookup(self@, id) == Some(*n),
                None => lookup(self@, id) is None,
            },
    {
        let mut i: usize = 0;
        while i < self.nodes.len()
            invariant
                i <= self.nodes@.len(),
                lookup(self.nodes@.take(i as int), id) is None,
            decreases self.nodes@.len() - i,
        {
            assert(self.nodes@.take(i + 1).drop_last() == self.nodes@.take(i as int));
            if self.nodes[i].id == id {
                proof {
                    lemma_lookup_extends(self.nodes@, (i + 1) as int, id);
                }
                return Some(&self.nodes[i]);
            }
            i += 1;
        }
        assert(self.nodes@.take(i as int) == self.nodes@);
        None
    }

    /// How many layers there are: one more than the highest layer served, or none.
    pub fn layers(&self) -> (n: u16)
        ensures
            n == 0 <==> self@.len() == 0,
            forall|i: int| 0 <= i < self@.len() ==> #[trigger] self@[i].layer < n,
            n > 0 ==> exists|i: int| 0 <= i < self@.len() && #[trigger] self@[i].layer == n - 1,
    {
        let mut n: u16 = 0;
        let mut i: usize = 0;
        while i < self.nodes.len()
            invariant
                i <= self.nodes@.len(),
                n == 0 <==> i == 0,
                n <= 256,
                forall|k: int| 0 <= k < i ==> #[trigger] self.nodes@[k].layer < n,
                n > 0 ==> exists|k: int| 0 <= k < i && #[trigger] self.nodes@[k].layer == n - 1,
            decreases self.nodes@.len() - i,
        {
            let l = self.nodes[i].layer as u16 + 1;
            if l > n {
                n = l;
            }
            i += 1;
        }
        n
    }

    /// The nodes serving `layer`, in the order listed.
    fn in_layer(&self, layer: u8) -> (v: Vec<NodeEntry>)
        ensures
            forall|k: int| 0 <= k < v@.len() ==> #[trigger] v@[k].layer == layer && self@.contains(v@[k]),
            v@.len() == 0 <==> !layer_served(self@, layer as int),
    {
        let mut v: Vec<NodeEntry> = Vec::new();
        let mut i: usize = 0;
        while i < self.nodes.len()
            invariant
                i <= self.nodes@.len(),
                forall|k: int| 0 <= k < v@.len() ==> #[trigger] v@[k].layer == layer && self.nodes@.contains(v@[k]),
                v@.len() == 0 <==> !(exists|k: int| 0 <= k < i && #[trigger] self.nodes@[k].layer == layer),
            decreases self.nodes@.len() - i,
        {
            if self.nodes[i].layer == layer {
                v.push(self.nodes[i]);
                assert(self.nodes@[i as int] == v@[v@.len() - 1]);
            }
            i += 1;
        }
        v
    }

    /// A path through every mixing layer, ending at `terminal`: one node drawn uniformly from
    /// each layer below the terminal's, then the terminal itself. `max_hops` is the most a
    /// packet header holds; `raw_delays[i]` is the delay drawn for hop `i`, truncated at
    /// `MAX_DELAY_MS`.
    pub fn route_to(
        &self,
        terminal: u16,
        max_hops: usize,
        g: &mut rand::rngs::StdRng,
        raw_delays: &[u64],
    ) -> (r: Result<Vec<RouteHop>, RouteError>)
        requires
            raw_delays.len() >= max_hops,
        ensures
            match route_error(self@, terminal, max_hops) {
                Some(e) => r == Err::<Vec<RouteHop>, RouteError>(e),
                None => r is Ok && {
                    let hops = r.unwrap()@;
                    let t = lookup(self@, terminal)->0;
                    &&& hops.len() == t.layer + 1
                    &&& forall|i: int| 0 <= i < t.layer ==> #[trigger] served_by(self@, hops[i], i)
                    &&& hops[t.layer as int].id == t.id
                    &&& hops[t.layer as int].mix_public == t.mix_public
                    &&& forall|i: int|
                        0 <= i < hops.len() ==> #[trigger] hops[i].delay_ms == held_delay(
                            raw_delays@[i],
                        )
                },
            },
    {
        let t = match self.get(terminal) {
            None => {
                return Err(RouteError::NoSuchNode);
            },
            Some(t) => *t,
        };
        let mixing_layers = t.layer;
        if mixing_layers as usize + 1 > max_hops {
            return Err(RouteError::TooManyLayers);
        }
        let mut hops: Vec<RouteHop> = Vec::new();
        let mut layer: u8 = 0;
        while layer < mixing_layers
            invariant
                lookup(self@, terminal) == Some(t),
                t.layer == mixing_layers,
                layer <= mixing_layers,
                mixing_layers as usize + 1 <= max_hops,
                raw_delays.len() >= max_hops,
                hops@.len() == layer,
                forall|l: int| 0 <= l < layer ==> layer_served(self@, l),
                forall|i: int| 0 <= i < layer ==> #[trigger] served_by(self@, hops@[i], i),
                forall|i: int| 0 <= i < layer ==> #[trigger] hops@[i].delay_ms == held_delay(raw_delays@[i]),
            decreases mixing_layers - layer,
        {
            let candidates = self.in_layer(layer);
            if candidates.len() == 0 {
                assert(!layer_served(self@, layer as int));
                return Err(RouteError::EmptyLayer);
            }
            let idx = pick_index(g, candidates.len());
            let pick = candidates[idx];
            assert(candidates@[idx as int] == pick);
            assert(candidates@[idx as int].layer == layer);
            assert(self@.contains(pick));
            let raw = raw_delays[layer as usize];
            let delay_ms: u32 = if raw < MAX_DELAY_MS as u64 {
                raw as u32
            } else {
                MAX_DELAY_MS
            };
            let ghost before = hops@;
            hops.push(RouteHop { id: pick.id, mix_public: pick.mix_public, delay_ms });
            proof {
                let k = choose|k: int| 0 <= k < self@.len() && self@[k] == pick;
                assert(self@[k].layer == layer);
                assert forall|i: int| 0 <= i < layer + 1 implies #[trigger] served_by(self@, hops@[i], i) by {
                    if i < layer {
                        assert(hops@[i] == before[i]);
                        assert(served_by(self@, before[i], i));
                    } else {
                        assert(self@[k].layer == i);
                    }
                }
            }
            layer += 1;
        }
        let raw = raw_delays[mixing_layers as usize];
        let delay_ms: u32 = if raw < MAX_DELAY_MS as u64 {
            raw as u32
        } else {
            MAX_DELAY_MS
        };
        hops.push(RouteHop { id: t.id, mix_public: t.mix_public, delay_ms });
        Ok(hops)
    }
}

proof fn lemma_lookup_extends(nodes: Seq<NodeEntry>, n: int, id: u16)
    requires
        0 < n <= nodes.len(),
        lookup(nodes.take(n - 1), id) is None,
        nodes[n - 1].id == id,
    ensures
        lookup(nodes, id) == Some(nodes[n - 1]),
    decreases nodes.len(),
{
    assert(nodes.take(n).drop_last() == nodes.take(n - 1));
    assert(lookup(nodes.take(n), id) == Some(nodes[n - 1]));
    if n < nodes.len() {
        assert(nodes.drop_last().take(n) == nodes.take(n));
        assert(nodes.drop_last().take(n - 1) == nodes.take(n - 1));
        lemma_lookup_extends(nodes.drop_last(), n, id);
    } else {
        assert(nodes.take(n) == nodes);
    }
}

/// A route never asks a node to hold a packet longer than a node will.
pub proof fn law_no_hop_asks_for_longer_than_a_node_will_hold(raw: u64)
    ensures
        held_delay(raw) <= MAX_DELAY_MS,
        raw <= MAX_DELAY_MS ==> held_delay(raw) == raw,
{
}

} // verus!
