//! The nets of a schematic: the graph of wire segments, its edits and its
//! queries.

use crate::edge::NetEdge;
use crate::geometry::{axis_aligned, SSBox, SSPoint, SSTransform};
use crate::graph::{
    edge_key, graph_add_edge, graph_all_edges, graph_clear, graph_edge_list, graph_edges,
    graph_new, graph_node_keys, graph_node_list, graph_nodes, graph_ok, graph_remove_edge,
    lemma_edge_key, lemma_empty_lists, lemma_table_of_list, Coord, EdgeKey, WireGraph,
};
use crate::labels::LabelManager;
use crate::prune::{prune_graph, pruned_from};
use crate::relabel::names_safe;
use crate::seqs::{lemma_filter_prefix, lemma_filter_step};
use crate::vertex::NetVertex;
use crate::wiring::{edge_fits, lemma_fit_geometry, named_edge, plain_edge, wiring_of, Wiring};
use vstd::prelude::*;

verus! {

/// The name of a net as it is shown on the schematic.
#[derive(Clone, Debug, PartialEq, Eq)]
pub struct SchematicNetLabel {
    label: String,
}

impl SchematicNetLabel {
    /// The text of the name.
    pub closed spec fn text(&self) -> Seq<char> {
        self.label@
    }
}

impl Default for SchematicNetLabel {
    /// The empty name.
    fn default() -> (r: SchematicNetLabel)
        ensures
            r.text() == Seq::<char>::empty(),
    {
        SchematicNetLabel { label: String::new() }
    }
}

/// The wire graph of a schematic and the names of its nets.
#[derive(Debug, Clone)]
pub struct Nets {
    pub graph: Box<WireGraph>,
    label_manager: LabelManager,
}

impl Default for Nets {
    /// Nets without wires and without names.
    fn default() -> (n: Nets)
        ensures
            n.wf(),
            n.edges() == Map::<EdgeKey, NetEdge>::empty(),
            n.nodes() == Set::<Coord>::empty(),
            n.names().registered() == Set::<Seq<char>>::empty(),
            n.names().watermark() == 0,
            n.names().floating_watermark() == 0,
    {
        Nets::new()
    }
}

/// How `route` connects `src` and `dst`: not at all if they are the same
/// point, with one segment if they share a grid line, and else with two
/// segments that meet in the corner `(src.x, dst.y)`.
pub open spec fn routed(
    edges: Map<EdgeKey, NetEdge>,
    src: SSPoint,
    dst: SSPoint,
) -> Map<EdgeKey, NetEdge> {
    let corner = SSPoint { x: src.x, y: dst.y };
    if src == dst {
        edges
    } else if axis_aligned(src, dst) {
        edges.insert(edge_key(src.key(), dst.key()), plain_edge(src, dst))
    } else {
        edges.insert(edge_key(src.key(), corner.key()), plain_edge(src, corner)).insert(
            edge_key(corner.key(), dst.key()),
            plain_edge(corner, dst),
        )
    }
}

/// The nodes after `route` has connected `src` and `dst`.
pub open spec fn routed_nodes(nodes: Set<Coord>, src: SSPoint, dst: SSPoint) -> Set<Coord> {
    let corner = SSPoint { x: src.x, y: dst.y };
    if src == dst {
        nodes
    } else if axis_aligned(src, dst) {
        nodes.insert(src.key()).insert(dst.key())
    } else {
        nodes.insert(src.key()).insert(corner.key()).insert(dst.key())
    }
}

/// The segment `e` after `sst` has moved it.
pub open spec fn moved_edge(e: NetEdge, sst: SSTransform) -> NetEdge {
    named_edge(sst.image(e.src), sst.image(e.dst), e.label)
}

impl Nets {
    /// The graph of wires.
    pub closed spec fn wires(&self) -> WireGraph {
        *self.graph
    }

    /// The edges, by key.
    pub open spec fn edges(&self) -> Map<EdgeKey, NetEdge> {
        graph_edges(self.wires())
    }

    /// The nodes.
    pub open spec fn nodes(&self) -> Set<Coord> {
        graph_nodes(self.wires())
    }

    /// The segments in the order in which the graph hands them out.
    pub open spec fn edge_seq(&self) -> Seq<NetEdge> {
        graph_edge_list(self.wires()).map_values(|t: (Coord, Coord, NetEdge)| t.2)
    }

    /// The nodes in the order in which the graph hands them out.
    pub open spec fn node_seq(&self) -> Seq<SSPoint> {
        graph_node_list(self.wires()).map_values(|t: (Coord, Seq<Coord>)| SSPoint::at(t.0))
    }

    /// The state of the name registry.
    pub closed spec fn names(&self) -> LabelManager {
        self.label_manager
    }

    /// The nodes and segments.
    pub open spec fn wiring(&self) -> Wiring {
        wiring_of(self.wires())
    }

    /// The graph is sound, every edge is a proper segment kept under the key
    /// of its two ends, and the name registry is sound.
    pub open spec fn wf(&self) -> bool {
        &&& graph_ok(self.wires())
        &&& self.wiring().wf()
        &&& self.names().wf()
    }

    /// No segment carries a name that the registry does not hold but could
    /// still give out.
    pub open spec fn names_known(&self) -> bool {
        names_safe(self.edges(), self.names())
    }

    /// The segments whose bounds hold `p`, in the graph's order.
    pub open spec fn hits(&self, p: SSPoint) -> Seq<NetEdge> {
        self.edge_seq().filter(|e: NetEdge| e.interactable.bounds.covers(p))
    }

    /// The segments whose bounds overlap `b`, in the graph's order.
    pub open spec fn overlapping(&self, b: SSBox) -> Seq<NetEdge> {
        self.edge_seq().filter(|e: NetEdge| e.interactable.bounds.overlaps(b))
    }

    /// The nodes, in the order in which the graph hands them out.
    pub fn vertices(&self) -> (r: Vec<NetVertex>)
        ensures
            r@.len() == self.node_seq().len(),
            forall|i: int| 0 <= i < r@.len() ==> (#[trigger] r@[i]).0 == self.node_seq()[i],
    {
        let keys = graph_node_keys(&self.graph);
        let mut r: Vec<NetVertex> = Vec::new();
        let mut i: usize = 0;
        while i < keys.len()
            invariant
                i <= keys.len(),
                keys@ == graph_node_list(self.wires()).map_values(|e: (Coord, Seq<Coord>)| e.0),
                r@.len() == i,
                forall|j: int| 0 <= j < i ==> (#[trigger] r@[j]).0 == self.node_seq()[j],
            decreases keys.len() - i,
        {
            proof {
                let nl = graph_node_list(self.wires());
                assert(keys@[i as int] == nl[i as int].0);
            }
            r.push(NetVertex::from_key(keys[i]));
            i += 1;
        }
        r
    }

    /// The segments, in the order in which the graph hands them out.
    pub fn segments(&self) -> (r: Vec<NetEdge>)
        ensures
            r@ == self.edge_seq(),
    {
        let all = graph_all_edges(&self.graph);
        let mut r: Vec<NetEdge> = Vec::new();
        let mut i: usize = 0;
        while i < all.len()
            invariant
                i <= all.len(),
                all@ == graph_edge_list(self.wires()),
                r@ == self.edge_seq().take(i as int),
            decreases all.len() - i,
        {
            r.push(all[i].2.clone());
            proof {
                assert(r@ =~= self.edge_seq().take(i as int + 1));
            }
            i += 1;
        }
        proof {
            assert(self.edge_seq().take(all@.len() as int) =~= self.edge_seq());
        }
        r
    }

    /// Nets without wires and without names.
    pub fn new() -> (n: Nets)
        ensures
            n.wf(),
            n.edges() == Map::<EdgeKey, NetEdge>::empty(),
            n.nodes() == Set::<Coord>::empty(),
            n.names().registered() == Set::<Seq<char>>::empty(),
            n.names().watermark() == 0,
            n.names().floating_watermark() == 0,
    {
        proof {
            lemma_empty_lists();
        }
        Nets { graph: Box::new(graph_new()), label_manager: LabelManager::new() }
    }

    /// The segment that a click at `curpos_ssp` selects when `skip` hits are
    /// to be passed over. `count` is the number of hits passed over so far,
    /// here and in whatever was searched before: the segment returned is
    /// hit number `skip - count` in the graph's order, and `count` is `skip`
    /// then. Where the hits do not reach that far, or `count` is past `skip`
    /// already, every hit is counted and nothing returned.
    pub fn selectable(&mut self, curpos_ssp: SSPoint, skip: usize, count: &mut usize) -> (r: Option<
        NetEdge,
    >)
        requires
            *old(count) > skip ==> *old(count) + old(self).edge_seq().len() <= usize::MAX,
        ensures
            *final(self) == *old(self),
            *old(count) <= skip && skip - *old(count) < old(self).hits(curpos_ssp).len() ==> r
                == Some(old(self).hits(curpos_ssp)[skip - *old(count)]) && *final(count) == skip,
            !(*old(count) <= skip && skip - *old(count) < old(self).hits(curpos_ssp).len())
                ==> r.is_none() && *final(count) == *old(count) + old(self).hits(curpos_ssp).len(),
    {
        let all = graph_all_edges(&self.graph);
        let ghost es = self.edge_seq();
        let ghost pred = |e: NetEdge| e.interactable.bounds.covers(curpos_ssp);
        let mut i: usize = 0;
        proof {
            assert(es.take(0).filter(pred) =~= Seq::<NetEdge>::empty()) by {
                reveal(Seq::filter);
            }
        }
        while i < all.len()
            invariant
                i <= all.len(),
                all@ == graph_edge_list(*self.graph),
                es == self.edge_seq(),
                pred == |e: NetEdge| e.interactable.bounds.covers(curpos_ssp),
                *count == *old(count) + es.take(i as int).filter(pred).len(),
                *old(count) <= skip ==> *count <= skip && skip - *old(count) >= es.take(
                    i as int,
                ).filter(pred).len(),
                *old(count) > skip ==> *old(count) + es.len() <= usize::MAX,
                es.take(i as int).filter(pred).len() <= i,
                *self == *old(self),
            decreases all.len() - i,
        {
            proof {
                lemma_filter_step(es, pred, i as int);
                assert(es[i as int] == all@[i as int].2);
            }
            if all[i].2.interactable.contains_ssp(curpos_ssp) {
                if *count == skip {
                    let found = all[i].2.clone();
                    proof {
                        let n = skip - *old(count);
                        let upto = es.take(i as int + 1).filter(pred);
                        assert(upto[n] == es[i as int]);
                        lemma_filter_prefix(es, pred, i as int + 1);
                        assert(es.filter(pred)[n] == upto[n]);
                    }
                    return Some(found);
                } else {
                    *count = *count + 1;
                }
            }
            i += 1;
        }
        proof {
            assert(es.take(es.len() as int) =~= es);
        }
        None
    }

    /// The tightest box around all nodes; the zero box if there are none.
    pub fn bounding_box(&self) -> (b: SSBox)
        ensures
            self.node_seq().len() == 0 ==> b == SSBox::zero(),
            self.node_seq().len() > 0 ==> b.is_hull_of(self.node_seq()),
    {
        let keys = graph_node_keys(&self.graph);
        let mut pts: Vec<SSPoint> = Vec::new();
        let mut i: usize = 0;
        while i < keys.len()
            invariant
                i <= keys.len(),
                keys@ == graph_node_list(*self.graph).map_values(|e: (Coord, Seq<Coord>)| e.0),
                pts@.len() == i,
                forall|j: int| 0 <= j < i ==> pts@[j] == SSPoint::at(#[trigger] keys@[j]),
            decreases keys.len() - i,
        {
            pts.push(SSPoint::from_key(keys[i]));
            i += 1;
        }
        proof {
            let nl = graph_node_list(self.wires());
            assert(pts@.len() == self.node_seq().len());
            assert forall|j: int| 0 <= j < pts@.len() implies pts@[j] == self.node_seq()[j] by {
                assert(keys@[j] == nl[j].0);
            }
            assert(pts@ =~= self.node_seq());
        }
        SSBox::from_points(&pts)
    }

    /// To be called before a netlist is written: starts the floating names
    /// over, since they need not differ from one netlist to the next.
    pub fn pre_netlist(&mut self)
        ensures
            final(self).wires() == old(self).wires(),
            final(self).names().floating_watermark() == 0,
            final(self).names().registered() == old(self).names().registered(),
            final(self).names().watermark() == old(self).names().watermark(),
            final(self).names().wf() == old(self).names().wf(),
    {
        self.label_manager.rst_floating_nets();
    }

    /// The first segment, in the graph's order, whose bounds hold `ssp`.
    fn first_hit(&self, ssp: SSPoint) -> (r: Option<NetEdge>)
        ensures
            r.is_some() == (self.hits(ssp).len() > 0),
            r.is_some() ==> r.unwrap() == self.hits(ssp)[0],
    {
        let all = graph_all_edges(&self.graph);
        let ghost es = self.edge_seq();
        let ghost pred = |e: NetEdge| e.interactable.bounds.covers(ssp);
        let mut i: usize = 0;
        proof {
            assert(es.take(0).filter(pred) =~= Seq::<NetEdge>::empty()) by {
                reveal(Seq::filter);
            }
        }
        while i < all.len()
            invariant
                i <= all.len(),
                all@ == graph_edge_list(self.wires()),
                es == self.edge_seq(),
                pred == |e: NetEdge| e.interactable.bounds.covers(ssp),
                es.take(i as int).filter(pred).len() == 0,
            decreases all.len() - i,
        {
            proof {
                lemma_filter_step(es, pred, i as int);
                assert(es[i as int] == all@[i as int].2);
            }
            if all[i].2.interactable.contains_ssp(ssp) {
                proof {
                    let upto = es.take(i as int + 1).filter(pred);
                    assert(upto[0] == es[i as int]);
                    lemma_filter_prefix(es, pred, i as int + 1);
                    assert(es.filter(pred)[0] == upto[0]);
                }
                return Some(all[i].2.clone());
            }
            i += 1;
        }
        proof {
            assert(es.take(es.len() as int) =~= es);
        }
        None
    }

    /// The name of the net at `ssp`: that of the first segment, in the
    /// graph's order, whose bounds hold `ssp`. Where there is none, a
    /// floating name, with nothing registered.
    pub fn net_at(&mut self, ssp: SSPoint) -> (name: String)
        requires
            old(self).hits(ssp).len() > 0 ==> old(self).hits(ssp)[0].label.is_some(),
            old(self).hits(ssp).len() == 0 ==> old(self).names().can_float(),
        ensures
            final(self).wires() == old(self).wires(),
            old(self).hits(ssp).len() > 0 ==> name@ == old(self).hits(ssp)[0].label.unwrap()@
                && *final(self) == *old(self),
            old(self).hits(ssp).len() == 0 ==> LabelManager::floats(
                old(self).names(),
                final(self).names(),
                name@,
            ) && final(self).names().wf() == old(self).names().wf(),
    {
        match self.first_hit(ssp) {
            Some(e) => e.label_text(),
            None => self.label_manager.new_floating_label(),
        }
    }

    /// The name of the net at `ssp`, as `net_at` gives it, where it can be
    /// given: where the first segment whose bounds hold `ssp` has a name,
    /// or where there is no such segment and there is room for a floating
    /// name. Else nothing, and nothing changes.
    pub fn try_net_at(&mut self, ssp: SSPoint) -> (r: Option<String>)
        requires
            old(self).names().wf(),
        ensures
            final(self).wires() == old(self).wires(),
            final(self).names().wf(),
            r.is_some() == (if old(self).hits(ssp).len() > 0 {
                old(self).hits(ssp)[0].label.is_some()
            } else {
                old(self).names().can_float()
            }),
            r.is_none() ==> *final(self) == *old(self),
            r.is_some() && old(self).hits(ssp).len() > 0 ==> r.unwrap()@ == old(self).hits(
                ssp,
            )[0].label.unwrap()@ && *final(self) == *old(self),
            r.is_some() && old(self).hits(ssp).len() == 0 ==> LabelManager::floats(
                old(self).names(),
                final(self).names(),
                r.unwrap()@,
            ),
    {
        match self.first_hit(ssp) {
            Some(e) => {
                if e.label.is_some() {
                    Some(e.label_text())
                } else {
                    None
                }
            },
            None => {
                if self.label_manager.has_floating_room() {
                    Some(self.label_manager.new_floating_label())
                } else {
                    None
                }
            },
        }
    }

    /// The segments whose bounds overlap `ssb`, in the graph's order.
    pub fn intersects_ssbox(&mut self, ssb: &SSBox) -> (ret: Vec<NetEdge>)
        ensures
            *final(self) == *old(self),
            ret@ == old(self).overlapping(*ssb),
    {
        let all = graph_all_edges(&self.graph);
        let ghost es = self.edge_seq();
        let ghost pred = |e: NetEdge| e.interactable.bounds.overlaps(*ssb);
        let mut ret: Vec<NetEdge> = Vec::new();
        let mut i: usize = 0;
        proof {
            assert(es.take(0).filter(pred) =~= Seq::<NetEdge>::empty()) by {
                reveal(Seq::filter);
            }
        }
        while i < all.len()
            invariant
                i <= all.len(),
                all@ == graph_edge_list(*self.graph),
                es == self.edge_seq(),
                pred == |e: NetEdge| e.interactable.bounds.overlaps(*ssb),
                ret@ == es.take(i as int).filter(pred),
                *self == *old(self),
            decreases all.len() - i,
        {
            proof {
                lemma_filter_step(es, pred, i as int);
                assert(es[i as int] == all@[i as int].2);
            }
            if all[i].2.intersects_ssb(ssb) {
                ret.push(all[i].2.clone());
            }
            i += 1;
        }
        proof {
            assert(es.take(es.len() as int) =~= es);
        }
        ret
    }

    /// Removes every wire. The names stay as they are.
    pub fn clear(&mut self)
        ensures
            final(self).edges() == Map::<EdgeKey, NetEdge>::empty(),
            final(self).nodes() == Set::<Coord>::empty(),
            final(self).names() == old(self).names(),
            old(self).names().wf() ==> final(self).wf(),
            final(self).names_known(),
    {
        proof {
            lemma_empty_lists();
        }
        graph_clear(&mut self.graph);
    }

    /// Whether the bounds of some segment hold `ssp`.
    pub fn occupies_ssp(&self, ssp: SSPoint) -> (r: bool)
        ensures
            r == (self.hits(ssp).len() > 0),
    {
        self.first_hit(ssp).is_some()
    }

    /// Connects `src` and `dst` with segments along grid lines: none if they
    /// are the same point, one if they share a grid line, else two that meet
    /// in the corner `(src.x, dst.y)`. The new segments have no name.
    pub fn route(&mut self, src: SSPoint, dst: SSPoint)
        ensures
            final(self).edges() == routed(old(self).edges(), src, dst),
            final(self).nodes() == routed_nodes(old(self).nodes(), src, dst),
            final(self).names() == old(self).names(),
            old(self).wf() ==> final(self).wf(),
            old(self).names_known() ==> final(self).names_known(),
    {
        if src.x == dst.x && src.y == dst.y {
        } else if src.x == dst.x || src.y == dst.y {
            self.connect(src, dst);
        } else {
            let corner = SSPoint::new(src.x, dst.y);
            self.connect(src, corner);
            self.connect(corner, dst);
        }
    }

    /// Puts the unnamed segment from `src` to `dst` into the graph, in place
    /// of whatever connected the two before.
    fn connect(&mut self, src: SSPoint, dst: SSPoint)
        requires
            src != dst,
            axis_aligned(src, dst),
        ensures
            final(self).edges() == old(self).edges().insert(
                edge_key(src.key(), dst.key()),
                plain_edge(src, dst),
            ),
            final(self).nodes() == old(self).nodes().insert(src.key()).insert(dst.key()),
            final(self).names() == old(self).names(),
            old(self).wf() ==> final(self).wf(),
            old(self).names_known() ==> final(self).names_known(),
    {
        let e = NetEdge::new(src, dst);
        let _ = graph_add_edge(&mut self.graph, src.to_key(), dst.to_key(), e);
        proof {
            if old(self).wf() {
                lemma_edge_key(src.key(), dst.key());
                let was = old(self).wiring();
                let now = self.wiring();
                assert forall|k: EdgeKey| #[trigger] now.edges.contains_key(k) implies edge_fits(
                    k,
                    now.edges[k],
                ) && now.nodes.contains(k.0) && now.nodes.contains(k.1) by {
                    if k != edge_key(src.key(), dst.key()) {
                        assert(was.edges.contains_key(k));
                    }
                }
            }
        }
    }

    /// Moves the segment `e` by `sst`: the edge between the ends of `e`
    /// leaves the graph, and `e` as moved enters it.
    pub fn transform(&mut self, e: NetEdge, sst: SSTransform)
        requires
            sst.fits(e.src),
            sst.fits(e.dst),
        ensures
            final(self).edges() == old(self).edges().remove(
                edge_key(e.src.key(), e.dst.key()),
            ).insert(
                edge_key(sst.image(e.src).key(), sst.image(e.dst).key()),
                moved_edge(e, sst),
            ),
            final(self).nodes() == old(self).nodes().insert(sst.image(e.src).key()).insert(
                sst.image(e.dst).key(),
            ),
            final(self).names() == old(self).names(),
            old(self).wf() && e.wf() && sst.rigid() ==> final(self).wf(),
    {
        let mut e = e;
        let _ = graph_remove_edge(&mut self.graph, e.src.to_key(), e.dst.to_key());
        let ghost mid = self.edges();
        e.transform(sst);
        let a = e.src.to_key();
        let b = e.dst.to_key();
        let ghost put = e;
        let _ = graph_add_edge(&mut self.graph, a, b, e);
        proof {
            if old(self).wf() && put.wf() {
                lemma_edge_key(a, b);
                let was = old(self).wiring();
                let now = self.wiring();
                assert forall|k: EdgeKey| #[trigger] now.edges.contains_key(k) implies edge_fits(
                    k,
                    now.edges[k],
                ) && now.nodes.contains(k.0) && now.nodes.contains(k.1) by {
                    if k != edge_key(a, b) {
                        assert(mid.contains_key(k));
                        assert(was.edges.contains_key(k));
                    }
                }
            }
        }
    }

    /// Removes the edge between the two ends of `e`, if there is one. The
    /// nodes stay.
    pub fn delete_edge(&mut self, e: &NetEdge)
        ensures
            final(self).edges() == old(self).edges().remove(edge_key(e.src.key(), e.dst.key())),
            final(self).nodes() == old(self).nodes(),
            final(self).names() == old(self).names(),
            old(self).wf() ==> final(self).wf(),
            old(self).names_known() ==> final(self).names_known(),
    {
        let _ = graph_remove_edge(&mut self.graph, e.src.to_key(), e.dst.to_key());
        proof {
            if old(self).wf() {
                let was = old(self).wiring();
                let now = self.wiring();
                assert forall|k: EdgeKey| #[trigger] now.edges.contains_key(k) implies edge_fits(
                    k,
                    now.edges[k],
                ) && now.nodes.contains(k.0) && now.nodes.contains(k.1) by {
                    assert(was.edges.contains_key(k));
                }
            }
        }
    }

    /// To be called whenever the wires have changed: puts the graph in
    /// order again. Segments are cut at the nodes that lie on them, nodes
    /// that no wire needs are taken out, segments are cut at those of
    /// `extra_vertices` that lie on them, and the nets are named.
    pub fn prune(&mut self, extra_vertices: Vec<SSPoint>)
        requires
            old(self).wf(),
        ensures
            final(self).wf(),
            pruned_from(
                old(self).wiring(),
                old(self).names(),
                extra_vertices@,
                final(self).wiring(),
                final(self).names(),
            ),
    {
        prune_graph(&mut self.graph, &mut self.label_manager, &extra_vertices);
    }

    /// Takes over every segment of `other`, with its name, in place of
    /// whatever connected the same two nodes here, and prunes.
    pub fn merge(&mut self, other: &Nets, extra_vertices: Vec<SSPoint>)
        requires
            old(self).wf(),
            other.wf(),
        ensures
            final(self).wf(),
            pruned_from(
                imported(old(self).wiring(), other.wiring()),
                old(self).names(),
                extra_vertices@,
                final(self).wiring(),
                final(self).names(),
            ),
    {
        let all = graph_all_edges(&other.graph);
        let ghost mine = self.wiring();
        let ghost theirs = other.wiring();
        proof {
            lemma_table_of_list(all@);
        }
        let mut i: usize = 0;
        while i < all.len()
            invariant
                i <= all.len(),
                all@ == graph_edge_list(other.wires()),
                graph_ok(other.wires()),
                theirs == other.wiring(),
                theirs.wf(),
                mine == old(self).wiring(),
                mine.wf(),
                graph_ok(self.wires()),
                self.names() == old(self).names(),
                import_inv(mine, all@, i as int, self.wiring()),
            decreases all.len() - i,
        {
            let ghost prev = self.wiring();
            let a = all[i].0;
            let b = all[i].1;
            let mut ew = all[i].2.clone();
            ew.interactable = NetEdge::interactable(SSPoint::from_key(a), SSPoint::from_key(b));
            proof {
                lemma_table_of_list(all@);
                assert(theirs.edges.contains_key((a, b)));
                lemma_fit_geometry((a, b), all@[i as int].2, SSPoint::at(a));
                assert(ew == all@[i as int].2);
                assert(edge_key(a, b) == (a, b));
            }
            let _ = graph_add_edge(&mut self.graph, a, b, ew);
            proof {
                lemma_import_step(mine, all@, i as int, prev, self.wiring());
            }
            i += 1;
        }
        proof {
            lemma_import_done(mine, theirs, all@, self.wiring());
        }
        self.prune(extra_vertices);
    }
}

/// The wiring `a` after it has taken over every segment of `b`: the
/// segments of `b`, and those of `a` that connect other nodes; the nodes of
/// `a`, and those in which a segment of `b` ends.
pub open spec fn imported(a: Wiring, b: Wiring) -> Wiring {
    Wiring {
        nodes: Set::new(
            |n: Coord|
                a.nodes.contains(n) || exists|k: EdgeKey| #[trigger]
                    b.edges.contains_key(k) && (k.0 == n || k.1 == n),
        ),
        edges: a.edges.union_prefer_right(b.edges),
    }
}

/// What holds when the first `i` of the listed segments have been taken
/// over into `mine`.
pub open spec fn import_inv(
    mine: Wiring,
    all: Seq<(Coord, Coord, NetEdge)>,
    i: int,
    cur: Wiring,
) -> bool {
    &&& cur.wf()
    &&& forall|k: EdgeKey| #[trigger]
        cur.edges.contains_key(k) <==> mine.edges.contains_key(k) || exists|j: int|
            0 <= j < i && (#[trigger] all[j]).0 == k.0 && all[j].1 == k.1
    &&& forall|k: EdgeKey| #[trigger]
        cur.edges.contains_key(k) ==> if exists|j: int|
            0 <= j < i && (#[trigger] all[j]).0 == k.0 && all[j].1 == k.1 {
            exists|j: int|
                0 <= j < i && (#[trigger] all[j]).0 == k.0 && all[j].1 == k.1 && cur.edges[k]
                    == all[j].2
        } else {
            cur.edges[k] == mine.edges[k]
        }
    &&& forall|n: Coord| #[trigger]
        cur.nodes.contains(n) <==> mine.nodes.contains(n) || exists|j: int|
            0 <= j < i && ((#[trigger] all[j]).0 == n || all[j].1 == n)
}

/// Taking over one more segment.
pub proof fn lemma_import_step(
    mine: Wiring,
    all: Seq<(Coord, Coord, NetEdge)>,
    i: int,
    prev: Wiring,
    cur: Wiring,
)
    requires
        0 <= i < all.len(),
        import_inv(mine, all, i, prev),
        edge_fits((all[i].0, all[i].1), all[i].2),
        cur.edges == prev.edges.insert((all[i].0, all[i].1), all[i].2),
        cur.nodes == prev.nodes.insert(all[i].0).insert(all[i].1),
    ensures
        import_inv(mine, all, i + 1, cur),
{
    let ki = (all[i].0, all[i].1);
    assert forall|k: EdgeKey| #[trigger] cur.edges.contains_key(k) implies edge_fits(k, cur.edges[k])
        && cur.nodes.contains(k.0) && cur.nodes.contains(k.1) by {
        if k != ki {
            assert(prev.edges.contains_key(k));
        }
    }
    assert forall|k: EdgeKey| #[trigger]
        cur.edges.contains_key(k) <==> mine.edges.contains_key(k) || exists|j: int|
            0 <= j < i + 1 && (#[trigger] all[j]).0 == k.0 && all[j].1 == k.1 by {
        if cur.edges.contains_key(k) {
            if k == ki {
                assert(all[i].0 == k.0 && all[i].1 == k.1);
            } else {
                assert(prev.edges.contains_key(k));
                if !mine.edges.contains_key(k) {
                    let j = choose|j: int| 0 <= j < i && (#[trigger] all[j]).0 == k.0 && all[j].1 == k.1;
                    assert(0 <= j < i + 1 && all[j].0 == k.0 && all[j].1 == k.1);
                }
            }
        }
        if exists|j: int| 0 <= j < i + 1 && (#[trigger] all[j]).0 == k.0 && all[j].1 == k.1 {
            let j = choose|j: int| 0 <= j < i + 1 && (#[trigger] all[j]).0 == k.0 && all[j].1 == k.1;
            if j < i {
                assert(prev.edges.contains_key(k));
            }
        }
        if mine.edges.contains_key(k) {
            assert(prev.edges.contains_key(k));
        }
    }
    assert forall|k: EdgeKey| #[trigger] cur.edges.contains_key(k) implies if exists|j: int|
        0 <= j < i + 1 && (#[trigger] all[j]).0 == k.0 && all[j].1 == k.1 {
        exists|j: int|
            0 <= j < i + 1 && (#[trigger] all[j]).0 == k.0 && all[j].1 == k.1 && cur.edges[k]
                == all[j].2
    } else {
        cur.edges[k] == mine.edges[k]
    } by {
        if k == ki {
            assert(0 <= i < i + 1 && all[i].0 == k.0 && all[i].1 == k.1 && cur.edges[k] == all[i].2);
        } else {
            assert(prev.edges.contains_key(k));
            if exists|j: int| 0 <= j < i && (#[trigger] all[j]).0 == k.0 && all[j].1 == k.1 {
                let j = choose|j: int|
                    0 <= j < i && (#[trigger] all[j]).0 == k.0 && all[j].1 == k.1 && prev.edges[k]
                        == all[j].2;
                assert(0 <= j < i + 1 && all[j].0 == k.0 && all[j].1 == k.1 && cur.edges[k] == all[j].2);
            } else {
                if exists|j: int| 0 <= j < i + 1 && (#[trigger] all[j]).0 == k.0 && all[j].1 == k.1 {
                    let j = choose|j: int|
                        0 <= j < i + 1 && (#[trigger] all[j]).0 == k.0 && all[j].1 == k.1;
                    assert(j == i);
                }
            }
        }
    }
    assert forall|n: Coord| #[trigger]
        cur.nodes.contains(n) <==> mine.nodes.contains(n) || exists|j: int|
            0 <= j < i + 1 && ((#[trigger] all[j]).0 == n || all[j].1 == n) by {
        if cur.nodes.contains(n) {
            if n == all[i].0 || n == all[i].1 {
                assert(0 <= i < i + 1 && (all[i].0 == n || all[i].1 == n));
            } else {
                assert(prev.nodes.contains(n));
                if !mine.nodes.contains(n) {
                    let j = choose|j: int| 0 <= j < i && ((#[trigger] all[j]).0 == n || all[j].1 == n);
                    assert(0 <= j < i + 1 && (all[j].0 == n || all[j].1 == n));
                }
            }
        }
        if exists|j: int| 0 <= j < i + 1 && ((#[trigger] all[j]).0 == n || all[j].1 == n) {
            let j = choose|j: int| 0 <= j < i + 1 && ((#[trigger] all[j]).0 == n || all[j].1 == n);
            if j < i {
                assert(prev.nodes.contains(n));
            }
        }
        if mine.nodes.contains(n) {
            assert(prev.nodes.contains(n));
        }
    }
}

/// When every listed segment has been taken over, the wiring is `imported`.
pub proof fn lemma_import_done(
    mine: Wiring,
    theirs: Wiring,
    all: Seq<(Coord, Coord, NetEdge)>,
    cur: Wiring,
)
    requires
        import_inv(mine, all, all.len() as int, cur),
        theirs.edges == crate::graph::edge_table(all),
        forall|i: int, j: int|
            0 <= i < j < all.len() ==> !((#[trigger] all[i]).0 == (#[trigger] all[j]).0 && all[i].1
                == all[j].1),
    ensures
        cur == imported(mine, theirs),
{
    let want = imported(mine, theirs);
    lemma_table_of_list(all);
    assert forall|k: EdgeKey| cur.edges.contains_key(k) == want.edges.contains_key(k) by {
        if theirs.edges.contains_key(k) {
            let j = crate::graph::index_of_key(all, k);
            assert(0 <= j < all.len() && all[j].0 == k.0 && all[j].1 == k.1);
        }
    }
    assert forall|k: EdgeKey| cur.edges.contains_key(k) implies #[trigger] cur.edges[k]
        == want.edges[k] by {
        if exists|j: int| 0 <= j < all.len() && (#[trigger] all[j]).0 == k.0 && all[j].1 == k.1 {
            let j = choose|j: int|
                0 <= j < all.len() && (#[trigger] all[j]).0 == k.0 && all[j].1 == k.1 && cur.edges[k]
                    == all[j].2;
            assert(theirs.edges.contains_key((all[j].0, all[j].1)));
        }
    }
    assert(cur.edges =~= want.edges);
    assert forall|n: Coord| cur.nodes.contains(n) == want.nodes.contains(n) by {
        if exists|j: int| 0 <= j < all.len() && ((#[trigger] all[j]).0 == n || all[j].1 == n) {
            let j = choose|j: int| 0 <= j < all.len() && ((#[trigger] all[j]).0 == n || all[j].1 == n);
            assert(theirs.edges.contains_key((all[j].0, all[j].1)));
        }
        if exists|k: EdgeKey| #[trigger] theirs.edges.contains_key(k) && (k.0 == n || k.1 == n) {
            let k = choose|k: EdgeKey| #[trigger] theirs.edges.contains_key(k) && (k.0 == n || k.1 == n);
            let j = crate::graph::index_of_key(all, k);
            assert(0 <= j < all.len() && (all[j].0 == n || all[j].1 == n));
        }
    }
    assert(cur.nodes =~= want.nodes);
}


} // verus!
