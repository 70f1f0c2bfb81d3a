use schematic_nets::edge::NetEdge;
use schematic_nets::geometry::{SSPoint, SSTransform};
use schematic_nets::nets::Nets;
use std::collections::{BTreeMap, BTreeSet};

type Coord = (i16, i16);
type Key = (Coord, Coord);

fn pt(c: Coord) -> SSPoint {
    SSPoint::new(c.0, c.1)
}

fn key(a: Coord, b: Coord) -> Key {
    if a <= b {
        (a, b)
    } else {
        (b, a)
    }
}

/// A small generator of numbers that gives the same numbers every time.
struct Numbers(u64);

impl Numbers {
    fn next(&mut self) -> u64 {
        self.0 = self.0.wrapping_mul(6364136223846793005).wrapping_add(1442695040888963407);
        self.0 >> 33
    }

    fn coord(&mut self, span: u64) -> Coord {
        ((self.next() % span) as i16, (self.next() % span) as i16)
    }
}

/// The wires as a plain table, kept beside the nets.
#[derive(Clone, Default)]
struct Model {
    nodes: BTreeSet<Coord>,
    edges: BTreeMap<Key, (Coord, Coord, Option<String>)>,
}

impl Model {
    fn connect(&mut self, a: Coord, b: Coord) {
        self.edges.insert(key(a, b), (a, b, None));
        self.nodes.insert(a);
        self.nodes.insert(b);
    }

    fn route(&mut self, a: Coord, b: Coord) {
        if a == b {
        } else if a.0 == b.0 || a.1 == b.1 {
            self.connect(a, b);
        } else {
            let corner = (a.0, b.1);
            self.connect(a, corner);
            self.connect(corner, b);
        }
    }

    fn of(nets: &Nets) -> Model {
        let mut m = Model::default();
        for n in nets.graph.nodes() {
            m.nodes.insert(n);
        }
        for (a, b, e) in nets.graph.all_edges() {
            assert!(a <= b);
            assert_eq!(key(e.src.to_key(), e.dst.to_key()), (a, b));
            assert_ne!(e.src, e.dst);
            assert!(e.src.x == e.dst.x || e.src.y == e.dst.y);
            m.edges.insert((a, b), (e.src.to_key(), e.dst.to_key(), e.label.clone()));
        }
        m
    }

    fn same_as(&self, nets: &Nets) {
        let other = Model::of(nets);
        assert_eq!(self.nodes, other.nodes);
        assert_eq!(self.edges, other.edges);
    }

    fn on(k: &Key, p: Coord) -> bool {
        let lo = (k.0 .0.min(k.1 .0), k.0 .1.min(k.1 .1));
        let hi = (k.0 .0.max(k.1 .0), k.0 .1.max(k.1 .1));
        lo.0 <= p.0 && p.0 <= hi.0 && lo.1 <= p.1 && p.1 <= hi.1
    }

    fn inside(k: &Key, p: Coord) -> bool {
        Model::on(k, p) && p != k.0 && p != k.1
    }

    fn links(&self, p: Coord, q: Coord) -> bool {
        self.edges.keys().any(|k| Model::on(k, p) && Model::on(k, q))
    }

    fn arms(&self, p: Coord) -> [bool; 4] {
        [
            self.links(p, (p.0 + 1, p.1)),
            self.links(p, (p.0 - 1, p.1)),
            self.links(p, (p.0, p.1 + 1)),
            self.links(p, (p.0, p.1 - 1)),
        ]
    }

    fn straight(&self, p: Coord) -> bool {
        let a = self.arms(p);
        a == [true, true, false, false] || a == [false, false, true, true]
    }

    fn neighbors(&self, v: Coord) -> Vec<Coord> {
        let mut r = vec![];
        for k in self.edges.keys() {
            if k.0 == v {
                r.push(k.1);
            } else if k.1 == v {
                r.push(k.0);
            }
        }
        r
    }

    /// For every node the least node that a walk along segments reaches.
    fn components(&self) -> BTreeMap<Coord, Coord> {
        let mut least: BTreeMap<Coord, Coord> = self.nodes.iter().map(|n| (*n, *n)).collect();
        let mut changed = true;
        while changed {
            changed = false;
            for k in self.edges.keys() {
                let a = least[&k.0];
                let b = least[&k.1];
                if a != b {
                    let m = a.min(b);
                    least.insert(k.0, m);
                    least.insert(k.1, m);
                    changed = true;
                }
            }
        }
        least
    }
}

/// Holds the nets after pruning against what pruning promises.
fn hold_pruned(before: &Model, extras: &[Coord], nets: &Nets, names_safe: bool) {
    let after = Model::of(nets);
    // the cover stays
    for x in -1..14 {
        for y in -1..14 {
            let p = (x, y);
            assert_eq!(before.links(p, p), after.links(p, p));
            assert_eq!(before.links(p, (x + 1, y)), after.links(p, (x + 1, y)));
            assert_eq!(before.links(p, (x, y + 1)), after.links(p, (x, y + 1)));
        }
    }
    // the nodes are those that are kept
    for x in -1..14 {
        for y in -1..14 {
            let p = (x, y);
            let kept = before.links(p, p)
                && ((before.nodes.contains(&p) && !before.straight(p)) || extras.contains(&p));
            assert_eq!(after.nodes.contains(&p), kept, "node {:?}", p);
        }
    }
    // no node and no extra point inside a segment
    for k in after.edges.keys() {
        for n in after.nodes.iter() {
            assert!(!Model::inside(k, *n));
        }
        for p in extras.iter() {
            assert!(!Model::inside(k, *p));
        }
    }
    // every node has a segment, and waypoints are among the extra points
    for n in after.nodes.iter() {
        let nb = after.neighbors(*n);
        assert!(!nb.is_empty());
        let in_line = nb.len() == 2 && (nb[0].0 == nb[1].0 || nb[0].1 == nb[1].1);
        if in_line && Model::inside(&key(nb[0], nb[1]), *n) {
            assert!(extras.contains(n));
        }
    }
    // one name for each component
    let comp = after.components();
    let mut name_of: BTreeMap<Coord, String> = BTreeMap::new();
    for (k, e) in after.edges.iter() {
        let name = e.2.clone().expect("every segment has a name");
        let c = comp[&k.0];
        assert_eq!(comp[&k.1], c);
        let known = name_of.entry(c).or_insert(name.clone());
        assert_eq!(*known, name);
    }
    if names_safe {
        let distinct: BTreeSet<&String> = name_of.values().collect();
        assert_eq!(distinct.len(), name_of.len());
    }
}

#[test]
fn edits_do_to_the_graph_what_they_do_to_a_table() {
    let mut numbers = Numbers(7);
    for _ in 0..40 {
        let mut nets = Nets::new();
        let mut model = Model::default();
        for _ in 0..30 {
            match numbers.next() % 4 {
                0 | 1 => {
                    let a = numbers.coord(8);
                    let b = numbers.coord(8);
                    nets.route(pt(a), pt(b));
                    model.route(a, b);
                }
                2 => {
                    let a = numbers.coord(8);
                    let b = numbers.coord(8);
                    nets.delete_edge(&NetEdge::new(pt(a), pt(b)));
                    model.edges.remove(&key(a, b));
                }
                _ => {
                    let a = numbers.coord(8);
                    let b = (a.0, (numbers.next() % 8) as i16);
                    if a != b {
                        let shift = ((numbers.next() % 3) as i16, (numbers.next() % 3) as i16);
                        let e = NetEdge::labelled(pt(a), pt(b), Some("moved".to_string()));
                        nets.transform(e, SSTransform::translation(shift.0, shift.1));
                        model.edges.remove(&key(a, b));
                        let a2 = (a.0 + shift.0, a.1 + shift.1);
                        let b2 = (b.0 + shift.0, b.1 + shift.1);
                        model.edges.insert(key(a2, b2), (a2, b2, Some("moved".to_string())));
                        model.nodes.insert(a2);
                        model.nodes.insert(b2);
                    }
                }
            }
            model.same_as(&nets);
        }
    }
}

#[test]
fn pruning_keeps_its_promises_on_many_graphs() {
    let mut numbers = Numbers(11);
    for round in 0..60 {
        let mut nets = Nets::new();
        let wires = 2 + numbers.next() % 8;
        for _ in 0..wires {
            let a = numbers.coord(12);
            let b = numbers.coord(12);
            nets.route(pt(a), pt(b));
        }
        if round % 3 == 0 {
            let a = numbers.coord(12);
            let b = numbers.coord(12);
            nets.delete_edge(&NetEdge::new(pt(a), pt((a.0, b.1))));
        }
        let extras: Vec<Coord> = (0..(numbers.next() % 4)).map(|_| numbers.coord(12)).collect();
        let before = Model::of(&nets);
        nets.prune(extras.iter().map(|c| pt(*c)).collect());
        hold_pruned(&before, &extras, &nets, true);
        let once = Model::of(&nets);
        nets.prune(extras.iter().map(|c| pt(*c)).collect());
        once.same_as(&nets);
        // more wires, pruned again
        let a = numbers.coord(12);
        let b = numbers.coord(12);
        nets.route(pt(a), pt(b));
        let before = Model::of(&nets);
        nets.prune(extras.iter().map(|c| pt(*c)).collect());
        hold_pruned(&before, &extras, &nets, true);
    }
}

#[test]
fn merging_keeps_its_promises_on_many_graphs() {
    let mut numbers = Numbers(23);
    for _ in 0..40 {
        let mut mine = Nets::new();
        let mut theirs = Nets::new();
        for _ in 0..(1 + numbers.next() % 5) {
            let a = numbers.coord(10);
            let b = numbers.coord(10);
            mine.route(pt(a), pt(b));
        }
        for _ in 0..(1 + numbers.next() % 5) {
            let a = numbers.coord(10);
            let b = numbers.coord(10);
            theirs.route(pt(a), pt(b));
        }
        mine.prune(vec![]);
        let mut before = Model::of(&mine);
        for (k, e) in Model::of(&theirs).edges.iter() {
            before.edges.insert(*k, e.clone());
            before.nodes.insert(k.0);
            before.nodes.insert(k.1);
        }
        mine.merge(&theirs, vec![]);
        hold_pruned(&before, &[], &mine, true);
    }
}
