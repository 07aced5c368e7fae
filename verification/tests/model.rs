//! The model itself.

use cadcore::brep::BRep;
use cadcore::cache::{CacheKey, Table};
use cadcore::entities::{CoEdge, CoEdgeSense, Loop, Shell, Solid, Vertex};
use cadcore::geometry::Point3;
use cadcore::ids::{CoEdgeId, EdgeId, FaceId, LoopId, SolidId, VertexId};
use cadcore::scalar::{clamp, Real};
use cadcore::step::GridKey;

fn num(v: f64) -> Real {
    Real::from_bits(v.to_bits())
}

fn point(x: f64, y: f64, z: f64) -> Point3 {
    Point3 { x: num(x), y: num(y), z: num(z) }
}

#[test]
fn empty_brep_has_zero_stats() {
    let b = BRep::new();
    let s = b.stats();
    assert_eq!(s.vertices, 0);
    assert_eq!(s.faces, 0);
}

#[test]
fn add_vertex_increases_count() {
    let mut b = BRep::new();
    let id = b.add_vertex(Vertex { point: point(0.0, 0.0, 0.0) });
    assert_eq!(b.stats().vertices, 1);
    assert_eq!(b.vertices.get(id).unwrap().point, point(0.0, 0.0, 0.0));
}

#[test]
fn numbers_order_as_floats_do() {
    let values = [
        f64::NEG_INFINITY,
        -2.5,
        -f64::MIN_POSITIVE,
        -0.0,
        0.0,
        1e-300,
        1.0,
        2.5,
        f64::INFINITY,
        f64::NAN,
    ];
    for &a in &values {
        for &b in &values {
            assert_eq!(num(a).lt(num(b)), a < b, "{a} < {b}");
            assert_eq!(num(a).le(num(b)), a <= b, "{a} <= {b}");
            assert_eq!(num(a).gt(num(b)), a > b, "{a} > {b}");
            assert_eq!(num(a).ge(num(b)), a >= b, "{a} >= {b}");
        }
        assert_eq!(num(a).is_nan(), a.is_nan());
        assert_eq!(num(a).neg().bits, (-a).to_bits());
        assert_eq!(num(a).abs().bits, a.abs().to_bits());
    }
    for &(v, lo, hi, want) in
        &[(5.0, 0.0, 1.0, 1.0), (-5.0, 0.0, 1.0, 0.0), (0.25, 0.0, 1.0, 0.25)]
    {
        assert_eq!(clamp(num(v), num(lo), num(hi)), num(want));
    }
}

#[test]
fn removed_entities_do_not_come_back() {
    let mut b = BRep::new();
    let first = b.add_vertex(Vertex { point: point(1.0, 0.0, 0.0) });
    let second = b.add_vertex(Vertex { point: point(2.0, 0.0, 0.0) });
    assert_ne!(first, second);
    assert_eq!(b.vertices.keys(), vec![first, second]);
    let gone = b.vertices.remove(first).unwrap();
    assert_eq!(gone.point, point(1.0, 0.0, 0.0));
    assert!(b.vertices.get(first).is_none());
    assert!(b.vertices.remove(first).is_none());
    let third = b.add_vertex(Vertex { point: point(3.0, 0.0, 0.0) });
    assert_ne!(third, first);
    assert!(b.vertices.get(first).is_none());
    assert_eq!(b.vertices.get(third).unwrap().point, point(3.0, 0.0, 0.0));
    // The slot of the removed vertex is used again, so the new one is first.
    assert_eq!(b.vertices.keys(), vec![third, second]);
    assert_eq!(b.vertices.len(), 2);
    let all = b.vertices.drain();
    assert_eq!(all.len(), 2);
    assert_eq!(all[0].0, third);
    assert_eq!(all[1].1.point, point(2.0, 0.0, 0.0));
    assert!(b.vertices.is_empty());
    assert!(b.vertices.get(third).is_none());
}

#[test]
fn entities_come_and_go_without_mixing() {
    let mut b = BRep::new();
    let mut live = Vec::new();
    let mut gone = Vec::new();
    for round in 0..6 {
        for k in 0..5 {
            let at = point(round as f64, k as f64, 0.0);
            let id = b.add_vertex(Vertex { point: at });
            assert!(!gone.contains(&id));
            live.push((id, at));
        }
        for _ in 0..3 {
            let (id, at) = live.remove(round % live.len());
            assert_eq!(b.vertices.remove(id).unwrap().point, at);
            gone.push(id);
        }
        for (id, at) in &live {
            assert_eq!(b.vertices.get(*id).unwrap().point, *at);
        }
        for id in &gone {
            assert!(b.vertices.get(*id).is_none());
        }
    }
    assert_eq!(b.vertices.len(), 12);
    let drained = b.vertices.drain();
    assert_eq!(drained.len(), 12);
    let id = b.add_vertex(Vertex { point: point(9.0, 9.0, 9.0) });
    assert!(drained.iter().all(|e| e.0 != id));
    assert_eq!(b.vertices.keys(), vec![id]);
}

#[test]
fn entities_can_be_changed_in_place() {
    let mut b = BRep::new();
    let id = b.add_vertex(Vertex { point: point(1.0, 0.0, 0.0) });
    b.vertices.get_mut(id).unwrap().point = point(4.0, 5.0, 6.0);
    assert_eq!(b.vertices.get(id).unwrap().point, point(4.0, 5.0, 6.0));
    assert!(b.vertices.get_mut(VertexId::default()).is_none());
}

fn ring(b: &mut BRep, n: usize) -> (LoopId, Vec<CoEdgeId>) {
    let ids: Vec<CoEdgeId> = (0..n)
        .map(|_| {
            b.add_coedge(CoEdge {
                edge: EdgeId::default(),
                sense: CoEdgeSense::Same,
                next: CoEdgeId::default(),
                prev: CoEdgeId::default(),
                loop_id: LoopId::default(),
            })
        })
        .collect();
    b.patch_coedge_links(&ids);
    let lp = b.add_loop(Loop { start: ids[0], face: FaceId::default() });
    (lp, ids)
}

#[test]
fn linked_coedges_are_walked_in_order() {
    let mut b = BRep::new();
    for n in 1..6 {
        let (lp, ids) = ring(&mut b, n);
        assert_eq!(b.loop_coedges(lp), Some(ids.clone()));
        for k in 0..n {
            let ce = b.coedges.get(ids[k]).unwrap();
            assert_eq!(ce.next, ids[(k + 1) % n]);
            assert_eq!(ce.prev, ids[(k + n - 1) % n]);
        }
    }
    assert_eq!(b.loop_coedges(LoopId::default()), None);
}

#[test]
fn fusing_gives_every_shell_to_one_solid() {
    let mut b = BRep::new();
    let shells: Vec<_> = (0..3)
        .map(|_| {
            b.add_shell(Shell { faces: Vec::new(), is_outer: true, solid: SolidId::default() })
        })
        .collect();
    b.add_solid(Solid { shells: vec![shells[0], shells[1]], name: None });
    b.add_solid(Solid { shells: vec![shells[2]], name: Some("other".into()) });
    b.fuse_solids();
    assert_eq!(b.stats().solids, 1);
    let id = b.solids.keys()[0];
    assert_eq!(b.solids.get(id).unwrap().shells, shells);
    for s in shells {
        assert_eq!(b.shells.get(s).unwrap().solid, id);
    }
}

#[test]
fn tables_find_what_was_stored_last() {
    let mut table: Table<GridKey, usize> = Table::new();
    let key = |k: i64| GridKey { x: k * k - 50, y: -k, z: k % 7 };
    for k in 0..300 {
        assert_eq!(table.get(&key(k)), None);
        table.insert(key(k), k as usize);
    }
    for k in 0..300 {
        assert_eq!(table.get(&key(k)), Some(k as usize));
        table.insert(key(k), 1000 + k as usize);
    }
    for k in 0..300 {
        assert_eq!(table.get(&key(k)), Some(1000 + k as usize));
    }
    assert_eq!(table.get(&GridKey { x: 0, y: 0, z: 99 }), None);
    // Two keys with one digest are still two keys.
    let a = GridKey { x: 0, y: 0, z: cadcore::cache::SPREAD as i64 };
    let b = GridKey { x: 0, y: 1, z: 0 };
    assert_eq!(a.digest(), b.digest());
    table.insert(a, 1);
    assert_eq!(table.get(&b), None);
    table.insert(b, 2);
    assert_eq!((table.get(&a), table.get(&b)), (Some(1), Some(2)));
    table.clear();
    assert_eq!(table.get(&a), None);
    assert_eq!(table.get(&key(5)), None);
}
