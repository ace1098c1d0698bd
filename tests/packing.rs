use circle_packing::packing::{next_state, target_reached};
use circle_packing::{Bbox, Circle, PackShape, PackState, Settings, Shape};
use rand::rngs::StdRng;
use rand::SeedableRng;

fn settings(min_radius: i64, padding: i64, inside: bool, target_permille: u32) -> Settings {
    Settings {
        min_radius,
        padding,
        inside,
        palette_len: 4,
        target_permille,
        max_stall_iterations: 1000,
    }
}

fn rect(x0: i64, y0: i64, x1: i64, y1: i64) -> Bbox {
    let mut b = Bbox::new(x0, y0);
    b.expand(x1, y1);
    b
}

fn run<S: Shape>(root: &mut PackShape<S>, cfg: &Settings, rng: &mut StdRng, start: PackState) -> usize {
    let mut state = start;
    let mut rounds = 0;
    while state != PackState::Done {
        state = circle_packing::packing::pack_round(root, cfg, state, rng);
        rounds += 1;
    }
    rounds
}

fn check_tree(children: &[PackShape<Circle>], occupied: i128, cfg: &Settings) {
    let mut sum = 0;
    for (i, a) in children.iter().enumerate() {
        let ca = a.container();
        assert!(ca.radius >= cfg.min_radius);
        sum += ca.area();
        for b in &children[i + 1..] {
            let cb = b.container();
            let dx = (ca.x - cb.x) as i128;
            let dy = (ca.y - cb.y) as i128;
            let need = (ca.radius + cb.radius + cfg.padding) as i128;
            assert!(dx * dx + dy * dy >= need * need);
        }
        for g in a.children() {
            let cg = g.container();
            let dx = (ca.x - cg.x) as i128;
            let dy = (ca.y - cg.y) as i128;
            let room = (ca.radius - cg.radius - cfg.padding) as i128;
            assert!(room >= 0 && dx * dx + dy * dy <= room * room);
        }
        check_tree(a.children(), a.occupied_area(), cfg);
    }
    assert_eq!(sum, occupied);
}

#[test]
fn single_placement_and_nesting() {
    let cfg = settings(1, 0, true, 1000);
    let mut root = PackShape::new(rect(0, 0, 100, 100));
    assert!(root.pack(PackShape::circle(50, 50, 20), &cfg));
    assert_eq!(root.occupied_area(), 1256);
    // a candidate centred in the first circle nests inside it
    assert!(root.pack(PackShape::circle(50, 50, 40), &cfg));
    assert_eq!(root.children().len(), 1);
    assert_eq!(root.occupied_area(), 1256);
    let first = &root.children()[0];
    assert_eq!(first.children().len(), 1);
    assert_eq!(first.children()[0].get_radius(), 20);
    assert_eq!(first.children()[0].color, 1);
}

#[test]
fn candidate_shrinks_away_from_sibling() {
    let cfg = settings(1, 2, false, 1000);
    let mut root = PackShape::new(rect(0, 0, 100, 100));
    assert!(root.pack(PackShape::circle(20, 20, 10), &cfg));
    // centre 30 away from the first circle: radius 30 - 10 - 2 = 18
    assert!(root.pack(PackShape::circle(50, 20, 25), &cfg));
    assert_eq!(root.children()[1].get_radius(), 18);
    // centre inside the first circle with nesting off: rejected, nothing changes
    assert!(!root.pack(PackShape::circle(22, 20, 5), &cfg));
    assert_eq!(root.children().len(), 2);
    assert_eq!(root.occupied_area(), 314 + 355 * 324 / 113);
}

#[test]
fn too_small_candidate_is_rejected() {
    let cfg = settings(5, 0, true, 1000);
    let mut root = PackShape::new(rect(0, 0, 100, 100));
    assert!(!root.pack(PackShape::circle(50, 50, 4), &cfg));
    assert_eq!(root.children().len(), 0);
    assert_eq!(root.occupied_area(), 0);
}

#[test]
fn stall_termination() {
    let cfg = Settings { max_stall_iterations: 25, ..settings(1000, 0, true, 800) };
    let mut rng = StdRng::seed_from_u64(3);
    let mut root = PackShape::new(rect(0, 0, 100, 100));
    let first = circle_packing::packing::pack_round(&mut root, &cfg, PackState::Running, &mut rng);
    assert_eq!(first, PackState::Stalling(1));
    let rounds = run(&mut root, &cfg, &mut rng, first);
    assert_eq!(rounds, 24);
    assert_eq!(root.occupied_area(), 0);
    assert_eq!(root.children().len(), 0);
}

#[test]
fn end_to_end_square() {
    let cfg = settings(1, 0, true, 500);
    let mut rng = StdRng::seed_from_u64(42);
    let mut root = PackShape::new(rect(0, 0, 100, 100));
    run(&mut root, &cfg, &mut rng, PackState::Running);
    // the run stops at the first placement that reaches half the area, so the
    // result may pass 5000 by the last circle, but never the container's area
    assert!(root.occupied_area() >= 0);
    assert!(root.occupied_area() <= 10000);
    assert!(root.occupied_area() >= 5000);
    check_tree(root.children(), root.occupied_area(), &cfg);
}

#[test]
fn packing_keeps_invariants_with_padding() {
    let cfg = settings(3, 2, true, 700);
    let mut rng = StdRng::seed_from_u64(11);
    let mut root = PackShape::new(rect(0, 0, 300, 200));
    run(&mut root, &cfg, &mut rng, PackState::Running);
    assert!(!root.children().is_empty());
    check_tree(root.children(), root.occupied_area(), &cfg);
}

#[test]
fn packing_a_polygon_with_hole() {
    let cfg = settings(2, 1, true, 600);
    let mut rng = StdRng::seed_from_u64(5);
    let mut p = circle_packing::Polyline::new(vec![(0, -250), (500, 0), (0, 250), (-500, 0)]).unwrap();
    let hole = circle_packing::Polyline::new(vec![(0, -150), (400, 0), (0, 150), (-400, 0)]).unwrap();
    assert!(p.push_hole(hole));
    let mut root = PackShape::new(p);
    run(&mut root, &cfg, &mut rng, PackState::Running);
    check_tree(root.children(), root.occupied_area(), &cfg);
    for c in root.children() {
        let k = c.container();
        assert!(root.sdf(k.x, k.y) <= 0);
    }
}

#[test]
fn next_state_transitions() {
    let cfg = Settings { max_stall_iterations: 3, ..settings(1, 0, true, 500) };
    assert_eq!(next_state(PackState::Stalling(2), true, &cfg), PackState::Running);
    assert_eq!(next_state(PackState::Running, false, &cfg), PackState::Stalling(1));
    assert_eq!(next_state(PackState::Stalling(1), false, &cfg), PackState::Stalling(2));
    assert_eq!(next_state(PackState::Stalling(2), false, &cfg), PackState::Done);
}

#[test]
fn target_reached_is_exact() {
    let cfg = settings(1, 0, true, 500);
    assert!(target_reached(5000, 10000, &cfg));
    assert!(!target_reached(4999, 10000, &cfg));
    assert!(target_reached(2, 3, &cfg));
    assert!(!target_reached(1, 3, &cfg));
}

#[test]
fn radius_accessors() {
    let mut c = PackShape::circle(1, 2, 3);
    assert_eq!(c.get_radius(), 3);
    c.set_radius(-4);
    assert_eq!(c.get_radius(), -4);
    assert_eq!(c.center(), (1, 2));
    assert_eq!(c.children().len(), 0);
    assert_eq!(c.occupied_area(), 0);
}

#[test]
fn nested_circle_stays_inside_parent() {
    let cfg = settings(1, 0, true, 1000);
    let mut root = PackShape::new(rect(-50, -50, 50, 50));
    assert!(root.pack(PackShape::circle(0, 0, 10), &cfg));
    assert!(root.pack(PackShape::circle(3, 3, 40), &cfg));
    let inner = &root.children()[0].children()[0];
    // the centre is sqrt(18) ~ 4.24 away, rounded up to 5
    assert_eq!(inner.get_radius(), 5);
    check_tree(root.children(), root.occupied_area(), &cfg);
}

#[test]
fn pack_at_offers_padded_boundary_distance() {
    let cfg = settings(1, 2, true, 1000);
    let mut root = PackShape::new(rect(0, 0, 100, 100));
    let next = circle_packing::packing::pack_at(&mut root, &cfg, PackState::Stalling(3), 30, 40);
    assert_eq!(next, PackState::Running);
    assert_eq!(root.children()[0].get_radius(), 28);
    assert_eq!(root.children()[0].center(), (30, 40));
    let next = circle_packing::packing::pack_at(&mut root, &cfg, PackState::Running, 1, 1);
    assert_eq!(next, PackState::Stalling(1));
    assert_eq!(root.children().len(), 1);
}
