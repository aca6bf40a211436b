use estatic::world::World;

fn all_samples(w: &World) -> Vec<(i128, i128, i128)> {
    let ratio = 2 * w.resolution() as usize - 1;
    let wr = w.width() as usize * ratio;
    let hr = w.height() as usize * ratio;
    let mut out = Vec::new();
    for sy in 0..hr {
        for sx in 0..wr {
            let s = w.sample_at(sx, sy);
            out.push((s.fx, s.fy, s.pot));
        }
    }
    out
}

#[test]
fn charged_cells_enumeration() {
    let mut w = World::new_empty(4, 4, 1);
    assert!(w.update_tile(5, 1, 2));
    assert!(w.update_tile(-3, 0, 0));
    assert!(w.update_tile(7, 3, 3));
    let charges = w.get_charges();
    assert_eq!(charges, vec![(0, 0), (1, 2), (3, 3)]);
    let nonzero = (0..4)
        .flat_map(|x| (0..4).map(move |y| (x, y)))
        .filter(|&(x, y)| w.charge_at(x, y) != 0)
        .count();
    assert_eq!(charges.len(), nonzero);
}

#[test]
fn update_tile_reports_change() {
    let mut w = World::new_empty(3, 3, 1);
    assert!(w.update_tile(5, 1, 1));
    assert_eq!(w.charge_at(1, 1), 5);
    assert!(!w.update_tile(5, 1, 1));
    assert_eq!(w.charge_at(1, 1), 5);
    assert!(w.update_tile(0, 1, 1));
    assert_eq!(w.charge_at(1, 1), 0);
    assert!(!w.update_tile(0, 2, 2));
}

#[test]
fn solve_with_empty_log_is_identity() {
    let mut w = World::new_empty(4, 4, 2);
    w.update_tile(9, 2, 1);
    w.calculate_field();
    assert_eq!(w.pending_changes(), 0);
    let before = all_samples(&w);
    w.calculate_field();
    let after = all_samples(&w);
    assert_eq!(before, after);
}

#[test]
fn add_then_remove_restores_zero() {
    let mut w = World::new_empty(4, 4, 2);
    w.update_tile(7, 1, 1);
    w.calculate_field();
    assert!(all_samples(&w).iter().any(|&s| s != (0, 0, 0)));
    w.update_tile(0, 1, 1);
    w.calculate_field();
    for s in all_samples(&w) {
        assert_eq!(s, (0, 0, 0));
    }
}

#[test]
fn superposition_is_exact() {
    let mut a = World::new_empty(5, 5, 1);
    a.update_tile(40, 1, 1);
    a.calculate_field();
    let mut b = World::new_empty(5, 5, 1);
    b.update_tile(-25, 3, 2);
    b.calculate_field();
    let mut c = World::new_empty(5, 5, 1);
    c.update_tile(40, 1, 1);
    c.update_tile(-25, 3, 2);
    c.calculate_field();
    let sa = all_samples(&a);
    let sb = all_samples(&b);
    let sc = all_samples(&c);
    for i in 0..sc.len() {
        assert_eq!(sc[i].0, sa[i].0 + sb[i].0);
        assert_eq!(sc[i].1, sa[i].1 + sb[i].1);
        assert_eq!(sc[i].2, sa[i].2 + sb[i].2);
    }
}

#[test]
fn resolution_change_matches_fresh() {
    let mut w = World::new_empty(4, 4, 1);
    w.update_tile(12, 0, 3);
    w.update_tile(-8, 2, 1);
    w.calculate_field();
    w.set_resolution(2);
    assert_eq!(w.resolution(), 2);
    w.calculate_field();
    let mut fresh = World::new_empty(4, 4, 2);
    fresh.update_tile(12, 0, 3);
    fresh.update_tile(-8, 2, 1);
    fresh.calculate_field();
    assert_eq!(all_samples(&w), all_samples(&fresh));
}

#[test]
fn resolution_change_rescales_grid() {
    let mut w = World::new_empty(4, 3, 1);
    w.set_resolution(3);
    // ratio is 5, so the sample grid is (4 * 5) x (3 * 5); every sample of
    // the fresh grid is zero until the next solve.
    let ratio = 2 * w.resolution() as usize - 1;
    assert_eq!(ratio, 5);
    for sy in 0..(3 * ratio) {
        for sx in 0..(4 * ratio) {
            let s = w.sample_at(sx, sy);
            assert_eq!((s.fx, s.fy, s.pot), (0, 0, 0));
        }
    }
}

#[test]
fn single_positive_charge_field_points_away() {
    // 4x4 grid at resolution 2 (ratio 3): charge +100 at (1, 1); the force
    // sampled at the continuous position (2.0, 1.5) points away from the
    // charge (positive x component) with a nonzero potential.
    let mut w = World::new_empty(4, 4, 2);
    w.update_tile(100, 1, 1);
    w.calculate_field();
    let px: i64 = 2 * 65536;
    let py: i64 = 65536 + 32768;
    let s = w.field().get(px, py);
    assert!(s.fx > 0);
    assert!(s.pot != 0);
    assert!(s.pot > 0);
}

#[test]
fn borders_of_corner_charge() {
    let mut w = World::new_empty(3, 3, 1);
    w.update_tile(5, 0, 0);
    let borders = w.get_borders();
    assert_eq!(borders, vec![(5, 1, 0), (5, 0, 1), (5, 1, 1)]);
}

#[test]
fn borders_keep_one_entry_per_charge_value() {
    // Two charges of different sign both border the empty cell (1, 0):
    // the dedup key includes the charge, so both entries stay.
    let mut w = World::new_empty(3, 3, 1);
    w.update_tile(5, 0, 0);
    w.update_tile(-5, 2, 0);
    let borders = w.get_borders();
    assert!(borders.contains(&(5, 1, 0)));
    assert!(borders.contains(&(-5, 1, 0)));
    let dup = borders
        .iter()
        .filter(|e| **e == (5, 1, 0))
        .count();
    assert_eq!(dup, 1);
}

#[test]
fn in_bounds_probes_outside() {
    let w = World::new_empty(4, 3, 1);
    assert!(w.in_bounds(0, 0));
    assert!(w.in_bounds(3, 2));
    assert!(!w.in_bounds(-1, 0));
    assert!(!w.in_bounds(4, 0));
    assert!(!w.in_bounds(0, 3));
    assert!(!w.in_bounds(i32::MIN, i32::MIN));
}

#[test]
fn repeated_edits_between_solves_stay_exact() {
    // The same cell edited several times before one solve: the log keeps
    // the cell's accounted value, so the solve still lands on the exact
    // superposition field — here, back to all zero.
    let mut w = World::new_empty(4, 4, 1);
    w.update_tile(3, 1, 1);
    w.update_tile(7, 1, 1);
    w.update_tile(0, 1, 1);
    w.calculate_field();
    for s in all_samples(&w) {
        assert_eq!(s, (0, 0, 0));
    }
}

#[test]
fn edits_after_resolution_change() {
    // Editing a cell that the resolution change already re-seeded must
    // not double-count it at the next solve.
    let mut w = World::new_empty(4, 4, 1);
    w.update_tile(9, 1, 1);
    w.calculate_field();
    w.set_resolution(2);
    w.update_tile(5, 1, 1);
    w.update_tile(-3, 2, 2);
    w.calculate_field();
    let mut fresh = World::new_empty(4, 4, 2);
    fresh.update_tile(5, 1, 1);
    fresh.update_tile(-3, 2, 2);
    fresh.calculate_field();
    assert_eq!(all_samples(&w), all_samples(&fresh));
}

#[test]
fn exact_contribution_values() {
    // Charge 1 at two half-subcell units along x, ratio 1: the squared
    // distance is 4, its root 2, so the force is 1 * 2 * 262144 / (2 * 4)
    // = 65536 along x and the potential 1 * 131072 / 2 = 65536.
    let s = estatic::field::get_field(1, 2, 0, 1);
    assert_eq!((s.fx, s.fy, s.pot), (65536, 0, 65536));
    // The same displacement with the sign flipped flips every component.
    let n = estatic::field::get_field(-1, 2, 0, 1);
    assert_eq!((n.fx, n.fy, n.pot), (-65536, 0, -65536));
    // Zero displacement: the degenerate self-sample has no field.
    let z = estatic::field::get_field(100, 0, 0, 3);
    assert_eq!((z.fx, z.fy, z.pot), (0, 0, 0));
}

#[test]
fn exact_solver_values() {
    // One unit charge at tile (0, 0) of a 3x1 grid at ratio 1: the
    // subcell (2, 0) lies four half-subcell units away, so it holds
    // exactly the contribution (16384, 0, 32768).
    let mut w = World::new_empty(3, 1, 1);
    w.update_tile(1, 0, 0);
    w.calculate_field();
    let s = w.sample_at(2, 0);
    assert_eq!((s.fx, s.fy, s.pot), (16384, 0, 32768));
}

#[test]
fn direction_buckets() {
    // A tenth-of-a-radian quantization: along +x the angle is 0; along +y
    // it is pi/2, which lands in bucket 16; along -x it is pi, bucket 31;
    // the zero vector is defined as bucket 0.
    assert_eq!(estatic::trace::angle_bucket(65536, 0), 0);
    assert_eq!(estatic::trace::angle_bucket(0, 65536), 16);
    assert_eq!(estatic::trace::angle_bucket(-65536, 0), 31);
    assert_eq!(estatic::trace::angle_bucket(0, -65536), -16);
    assert_eq!(estatic::trace::angle_bucket(0, 0), 0);
}

#[test]
fn minimal_world() {
    let mut w = World::new_empty(1, 1, 1);
    w.update_tile(3, 0, 0);
    w.calculate_field();
    assert!(w.get_borders().is_empty());
    assert!(w.calculate_lines().is_empty());
    // The only subcell coincides with the charge center: no self-field.
    let s = w.sample_at(0, 0);
    assert_eq!((s.fx, s.fy, s.pot), (0, 0, 0));
}
