use estatic::world::World;

fn dist2_from(px: i64, py: i64, cx: i64, cy: i64) -> i128 {
    let dx = (px - cx) as i128;
    let dy = (py - cy) as i128;
    dx * dx + dy * dy
}

#[test]
fn isolated_positive_charge_traces_outward() {
    // A single positive charge in the middle of an 8x8 grid: at least one
    // traced line starts adjacent to the charge and its points move
    // monotonically farther from it until it leaves the grid or hits the
    // step cap.
    let mut w = World::new_empty(8, 8, 1);
    w.update_tile(100, 3, 3);
    w.calculate_field();
    let lines = w.calculate_lines();
    assert!(!lines.is_empty());
    // Center of the charged tile, fixed-point.
    let cx: i64 = 3 * 65536 + 32768;
    let cy: i64 = 3 * 65536 + 32768;
    let mut found = false;
    for line in &lines {
        assert!(!line.is_empty());
        let first = line[0];
        // Adjacent: the seed center is at most ~1.5 tiles away.
        let near = dist2_from(first.0, first.1, cx, cy) <= (2 * 65536) as i128 * (2 * 65536) as i128;
        let mut monotone = true;
        for k in 1..line.len() {
            let d_prev = dist2_from(line[k - 1].0, line[k - 1].1, cx, cy);
            let d_here = dist2_from(line[k].0, line[k].1, cx, cy);
            if d_here < d_prev {
                monotone = false;
            }
        }
        if near && monotone && line.len() >= 2 {
            found = true;
        }
    }
    assert!(found);
}

#[test]
fn isolated_negative_charge_lines_run_away() {
    // Tracing a negative seed walks against the field, away from the
    // charge; with no positive charge anywhere each such line leaves the
    // grid (none terminates on a charge) and its final point is farther
    // from the charge than its first.
    let mut w = World::new_empty(8, 8, 1);
    w.update_tile(-100, 3, 3);
    w.calculate_field();
    let lines = w.calculate_lines();
    let cx: i64 = 3 * 65536 + 32768;
    let cy: i64 = 3 * 65536 + 32768;
    for line in &lines {
        assert!(!line.is_empty());
        let first = line[0];
        let last = line[line.len() - 1];
        assert!(dist2_from(last.0, last.1, cx, cy) >= dist2_from(first.0, first.1, cx, cy));
    }
}

#[test]
fn no_charges_no_lines() {
    let mut w = World::new_empty(6, 6, 2);
    w.calculate_field();
    assert!(w.get_borders().is_empty());
    assert!(w.calculate_lines().is_empty());
}

#[test]
fn opposite_charges_connect() {
    // A positive and a negative charge: positive-seeded lines follow the
    // field and at least one of them ends on the negative charge's tile.
    let mut w = World::new_empty(8, 8, 1);
    w.update_tile(100, 2, 3);
    w.update_tile(-100, 5, 3);
    w.calculate_field();
    let lines = w.calculate_lines();
    assert!(!lines.is_empty());
    // A line that terminates on the negative charge records its last
    // point just before stepping into that tile, so at least one line
    // must end within the negative tile's immediate neighbourhood.
    let mut reached = false;
    for line in &lines {
        if let Some(last) = line.last() {
            let tx = last.0 / 65536;
            let ty = last.1 / 65536;
            if (4..=6).contains(&tx) && (2..=4).contains(&ty) {
                reached = true;
            }
        }
    }
    assert!(reached);
}
