use collision2d::components::FX_ONE;
use collision2d::morton::bit_separate;
use collision2d::quadtree::QuadTreeGrid;

fn unit(v: i64) -> i64 {
    v * FX_ONE
}

fn field() -> QuadTreeGrid {
    QuadTreeGrid::new(4, 0, 0, unit(640), unit(480))
}

#[test]
fn bit_separate_spreads_the_bits() {
    assert_eq!(bit_separate(0), 0);
    assert_eq!(bit_separate(1), 1);
    assert_eq!(bit_separate(0b11), 0b101);
    assert_eq!(bit_separate(0b1011), 0b1000101);
    assert_eq!(bit_separate(0xFFFF), 0x55555555);
}

#[test]
fn overlapping_boxes_are_always_paired() {
    let mut g = field();
    // two overlapping unit-ish boxes and one far away
    g.add_entity(unit(0), unit(0), unit(16), unit(16), 0);
    g.add_entity(unit(10), unit(0), unit(16), unit(16), 1);
    g.add_entity(unit(300), unit(300), unit(16), unit(16), 2);
    let pairs = g.iter_entity_pair();
    assert!(pairs.contains(&(0, 1)));
}

#[test]
fn pairs_are_reported_once_each() {
    let mut g = field();
    g.add_entity(unit(0), unit(0), unit(16), unit(16), 0);
    g.add_entity(unit(10), unit(0), unit(16), unit(16), 1);
    g.add_entity(unit(5), unit(5), unit(16), unit(16), 2);
    let pairs = g.iter_entity_pair();
    let mut seen: Vec<(usize, usize)> = Vec::new();
    for p in pairs.iter() {
        assert!(p.0 < p.1);
        assert!(!seen.contains(p));
        seen.push(*p);
    }
    assert!(seen.contains(&(0, 1)));
    assert!(seen.contains(&(0, 2)));
    assert!(seen.contains(&(1, 2)));
}

#[test]
fn boxes_spanning_node_borders_are_not_missed() {
    let mut g = field();
    // one box straddling the playfield center, one box in a fine cell next
    // to it: they overlap, so the pair must be reported
    g.add_entity(unit(310), unit(230), unit(20), unit(20), 0);
    g.add_entity(unit(318), unit(238), unit(4), unit(4), 1);
    let pairs = g.iter_entity_pair();
    assert!(pairs.contains(&(0, 1)));
}

#[test]
fn out_of_range_boxes_are_clamped_in() {
    let mut g = field();
    // defensive clamp: boxes outside the region still land in border cells
    g.add_entity(unit(-50), unit(-50), unit(16), unit(16), 0);
    g.add_entity(unit(-40), unit(-44), unit(16), unit(16), 1);
    let pairs = g.iter_entity_pair();
    assert!(pairs.contains(&(0, 1)));
}

#[test]
fn a_fresh_grid_reports_nothing() {
    let g = field();
    let pairs = g.iter_entity_pair();
    assert_eq!(pairs.len(), 0);
}
