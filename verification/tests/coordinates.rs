use tile_traffic::coordinates::Tile;

fn tile(x: u32, y: u32, zoom: u32) -> Tile {
    Tile { x, y, zoom }
}

#[test]
fn children_start_with_the_tile_and_its_quadrants() {
    let t = tile(3, 5, 4);
    let c = t.children(5);
    assert_eq!(
        c,
        vec![tile(3, 5, 4), tile(6, 10, 5), tile(7, 10, 5), tile(7, 11, 5), tile(6, 11, 5)]
    );
}

#[test]
fn children_count_every_level() {
    let t = tile(1, 2, 3);
    assert_eq!(t.children(3).len(), 1);
    assert_eq!(t.children(4).len(), 5);
    assert_eq!(t.children(5).len(), 21);
    assert_eq!(t.children(7).len(), 341);
}

#[test]
fn children_above_the_tile_zoom_is_the_tile_alone() {
    let t = tile(9, 9, 6);
    assert_eq!(t.children(2), vec![t]);
}

#[test]
fn children_of_zoom_zero_tile() {
    let t = tile(0, 0, 0);
    let c = t.children(1);
    assert_eq!(c, vec![tile(0, 0, 0), tile(0, 0, 1), tile(1, 0, 1), tile(1, 1, 1), tile(0, 1, 1)]);
}

#[test]
fn children_cover_exactly_the_metatile() {
    let t = tile(2, 1, 2);
    let c = t.children(4);
    // every tile under (2, 1, 2) at zoom 4 spans columns 8..12 and rows 4..8
    for x in 8..12 {
        for y in 4..8 {
            assert!(c.contains(&tile(x, y, 4)));
        }
    }
    for s in &c {
        let k = s.zoom - 2;
        assert_eq!(s.x >> k, 2);
        assert_eq!(s.y >> k, 1);
    }
    for i in 0..c.len() {
        for j in (i + 1)..c.len() {
            assert_ne!(c[i], c[j]);
            assert!(c[i].zoom <= c[j].zoom);
        }
    }
}

#[test]
fn children_quadtree_layout() {
    let t = tile(5, 7, 3);
    let c = t.children(6);
    for j in 1..c.len() {
        let p = c[(j - 1) / 4];
        let q = (j - 1) % 4;
        let dx = if q == 1 || q == 2 { 1 } else { 0 };
        let dy = if q == 2 || q == 3 { 1 } else { 0 };
        assert_eq!(c[j], tile(2 * p.x + dx, 2 * p.y + dy, p.zoom + 1));
    }
}

#[test]
fn children_fit_checks_the_machine_limits() {
    assert!(tile(3, 5, 4).children_fit(8));
    assert!(!tile(u32::MAX, 0, 10).children_fit(11));
    assert!(tile(u32::MAX, 0, 10).children_fit(10));
    assert!(!tile(0, 0, 0).children_fit(40));
}
