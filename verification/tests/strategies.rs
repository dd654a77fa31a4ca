use tile_traffic::coordinates::Tile;
use tile_traffic::strategies::{fill_wms_template, Metatile, Template, WebMapSession};

#[test]
fn url_zyx_fills_the_template() {
    let t = Tile { x: 12, y: 34, zoom: 7 };
    assert_eq!(
        t.url_zyx("http://localhost:7800/osm.points/{z}/{x}/{y}.pbf"),
        "http://localhost:7800/osm.points/7/12/34.pbf"
    );
    assert_eq!(t.url_zyx("/{y}/{y}/{x}"), "/34/34/12");
}

#[test]
fn fill_wms_template_sets_srs_and_bbox() {
    let url = fill_wms_template(
        "http://localhost:3080/?SRS={srs}&BBOX={bbox}&WIDTH=512",
        "0,1,2,3",
    );
    assert_eq!(url, "http://localhost:3080/?SRS=EPSG:3857&BBOX=0,1,2,3&WIDTH=512");
}

#[test]
fn pick_tile_goes_round_the_children() {
    let t = Tile { x: 1, y: 1, zoom: 2 };
    let m = Metatile::new(t, 3, "{z}/{x}/{y}".to_string(), Template::Zxy);
    assert!(m.tiles_fit());
    let children = t.children(3);
    for seed in 0..12 {
        assert_eq!(m.pick_tile(seed), children[seed % 5]);
    }
    assert_eq!(m.template(), "{z}/{x}/{y}");
    assert_eq!(m.template_type(), Template::Zxy);
}

#[test]
fn url_for_fills_the_template_of_its_kind() {
    let t = Tile { x: 12, y: 34, zoom: 7 };
    let zxy = Metatile::new(t, 8, "/{z}/{x}/{y}.pbf".to_string(), Template::Zxy);
    assert_eq!(zxy.url_for(&t, "ignored"), "/7/12/34.pbf");
    let wms = Metatile::new(t, 8, "/?SRS={srs}&BBOX={bbox}".to_string(), Template::Wms);
    assert_eq!(wms.url_for(&t, "0,1,2,3"), "/?SRS=EPSG:3857&BBOX=0,1,2,3");
}

struct ZxySession(Metatile);

impl WebMapSession for ZxySession {
    fn make_url(&self, seed: usize) -> (String, Tile) {
        let tile = self.0.pick_tile(seed);
        (self.0.url_for(&tile, ""), tile)
    }
}

#[test]
fn a_session_requests_the_metatile_first_then_its_quadrants() {
    let t = Tile { x: 3, y: 5, zoom: 4 };
    let s = ZxySession(Metatile::new(t, 5, "{z}/{x}/{y}".to_string(), Template::Zxy));
    assert_eq!(s.make_url(0), ("4/3/5".to_string(), t));
    assert_eq!(s.make_url(1).0, "5/6/10");
    assert_eq!(s.make_url(3).0, "5/7/11");
    assert_eq!(s.make_url(5).0, "4/3/5");
}
