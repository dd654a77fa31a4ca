//! Simulated web-map sessions: a metatile whose tiles are requested, and the
//! URL templates they are requested through.
use vstd::prelude::*;
use crate::coordinates::{Tile, covers, descent, descendants, descent_fits, lemma_children_cover_exactly};
use crate::text::{decimal, decimal_string, replace_all, replace_all_str};

verus! {

/// A simulated web-map user session: request number `seed` asks for a URL
/// and the tile behind it.
pub trait WebMapSession {
    fn make_url(&self, seed: usize) -> (String, Tile);
}

/// How tile URLs are built from a template.
#[derive(Clone, Copy, Debug, PartialEq, Eq, Structural)]
pub enum Template {
    /// `{z}`, `{x}` and `{y}` stand for the tile's zoom, column and row.
    Zxy,
    /// `{bbox}` and `{srs}` stand for the tile's bounding box and the
    /// spatial reference system `EPSG:3857`.
    Wms,
}

/// A session that requests the tiles under one metatile, down to a zoom level.
#[derive(Clone, Debug)]
pub struct Metatile {
    metatile: Tile,
    to_zoom: u32,
    template: String,
    template_type: Template,
}

impl Metatile {
    /// The tile whose descendants are requested.
    pub closed spec fn tile(&self) -> Tile {
        self.metatile
    }

    /// The deepest zoom level requested.
    pub closed spec fn target_zoom(&self) -> u32 {
        self.to_zoom
    }

    /// The URL template.
    pub closed spec fn url_template(&self) -> Seq<char> {
        self.template@
    }

    /// The kind of URL template.
    pub closed spec fn kind(&self) -> Template {
        self.template_type
    }

    pub fn new(metatile: Tile, to_zoom: u32, template: String, template_type: Template) -> (m: Self)
        ensures
            m.tile() == metatile,
            m.target_zoom() == to_zoom,
            m.url_template() == template@,
            m.kind() == template_type,
    {
        Metatile { metatile, to_zoom, template, template_type }
    }

    /// The URL template.
    pub fn template(&self) -> (t: &String)
        ensures
            t@ == self.url_template(),
    {
        &self.template
    }

    /// The kind of URL template.
    pub fn template_type(&self) -> (t: Template)
        ensures
            t == self.kind(),
    {
        self.template_type
    }

    /// Whether the tiles under the metatile fit the machine, so that
    /// `pick_tile` may be called.
    pub fn tiles_fit(&self) -> (ok: bool)
        ensures
            ok == descent_fits(self.tile(), self.target_zoom()),
    {
        self.metatile.children_fit(self.to_zoom)
    }

    /// The URL through which `tile` is requested: the template filled with
    /// the tile's zoom, column and row for a ZXY template, or with `bbox`,
    /// the text of the tile's bounding box, for a WMS template.
    pub fn url_for(&self, tile: &Tile, bbox: &str) -> (url: String)
        ensures
            url@ == session_url(self.kind(), self.url_template(), *tile, bbox@),
    {
        match self.template_type {
            Template::Zxy => tile.url_zyx(self.template.as_str()),
            Template::Wms => fill_wms_template(self.template.as_str(), bbox),
        }
    }

    /// The tile that request number `seed` asks for: the tiles from the
    /// metatile down to the target zoom, breadth first, taken round robin.
    pub fn pick_tile(&self, seed: usize) -> (t: Tile)
        requires
            descent_fits(self.tile(), self.target_zoom()),
        ensures
            t == session_tile(self.tile(), self.target_zoom(), seed as int),
    {
        let children = self.metatile.children(self.to_zoom);
        let idx = seed % children.len();
        children[idx]
    }
}

/// The tile that request number `seed` of a session under `t` down to
/// `target_zoom` asks for.
pub open spec fn session_tile(t: Tile, target_zoom: u32, seed: int) -> Tile {
    descendants(t, target_zoom)[seed % (descendants(t, target_zoom).len() as int)]
}

/// Every request of a session asks for a tile that the metatile covers, no
/// deeper than the target zoom; requests `tree_size` apart ask for the same
/// tile.
pub proof fn lemma_session_tiles(t: Tile, target_zoom: u32, seed: int)
    requires
        descent_fits(t, target_zoom),
        seed >= 0,
    ensures
        covers(t, session_tile(t, target_zoom, seed)),
        session_tile(t, target_zoom, seed).zoom <= t.zoom + descent(t, target_zoom),
        session_tile(t, target_zoom, seed + descendants(t, target_zoom).len()) == session_tile(t, target_zoom, seed),
{
    let s = descendants(t, target_zoom);
    let n = s.len() as int;
    crate::coordinates::lemma_tree_size_positive(descent(t, target_zoom));
    let c = s[seed % n];
    assert(s.contains(c));
    lemma_children_cover_exactly(t, target_zoom, c);
    assert((seed + n) % n == seed % n) by (nonlinear_arith)
        requires
            n > 0,
    ;
}

/// The URL of `tile` through `template` of the given kind, where `bbox` is
/// the text of the tile's bounding box.
pub open spec fn session_url(kind: Template, template: Seq<char>, tile: Tile, bbox: Seq<char>) -> Seq<char> {
    match kind {
        Template::Zxy => zxy_url(tile, template),
        Template::Wms => wms_url(template, bbox),
    }
}

/// `template` with `{z}`, `{x}` and `{y}` replaced by the decimal zoom,
/// column and row of `t`.
pub open spec fn zxy_url(t: Tile, template: Seq<char>) -> Seq<char> {
    replace_all(
        replace_all(replace_all(template, "{z}"@, decimal(t.zoom as nat)), "{x}"@, decimal(t.x as nat)),
        "{y}"@,
        decimal(t.y as nat),
    )
}

/// `template` with `{srs}` replaced by `EPSG:3857` and `{bbox}` by `bbox`.
pub open spec fn wms_url(template: Seq<char>, bbox: Seq<char>) -> Seq<char> {
    replace_all(replace_all(template, "{srs}"@, "EPSG:3857"@), "{bbox}"@, bbox)
}

impl Tile {
    /// The URL of this tile through a ZXY template.
    pub fn url_zyx(&self, template: &str) -> (url: String)
        ensures
            url@ == zxy_url(*self, template@),
    {
        proof {
            reveal_strlit("{z}");
            reveal_strlit("{x}");
            reveal_strlit("{y}");
        }
        let z = decimal_string(self.zoom as u64);
        let x = decimal_string(self.x as u64);
        let y = decimal_string(self.y as u64);
        let a = replace_all_str(template, "{z}", z.as_str());
        let b = replace_all_str(a.as_str(), "{x}", x.as_str());
        replace_all_str(b.as_str(), "{y}", y.as_str())
    }
}

/// The URL of a tile through a WMS template, given the text of the tile's
/// bounding box in EPSG:3857 coordinates.
pub fn fill_wms_template(template: &str, bbox: &str) -> (url: String)
    ensures
        url@ == wms_url(template@, bbox@),
{
    proof {
        reveal_strlit("{srs}");
        reveal_strlit("{bbox}");
    }
    let a = replace_all_str(template, "{srs}", "EPSG:3857");
    replace_all_str(a.as_str(), "{bbox}", bbox)
}

} // verus!
