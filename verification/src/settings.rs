//! Persisted map settings and tile sources.

use vstd::prelude::*;
use crate::text::{
    all_digits, decimal, digits_value, lemma_decimal_injective, lemma_decimal_reads_back,
    push_decimal,
};

verus! {

/// Supported map tile providers.
#[derive(Clone, Copy, Debug, PartialEq, Eq, Structural)]
pub enum MapStyle {
    /// Standard OpenStreetMap styled light theme.
    OpenStreetMap,
    /// Dark-themed CartoDB base map for high contrast satellite tracking.
    CartoDark,
}

/// The name under which a map style is saved in the settings.
pub open spec fn style_setting(style: MapStyle) -> Seq<char> {
    match style {
        MapStyle::OpenStreetMap => "OpenStreetMap"@,
        MapStyle::CartoDark => "CartoDark"@,
    }
}

/// The map style that a saved setting names: `"OpenStreetMap"` names the
/// OpenStreetMap style, and any other text the dark CartoDB style.
pub open spec fn style_from_setting(s: Seq<char>) -> MapStyle {
    if s == "OpenStreetMap"@ {
        MapStyle::OpenStreetMap
    } else {
        MapStyle::CartoDark
    }
}

impl MapStyle {
    /// The name under which this style is saved in the settings.
    pub fn setting_name(&self) -> (s: &'static str)
        ensures
            s@ == style_setting(*self),
    {
        match self {
            MapStyle::OpenStreetMap => "OpenStreetMap",
            MapStyle::CartoDark => "CartoDark",
        }
    }

    /// The style that a saved setting names.
    pub fn from_setting(setting: &str) -> (style: MapStyle)
        ensures
            style == style_from_setting(setting@),
    {
        let saved = setting.to_owned();
        let osm = "OpenStreetMap".to_owned();
        if saved == osm {
            MapStyle::OpenStreetMap
        } else {
            MapStyle::CartoDark
        }
    }
}

/// Saving a map style and loading the setting back gives the same style.
pub proof fn lemma_map_style_round_trip(style: MapStyle)
    ensures
        style_from_setting(style_setting(style)) == style,
{
    reveal_strlit("OpenStreetMap");
    reveal_strlit("CartoDark");
    if style == MapStyle::CartoDark {
        assert(style_setting(style)[0] != "OpenStreetMap"@[0]);
    }
}

/// The raster tile URL of CartoDB's dark basemap for a tile.
pub open spec fn carto_dark_tile_url(zoom: nat, x: nat, y: nat) -> Seq<char> {
    "https://basemaps.cartocdn.com/rastertiles/dark_all/"@ + decimal(zoom) + "/"@ + decimal(x)
        + "/"@ + decimal(y) + ".png"@
}

/// Where neither `a` nor `c` holds `sep`, the texts `a`, `sep`, `b` and `c`,
/// `sep`, `d` are equal only when `a == c` and `b == d`.
proof fn lemma_split_at_separator(a: Seq<char>, b: Seq<char>, c: Seq<char>, d: Seq<char>, sep: char)
    requires
        forall|i: int| 0 <= i < a.len() ==> a[i] != sep,
        forall|i: int| 0 <= i < c.len() ==> c[i] != sep,
        a + seq![sep] + b == c + seq![sep] + d,
    ensures
        a == c,
        b == d,
{
    let l = a + seq![sep] + b;
    let r = c + seq![sep] + d;
    if a.len() < c.len() {
        assert(l[a.len() as int] == sep);
        assert(r[a.len() as int] == c[a.len() as int]);
    }
    if c.len() < a.len() {
        assert(r[c.len() as int] == sep);
        assert(l[c.len() as int] == a[c.len() as int]);
    }
    assert(a =~= l.subrange(0, a.len() as int));
    assert(c =~= r.subrange(0, c.len() as int));
    assert(b =~= l.subrange(a.len() as int + 1, l.len() as int));
    assert(d =~= r.subrange(c.len() as int + 1, r.len() as int));
}

/// A decimal numeral holds neither `'/'` nor `'.'`.
proof fn lemma_decimal_has_no_separator(n: nat)
    ensures
        forall|i: int| 0 <= i < decimal(n).len() ==> decimal(n)[i] != '/' && decimal(n)[i] != '.',
{
    lemma_decimal_reads_back(n);
    assert forall|i: int| 0 <= i < decimal(n).len() implies decimal(n)[i] != '/' && decimal(
        n,
    )[i] != '.' by {
        assert('0' <= decimal(n)[i] <= '9');
    }
}

/// The basemap's address that every dark tile URL starts with.
pub open spec fn carto_dark_base() -> Seq<char> {
    "https://basemaps.cartocdn.com/rastertiles/dark_all/"@
}

/// A tile URL names its tile: after the basemap's address it holds the zoom,
/// the column `x` and the row `y` as base-10 digit strings, separated by
/// `'/'`, and ends in `".png"`.
pub proof fn lemma_tile_url_names_tile(zoom: nat, x: nat, y: nat)
    ensures
        exists|a: Seq<char>, b: Seq<char>, c: Seq<char>|
            {
                &&& all_digits(a) && digits_value(a) == zoom
                &&& all_digits(b) && digits_value(b) == x
                &&& all_digits(c) && digits_value(c) == y
                &&& #[trigger] carto_dark_tile_url(zoom, x, y) == carto_dark_base() + a + "/"@ + b
                    + "/"@ + c + ".png"@
            },
{
    lemma_decimal_reads_back(zoom);
    lemma_decimal_reads_back(x);
    lemma_decimal_reads_back(y);
    assert(carto_dark_tile_url(zoom, x, y) == carto_dark_base() + decimal(zoom) + "/"@ + decimal(x)
        + "/"@ + decimal(y) + ".png"@);
}

/// The part of a tile URL after the basemap's address, with the separators
/// spelled as characters.
spec fn tile_tail(zoom: nat, x: nat, y: nat) -> Seq<char> {
    decimal(zoom) + seq!['/'] + (decimal(x) + seq!['/'] + (decimal(y) + seq!['.'] + seq![
        'p',
        'n',
        'g',
    ]))
}

/// A tile URL is the basemap's address followed by `tile_tail`.
proof fn lemma_tile_url_tail(zoom: nat, x: nat, y: nat)
    ensures
        carto_dark_tile_url(zoom, x, y) == carto_dark_base() + tile_tail(zoom, x, y),
{
    reveal_strlit("/");
    reveal_strlit(".png");
    assert(carto_dark_tile_url(zoom, x, y) =~= carto_dark_base() + tile_tail(zoom, x, y));
}

/// Equal texts with equal beginnings have equal rests.
proof fn lemma_drop_common_prefix(p: Seq<char>, t1: Seq<char>, t2: Seq<char>)
    requires
        p + t1 == p + t2,
    ensures
        t1 == t2,
{
    assert(t1 =~= (p + t1).subrange(p.len() as int, (p + t1).len() as int));
    assert(t2 =~= (p + t2).subrange(p.len() as int, (p + t2).len() as int));
}

/// Different tiles have different URLs: the URL determines the zoom, `x` and
/// `y`.
pub proof fn lemma_tile_url_injective(z1: nat, x1: nat, y1: nat, z2: nat, x2: nat, y2: nat)
    requires
        carto_dark_tile_url(z1, x1, y1) == carto_dark_tile_url(z2, x2, y2),
    ensures
        z1 == z2,
        x1 == x2,
        y1 == y2,
{
    let png = seq!['p', 'n', 'g'];
    lemma_tile_url_tail(z1, x1, y1);
    lemma_tile_url_tail(z2, x2, y2);
    lemma_drop_common_prefix(carto_dark_base(), tile_tail(z1, x1, y1), tile_tail(z2, x2, y2));
    lemma_decimal_has_no_separator(z1);
    lemma_decimal_has_no_separator(z2);
    lemma_decimal_has_no_separator(x1);
    lemma_decimal_has_no_separator(x2);
    lemma_decimal_has_no_separator(y1);
    lemma_decimal_has_no_separator(y2);
    lemma_split_at_separator(
        decimal(z1),
        decimal(x1) + seq!['/'] + (decimal(y1) + seq!['.'] + png),
        decimal(z2),
        decimal(x2) + seq!['/'] + (decimal(y2) + seq!['.'] + png),
        '/',
    );
    lemma_split_at_separator(
        decimal(x1),
        decimal(y1) + seq!['.'] + png,
        decimal(x2),
        decimal(y2) + seq!['.'] + png,
        '/',
    );
    lemma_split_at_separator(decimal(y1), png, decimal(y2), png, '.');
    lemma_decimal_injective(z1, z2);
    lemma_decimal_injective(x1, x2);
    lemma_decimal_injective(y1, y2);
}

/// Custom tile provider using the free CartoDB dark basemap.
pub struct CartoDark;

impl CartoDark {
    /// The URL of the tile at `zoom`, `x`, `y`.
    pub fn tile_url(&self, zoom: u8, x: u32, y: u32) -> (url: String)
        ensures
            url@ == carto_dark_tile_url(zoom as nat, x as nat, y as nat),
    {
        let mut url = "https://basemaps.cartocdn.com/rastertiles/dark_all/".to_owned();
        push_decimal(&mut url, zoom as u64);
        url.append("/");
        push_decimal(&mut url, x as u64);
        url.append("/");
        push_decimal(&mut url, y as u64);
        url.append(".png");
        url
    }
}

} // verus!
