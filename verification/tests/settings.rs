use orbit_sense::settings::{CartoDark, MapStyle};

#[test]
fn map_style_setting_round_trip() {
    for style in [MapStyle::OpenStreetMap, MapStyle::CartoDark] {
        assert_eq!(MapStyle::from_setting(style.setting_name()), style);
    }
    assert_eq!(MapStyle::OpenStreetMap.setting_name(), "OpenStreetMap");
    assert_eq!(MapStyle::CartoDark.setting_name(), "CartoDark");
    assert_eq!(MapStyle::from_setting("something else"), MapStyle::CartoDark);
    assert_eq!(MapStyle::from_setting(""), MapStyle::CartoDark);
}

#[test]
fn carto_dark_tile_urls() {
    assert_eq!(
        CartoDark.tile_url(3, 4, 2),
        "https://basemaps.cartocdn.com/rastertiles/dark_all/3/4/2.png"
    );
    assert_eq!(
        CartoDark.tile_url(19, 262143, 0),
        "https://basemaps.cartocdn.com/rastertiles/dark_all/19/262143/0.png"
    );
}
