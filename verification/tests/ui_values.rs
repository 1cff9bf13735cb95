use frostify::animation::{AnimationDirection, AnimationRange, AnimationWhen, EasingFunction};
use frostify::assets::{
    asset_manifest, get_asset, initialize_assets, AppFonts, AssetError, AssetStore, Icon, RgbaImg,
};
use frostify::entity::{ComponentType, NamedRef, NotchPosition, NotchType};
use frostify::layout::{Anchor, Position, Size};
use frostify::playback::fmt_duration;
use frostify::views::View;

#[test]
fn fmt_duration_minutes_and_padded_seconds() {
    assert_eq!(fmt_duration(61_000), "1:01");
    assert_eq!(fmt_duration(0), "0:00");
    assert_eq!(fmt_duration(999), "0:00");
    assert_eq!(fmt_duration(59_999), "0:59");
    assert_eq!(fmt_duration(3_599_999), "59:59");
    assert_eq!(fmt_duration(3_600_000), "60:00");
    assert_eq!(fmt_duration(754_321), "12:34");
}

#[test]
fn fmt_duration_large_value() {
    assert_eq!(fmt_duration(u64::MAX), "307445734561825:51");
}

#[test]
fn flippable_directions_are_the_alternating_ones() {
    assert!(!AnimationDirection::Forward.is_flippable());
    assert!(!AnimationDirection::Backward.is_flippable());
    assert!(AnimationDirection::Alternate.is_flippable());
    assert!(AnimationDirection::AlternateReverse.is_flippable());
}

#[test]
fn animation_range_keeps_both_ends() {
    let r = AnimationRange::new(3u32, 7u32);
    assert_eq!(r.from, 3);
    assert_eq!(r.to, 7);
    assert_ne!(AnimationWhen::Hover, AnimationWhen::Forever);
    assert_ne!(EasingFunction::Linear, EasingFunction::EaseInOutElastic);
}

#[test]
fn defaults() {
    assert_eq!(View::default(), View::Splash);
    assert_eq!(Anchor::default(), Anchor::Center);
    assert_eq!(Position::default(), Position::Flex);
    assert_eq!(NotchType::default(), NotchType::Disabled);
    assert_eq!(NotchPosition::default(), NotchPosition::Center);
    assert_eq!(AppFonts::default(), AppFonts::CenturyGothic);
    let s = Size { width: 4u32, height: 2u32 };
    assert_eq!(s, Size { width: 4, height: 2 });
}

#[test]
fn notch_codes() {
    assert_eq!(NotchType::Disabled.to_u32(), 0);
    assert_eq!(NotchType::Top.to_u32(), 1);
    assert_eq!(NotchType::Right.to_u32(), 2);
    assert_eq!(NotchType::Bottom.to_u32(), 3);
    assert_eq!(NotchType::Left.to_u32(), 4);
    assert_eq!(NotchPosition::Start.to_u32(), 0);
    assert_eq!(NotchPosition::Center.to_u32(), 1);
    assert_eq!(NotchPosition::End.to_u32(), 2);
}

#[test]
fn renderable_component_types() {
    assert!(!ComponentType::Container.is_renderable());
    assert!(ComponentType::Text.is_renderable());
    assert!(ComponentType::FrostedGlass.is_renderable());
}

#[test]
fn named_ref_names() {
    assert_eq!(NamedRef::SettingsModal.as_str(), "SettingsModal");
    assert_eq!(NamedRef::CurrentSongAlbumArt.as_str(), "CurrentSongAlbumArt");
}

#[test]
fn font_names() {
    assert_eq!(AppFonts::CenturyGothic.as_str(), "CenturyGothic");
    assert_eq!(AppFonts::CenturyGothicBold.as_str(), "CenturyGothicBold");
    assert_eq!(AppFonts::CenturyGothic.as_family_name(), "Century Gothic");
    assert_eq!(AppFonts::CenturyGothicBold.as_family_name(), "Century Gothic");
}

#[test]
fn icon_files() {
    assert_eq!(Icon::Menu.svg_file(), "icons/menu.svg");
    assert_eq!(Icon::SkipForward.svg_file(), "icons/skip-forward.svg");
    assert_eq!(Icon::Heart.svg_file(), "icons/heart.svg");
    let all = Icon::all();
    assert_eq!(all.len(), 19);
    assert_eq!(all[0], Icon::Menu);
    assert_eq!(all[18], Icon::Heart);
}

#[test]
fn asset_store_insert_get_replace() {
    let mut store = AssetStore::new();
    assert!(store.get("a.png").is_none());
    store.insert("a.png".to_string(), vec![1, 2, 3]);
    store.insert("b.png".to_string(), vec![4]);
    assert_eq!(store.get("a.png"), Some(&[1u8, 2, 3][..]));
    store.insert("a.png".to_string(), vec![9]);
    assert_eq!(get_asset(&store, "a.png"), Some(&[9u8][..]));
    assert_eq!(get_asset(&store, "b.png"), Some(&[4u8][..]));
    assert!(get_asset(&store, "c.png").is_none());
}

#[test]
fn bundled_assets_are_keyed_by_name_or_alias() {
    let manifest = asset_manifest();
    assert_eq!(manifest.len(), 16);
    assert_eq!(manifest[0], ("icons/close.png", "close.png"));
    assert_eq!(manifest[14], ("fonts/CenturyGothic.ttf", "CenturyGothic"));
    let contents: Vec<Vec<u8>> = (0..16u8).map(|i| vec![i]).collect();
    let store = initialize_assets(contents);
    assert_eq!(get_asset(&store, "close.png"), Some(&[0u8][..]));
    assert_eq!(get_asset(&store, "album_art.png"), Some(&[11u8][..]));
    assert_eq!(get_asset(&store, "CenturyGothicBold"), Some(&[15u8][..]));
    assert!(get_asset(&store, "icons/close.png").is_none());
    assert!(get_asset(&store, "CenturyGothic.ttf").is_none());
}

fn tiny_png() -> Vec<u8> {
    let mut img = image::RgbaImage::new(2, 1);
    img.put_pixel(0, 0, image::Rgba([255, 0, 0, 255]));
    img.put_pixel(1, 0, image::Rgba([0, 0, 255, 128]));
    let mut out = std::io::Cursor::new(Vec::new());
    img.write_to(&mut out, image::ImageFormat::Png).unwrap();
    out.into_inner()
}

#[test]
fn rgba_img_decodes_stored_png() {
    let png = tiny_png();
    let mut store = AssetStore::new();
    store.insert("t.png".to_string(), png.clone());
    let img = RgbaImg::new(&store, "t.png").unwrap();
    assert_eq!(img.width, 2);
    assert_eq!(img.height, 1);
    assert_eq!(img.bytes, vec![255, 0, 0, 255, 0, 0, 255, 128]);
    assert_ne!(img.bytes, png);
}

#[test]
fn rgba_img_missing_asset_is_not_found() {
    let store = AssetStore::new();
    assert!(matches!(RgbaImg::new(&store, "none.png"), Err(AssetError::NotFound)));
}

#[test]
fn rgba_img_garbage_is_load_error() {
    let mut store = AssetStore::new();
    store.insert("bad.png".to_string(), vec![0xFF; 16]);
    assert!(matches!(RgbaImg::new(&store, "bad.png"), Err(AssetError::ImageLoadError)));
}

#[test]
fn rgba_img_from_decoded() {
    let ok = RgbaImg::from_decoded(Some((vec![1, 2, 3, 4], 1, 1))).unwrap();
    assert_eq!(ok.bytes, vec![1, 2, 3, 4]);
    assert_eq!((ok.width, ok.height), (1, 1));
    assert!(matches!(RgbaImg::from_decoded(None), Err(AssetError::ImageLoadError)));
}
