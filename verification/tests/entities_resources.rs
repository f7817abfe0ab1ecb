use std::io::Cursor;
use std::path::Path;

use kdr::entities::{
    parse_i32, is_model_entity, is_nodraw, classify_entity, assign_world_indices, EntityClass, EntityKeys,
    EntityModel, CustomRender, FULL_RENDERAMT_BITS,
};
use kdr::resources::{
    skybox_file_paths, ResourceMap, load_skybox, res_file_wad_paths, external_texture_names, all_textures_listed,
    take_wad_textures, has_wad_extension, keys_with_suffix, model_requests, wad_plan, WadPlan, scanned_wad_names,
};

#[test]
fn parse_i32_matches_std() {
    let cases = [
        "", "+", "-", "0", "-0", "+12", "12", "2147483647", "2147483648", "-2147483648", "-2147483649", "12a", " 1",
        "99999999999", "007", "1_000", "+-1", "--1", "٣", "00000000000000000000001",
    ];
    for c in cases {
        assert_eq!(parse_i32(c), c.parse::<i32>().ok(), "parse {c:?}");
    }
}

fn keys<'a>(classname: Option<&'a str>, model: Option<&'a str>) -> EntityKeys<'a> {
    EntityKeys { classname, model, rendermode: None, renderamt_bits: None, renderfx: None }
}

const NODRAW: [&str; 2] = ["func_ladder", "func_hostage_rescue"];

#[test]
fn model_and_nodraw_classes() {
    assert!(is_model_entity("cycler_sprite"));
    assert!(is_model_entity("env_sprite"));
    assert!(!is_model_entity("cycler"));
    assert!(is_nodraw("trigger_once", &NODRAW));
    assert!(is_nodraw("func_ladder", &NODRAW));
    assert!(!is_nodraw("func_wall", &NODRAW));
    assert!(!is_nodraw("trigger", &NODRAW));
}

#[test]
fn classify_world_and_ignored_entities() {
    assert!(matches!(classify_entity(0, &keys(None, None), &NODRAW), EntityClass::Worldspawn));
    assert!(matches!(classify_entity(3, &keys(Some("func_wall"), None), &NODRAW), EntityClass::Ignored));
    assert!(matches!(classify_entity(3, &keys(None, Some("*1")), &NODRAW), EntityClass::Ignored));
    assert!(matches!(classify_entity(3, &keys(Some("info_target"), Some("models/a.mdl")), &NODRAW), EntityClass::Ignored));
}

#[test]
fn classify_brush_entities() {
    match classify_entity(2, &keys(Some("func_wall"), Some("*3")), &NODRAW) {
        EntityClass::Brush(EntityModel::OpaqueEntityBrush((3, r))) => {
            assert_eq!(r, CustomRender { rendermode: 0, renderamt_bits: FULL_RENDERAMT_BITS, renderfx: 0 });
        }
        _ => panic!("expected an opaque brush"),
    }
    let mut k = keys(Some("func_illusionary"), Some("*12"));
    k.rendermode = Some("2");
    k.renderamt_bits = Some(100.0f32.to_bits());
    k.renderfx = Some("4");
    match classify_entity(2, &k, &NODRAW) {
        EntityClass::Brush(EntityModel::TransparentEntityBrush((12, r))) => {
            assert_eq!(r, CustomRender { rendermode: 2, renderamt_bits: 100.0f32.to_bits(), renderfx: 4 });
        }
        _ => panic!("expected a transparent brush"),
    }
    // a full render amount makes a blended mode opaque
    k.renderamt_bits = Some(255.0f32.to_bits());
    assert!(matches!(
        classify_entity(2, &k, &NODRAW),
        EntityClass::Brush(EntityModel::OpaqueEntityBrush((12, CustomRender { rendermode: 2, .. })))
    ));
    // a missing render amount is zero
    k.renderamt_bits = None;
    match classify_entity(2, &k, &NODRAW) {
        EntityClass::Brush(EntityModel::TransparentEntityBrush((12, r))) => assert_eq!(r.renderamt_bits, 0),
        _ => panic!("expected a transparent brush"),
    }
    // render mode 4 is opaque whatever the amount; bad numbers read as zero
    k.rendermode = Some("4");
    k.renderamt_bits = Some(1.0f32.to_bits());
    k.renderfx = Some("x");
    match classify_entity(2, &k, &NODRAW) {
        EntityClass::Brush(EntityModel::OpaqueEntityBrush((12, r))) => {
            assert_eq!(r, CustomRender { rendermode: 4, renderamt_bits: FULL_RENDERAMT_BITS, renderfx: 0 });
        }
        _ => panic!("expected an opaque brush"),
    }
    assert!(matches!(
        classify_entity(5, &keys(Some("trigger_multiple"), Some("*7")), &NODRAW),
        EntityClass::Brush(EntityModel::NoDrawBrush(7))
    ));
    assert!(matches!(
        classify_entity(5, &keys(Some("func_ladder"), Some("*-1")), &NODRAW),
        EntityClass::Brush(EntityModel::NoDrawBrush(-1))
    ));
    assert_eq!(FULL_RENDERAMT_BITS, 255.0f32.to_bits());
}

#[test]
fn classify_model_entities() {
    match classify_entity(4, &keys(Some("cycler_sprite"), Some("models/fern.mdl")), &NODRAW) {
        EntityClass::StudioModel(p) => assert_eq!(p, "models/fern.mdl"),
        _ => panic!("expected a studio model"),
    }
    assert!(matches!(classify_entity(4, &keys(Some("env_sprite"), Some("sprites/glow.spr")), &NODRAW), EntityClass::Sprite));
    assert!(matches!(classify_entity(4, &keys(Some("env_sprite"), Some("sprites/glow.tga")), &NODRAW), EntityClass::Ignored));
    let _unused = EntityModel::BspMdlEntity { model_name: "models/fern.mdl".to_string(), submodel: 0 };
    let _world = EntityModel::Bsp;
    let _sprite = EntityModel::Sprite;
}

#[test]
fn world_indices_are_consecutive() {
    assert_eq!(assign_world_indices(&[true, false, true, true]), vec![Some(0), None, Some(1), Some(2)]);
    assert!(assign_world_indices(&[]).is_empty());
    assert_eq!(assign_world_indices(&[false, false]), vec![None, None]);
}

#[test]
fn skybox_paths_use_sky_name() {
    let p = skybox_file_paths(None);
    assert_eq!(p, vec![
        "gfx/env/desertft.tga", "gfx/env/desertbk.tga", "gfx/env/desertup.tga",
        "gfx/env/desertdn.tga", "gfx/env/desertrt.tga", "gfx/env/desertlf.tga",
    ]);
    let p = skybox_file_paths(Some("space"));
    assert_eq!(p[0], "gfx/env/spaceft.tga");
    for (i, suffix) in ["ft", "bk", "up", "dn", "rt", "lf"].iter().enumerate() {
        let expected = Path::new("gfx/env").join(format!("/abs{suffix}.tga")).to_str().unwrap().to_string();
        assert_eq!(skybox_file_paths(Some("/abs"))[i], expected);
    }
}

#[test]
fn resource_map_reads_back_writes() {
    let mut m = ResourceMap::new();
    assert!(!m.contains_key("a"));
    m.insert("a".to_string(), vec![1]);
    m.insert("b".to_string(), vec![2]);
    m.insert("a".to_string(), vec![3]);
    assert_eq!(m.get("a"), Some(&vec![3]));
    assert_eq!(m.get("b"), Some(&vec![2]));
    assert_eq!(m.get("c"), None);
    assert_eq!(m.entries.len(), 2);
}

fn tga_bytes(width: u32, height: u32, color: [u8; 4]) -> Vec<u8> {
    let img = image::RgbaImage::from_pixel(width, height, image::Rgba(color));
    let mut buf = Cursor::new(Vec::new());
    image::DynamicImage::ImageRgba8(img).write_to(&mut buf, image::ImageFormat::Tga).unwrap();
    buf.into_inner()
}

#[test]
fn skybox_loads_all_six_or_none() {
    let mut m = ResourceMap::new();
    for p in skybox_file_paths(Some("neb6")) {
        m.insert(p, tga_bytes(2, 3, [10, 20, 30, 255]));
    }
    let faces = load_skybox(&m, Some("neb6"));
    assert_eq!(faces.len(), 6);
    for f in &faces {
        assert_eq!((f.width, f.height), (2, 3));
        assert_eq!(&f.data[0..4], &[10, 20, 30, 255]);
        assert_eq!(f.data.len(), 24);
    }
    // another sky name finds nothing
    assert!(load_skybox(&m, None).is_empty());
    // one face that does not decode spoils the set
    m.insert("gfx/env/neb6up.tga".to_string(), vec![1, 2, 3]);
    assert!(load_skybox(&m, Some("neb6")).is_empty());
}

#[test]
fn res_file_lists_wads() {
    let res = "// resources\nmaps/x.bsp\n  halflife.wad \r\ncs_dust.wad\nsound/a.wav\n\n";
    let expected: Vec<String> = res.lines().filter(|l| l.contains(".wad")).map(|l| l.trim().to_string()).collect();
    assert_eq!(res_file_wad_paths(res), expected);
    assert_eq!(res_file_wad_paths(res), vec!["halflife.wad", "cs_dust.wad"]);
    assert!(res_file_wad_paths("").is_empty());
}

#[test]
fn external_textures_and_coverage() {
    let textures = vec![("wall".to_string(), false), ("sky".to_string(), true), ("grass".to_string(), true)];
    let ext = external_texture_names(&textures);
    assert_eq!(ext, vec!["sky", "grass"]);
    assert!(all_textures_listed(&ext, &vec!["grass".to_string(), "sky".to_string(), "x".to_string()]));
    assert!(!all_textures_listed(&ext, &vec!["grass".to_string()]));
    assert!(all_textures_listed(&vec![], &vec![]));
}

#[test]
fn wad_scan_takes_found_textures() {
    let mut remaining = vec!["a".to_string(), "b".to_string(), "c".to_string()];
    let entries = vec![Some("b".to_string()), None, Some("b".to_string()), Some("x".to_string()), Some("c".to_string())];
    assert_eq!(take_wad_textures(&mut remaining, &entries), 2);
    assert_eq!(remaining, vec!["a"]);
    assert_eq!(take_wad_textures(&mut remaining, &entries), 0);
    assert_eq!(remaining, vec!["a"]);
}

#[test]
fn wad_extension_matches_std() {
    for p in ["a.wad", "dir/a.wad", ".wad", "a.WAD", "a.wad/", "a", "a.b.wad", "dir.wad/x", "", "/", "a/..", "..wad", "x/.wad"] {
        let expected = Path::new(p).extension().map(|e| e == "wad").unwrap_or(false);
        assert_eq!(has_wad_extension(p), expected, "path {p:?}");
    }
}

#[test]
fn resource_keys_and_model_requests() {
    let k = vec!["a.wad".to_string(), "b.wav".to_string(), "c.wad".to_string()];
    assert_eq!(keys_with_suffix(&k, ".wad"), vec![0, 2]);
    assert_eq!(keys_with_suffix(&k, ".wav"), vec![1]);
    let entities = vec![
        (Some("cycler_sprite".to_string()), Some("models/a.mdl".to_string())),
        (Some("env_sprite".to_string()), Some("sprites/s.spr".to_string())),
        (None, Some("models/m.mdl".to_string())),
        (Some("cycler_sprite".to_string()), None),
        (Some("cycler_sprite".to_string()), Some("models/a.mdl".to_string())),
    ];
    assert_eq!(model_requests(&entities), vec!["models/a.mdl", "models/a.mdl"]);
}

#[test]
fn wad_plan_and_scanned_names() {
    assert_eq!(wad_plan(false, true, true), WadPlan::NotNeeded);
    assert_eq!(wad_plan(true, true, true), WadPlan::UseListed);
    assert_eq!(wad_plan(true, true, false), WadPlan::Scan);
    assert_eq!(wad_plan(true, false, true), WadPlan::Scan);
    let paths = vec!["/hl/cstrike/halflife.wad".to_string(), "/hl/valve/decals.wad".to_string()];
    assert_eq!(scanned_wad_names(&paths, true), vec!["halflife.wad", "decals.wad"]);
    assert!(scanned_wad_names(&paths, false).is_empty());
}
