use kdr::lightmap::{
    build_lightmap_atlas, build_legacy_lightmap_atlas, place_lightmaps, LightmapFace, LightmapAtlasError,
    LIGHTMAP_ATLAS_DIMENSION, LEGACY_LIGHTMAP_ATLAS_DIMENSION,
};
use kdr::archive::{
    zip_files, extract_zip_to_hashmap, zip_bytes_to_map_resources, map_archive_files, map_file_name, ArchiveError,
};
use kdr::naming::{WasmFile, ResourceIdentifier};
use kdr::resources::ResourceMap;
use kdr::server::{
    validate_map_request, map_archive_file_name, update_allowed, download_status, DownloadStatus, MapRequestRejection,
};
use kdr::session::{PlayerInfo, Replay, ReplayPlaybackMode};
use kdr::keys::{
    Key, KeyCode, handle_keyboard_input, get_multiplier, interaction_tick, handle_mouse_input, key_flag, CameraMove,
    SpeedMultiplier, KEY_FORWARD, KEY_SHIFT, KEY_CONTROL, KEY_ALL,
};

const D: usize = LIGHTMAP_ATLAS_DIMENSION;

fn pixel(data: &[u8], x: usize, y: usize) -> [u8; 4] {
    let b = 4 * (y * D + x);
    [data[b], data[b + 1], data[b + 2], data[b + 3]]
}

#[test]
fn atlas_without_lightmap_is_white() {
    let atlas = build_lightmap_atlas(&[[1, 2, 3]], &[LightmapFace { lightmap_offset: 0, width: 4, height: 4 }]).ok().unwrap();
    assert!(atlas.allocations.is_empty());
    assert_eq!(atlas.image.data.len(), 4 * D * D);
    assert!(atlas.image.data.iter().all(|b| *b == 255));
}

#[test]
fn atlas_holds_each_face_lightmap() {
    let lightmap: Vec<[u8; 3]> = (0..10u8).map(|i| [i, i + 100, i + 200]).collect();
    let faces = [
        LightmapFace { lightmap_offset: -1, width: 5, height: 5 },
        LightmapFace { lightmap_offset: 0, width: 2, height: 2 },
        LightmapFace { lightmap_offset: 12, width: 3, height: 2 },
        LightmapFace { lightmap_offset: 27, width: 2, height: 2 },
    ];
    let atlas = build_lightmap_atlas(&lightmap, &faces).ok().unwrap();
    assert_eq!((atlas.image.width, atlas.image.height), (1096, 1096));
    let allocs = &atlas.allocations;
    assert_eq!(allocs.iter().map(|a| a.face_index).collect::<Vec<_>>(), vec![1, 2, 3]);
    for a in allocs {
        let f = faces[a.face_index];
        assert_eq!((a.width, a.height), (f.width, f.height));
        assert!(a.x >= 0 && a.y >= 0 && a.x + a.width <= 1096 && a.y + a.height <= 1096);
        let start = (f.lightmap_offset / 3) as usize;
        for ly in 0..a.height as usize {
            for lx in 0..a.width as usize {
                let k = lx + ly * a.width as usize;
                let got = pixel(&atlas.image.data, a.x as usize + lx, a.y as usize + ly);
                if start + k < lightmap.len() && k < (f.width * f.height) as usize {
                    let t = lightmap[start + k];
                    assert_eq!(got, [t[0], t[1], t[2], 255]);
                } else {
                    assert_eq!(got, [0, 0, 0, 0]);
                }
            }
        }
    }
    // the rectangles do not overlap
    for i in 0..allocs.len() {
        for j in 0..allocs.len() {
            if i != j {
                let (a, b) = (allocs[i], allocs[j]);
                assert!(a.x + a.width <= b.x || b.x + b.width <= a.x || a.y + a.height <= b.y || b.y + b.height <= a.y);
            }
        }
    }
}

#[test]
fn atlas_refuses_a_face_that_does_not_fit() {
    let lightmap = vec![[0u8; 3]; 4];
    let faces = [
        LightmapFace { lightmap_offset: 0, width: 1, height: 1 },
        LightmapFace { lightmap_offset: 3, width: 2000, height: 2 },
    ];
    match build_lightmap_atlas(&lightmap, &faces) {
        Err(LightmapAtlasError::CannotAllocate { face_index }) => assert_eq!(face_index, 1),
        Ok(_) => panic!("the face is wider than the atlas"),
    }
    let faces = [LightmapFace { lightmap_offset: 0, width: 0, height: 3 }];
    assert!(matches!(build_lightmap_atlas(&lightmap, &faces), Err(LightmapAtlasError::CannotAllocate { face_index: 0 })));
}

fn file(name: &str, bytes: &[u8]) -> WasmFile {
    WasmFile { name: name.to_string(), bytes: bytes.to_vec() }
}

#[test]
fn zip_round_trip() {
    let bytes = zip_files(vec![file("maps/c4a2a.bsp", &[1, 2, 3]), file("gfx/env/a.tga", &[]), file("c4a2a.wad", &[9; 1000])]).ok().unwrap();
    assert!(bytes.len() > 4);
    assert_eq!(&bytes[0..2], b"PK");
    let map = extract_zip_to_hashmap(&bytes).ok().unwrap();
    assert_eq!(map.entries.len(), 3);
    assert_eq!(map.get("maps/c4a2a.bsp"), Some(&vec![1, 2, 3]));
    assert_eq!(map.get("gfx/env/a.tga"), Some(&vec![]));
    assert_eq!(map.get("c4a2a.wad"), Some(&vec![9; 1000]));
    let (resources, bsp) = zip_bytes_to_map_resources(&bytes, "c4a2a.bsp").ok().unwrap();
    assert_eq!(bsp, vec![1, 2, 3]);
    assert_eq!(resources.entries.len(), 3);
    assert!(matches!(zip_bytes_to_map_resources(&bytes, "de_dust2.bsp"), Err(ArchiveError::BspFromArchive)));
    assert!(matches!(zip_bytes_to_map_resources(&[1, 2, 3], "c4a2a.bsp"), Err(ArchiveError::ZipDecompress { .. })));
    assert!(extract_zip_to_hashmap(&[]).is_err());
    // a duplicate file name is refused by the writer
    assert!(zip_files(vec![file("a", &[1]), file("a", &[2])]).is_err());
    let empty = zip_files(vec![]).ok().unwrap();
    assert_eq!(extract_zip_to_hashmap(&empty).ok().unwrap().entries.len(), 0);
}

#[test]
fn map_archive_lists_map_first() {
    let mut resources = ResourceMap::new();
    resources.insert("models/a.mdl".to_string(), vec![5]);
    resources.insert("c4a2a.wad".to_string(), vec![6]);
    let files = map_archive_files("c4a2a.bsp", vec![1], resources);
    let names: Vec<&str> = files.iter().map(|f| f.name.as_str()).collect();
    assert_eq!(names, vec!["maps/c4a2a.bsp", "models/a.mdl", "c4a2a.wad"]);
    assert_eq!(files[0].bytes, vec![1]);
    assert_eq!(files[2].bytes, vec![6]);
    assert_eq!(map_file_name("c4a2a"), "c4a2a.bsp");
}

fn ident(map_name: &str, game_mod: &str) -> ResourceIdentifier {
    ResourceIdentifier { map_name: map_name.to_string(), game_mod: game_mod.to_string() }
}

#[test]
fn map_requests_are_checked() {
    assert_eq!(validate_map_request(&ident("", "cstrike")).err(), Some(MapRequestRejection::NoMapName));
    assert_eq!(validate_map_request(&ident("", "")).err(), Some(MapRequestRejection::NoMapName));
    assert_eq!(validate_map_request(&ident("de_dust2", "")).err(), Some(MapRequestRejection::NoGameMod));
    assert_eq!(validate_map_request(&ident("..", "cstrike")).err(), Some(MapRequestRejection::InvalidIdentifier));
    let ok = validate_map_request(&ident("maps/de_dust2", "../cstrike")).ok().unwrap();
    assert_eq!((ok.map_name.as_str(), ok.game_mod.as_str()), ("de_dust2.bsp", "cstrike"));
    assert_eq!(MapRequestRejection::NoMapName.message(), "No map name provided.");
    assert_eq!(MapRequestRejection::NoGameMod.message(), "No game mod provided.");
    assert_eq!(MapRequestRejection::InvalidIdentifier.message(), "Invalid resource identifier.");
}

#[test]
fn archive_names_and_statuses() {
    assert_eq!(map_archive_file_name("de_dust2.bsp"), "de_dust2.zip");
    assert_eq!(map_archive_file_name("a.bsp.bsp"), "a.zip.zip");
    assert!(update_allowed("s3cret", "s3cret"));
    assert!(!update_allowed("s3cret", "other"));
    assert_eq!(download_status(404), DownloadStatus::NotFound);
    assert_eq!(download_status(500), DownloadStatus::Failed);
    assert_eq!(download_status(400), DownloadStatus::Failed);
    assert_eq!(download_status(599), DownloadStatus::Failed);
    assert_eq!(download_status(200), DownloadStatus::Proceed);
    assert_eq!(download_status(204), DownloadStatus::Proceed);
    assert_eq!(download_status(600), DownloadStatus::Proceed);
}

#[test]
fn default_player_and_replay() {
    let p = PlayerInfo::default();
    assert_eq!(p.name, "arte");
    assert_eq!(p.steam_id, "1234");
    let q = p.clone();
    assert_eq!(q.name, "arte");
    let r = Replay::real_time(7u8);
    assert_eq!(r.ghost_data, 7);
    assert_eq!(r.playback_mode, ReplayPlaybackMode::RealTime);
    assert_ne!(ReplayPlaybackMode::Immediate(3), ReplayPlaybackMode::RealTime);
}

#[test]
fn keys_press_and_release() {
    let k = Key::empty();
    let k = handle_keyboard_input(k, KeyCode::KeyW, true);
    assert!(k.contains(Key::from_flag(KEY_FORWARD)));
    let k = handle_keyboard_input(k, KeyCode::KeyW, false);
    assert_eq!(k.bits, 0);
    assert_eq!(key_flag(KeyCode::Other), None);
    assert_eq!(key_flag(KeyCode::ShiftLeft), Some(KEY_SHIFT));
    assert_eq!(Key::empty().complement().bits, KEY_ALL);
}

#[test]
fn multiplier_ticks_and_mouse() {
    assert!(matches!(get_multiplier(Key::from_flag(KEY_SHIFT)), SpeedMultiplier::Double));
    assert!(matches!(get_multiplier(Key::from_flag(KEY_CONTROL)), SpeedMultiplier::Half));
    assert!(matches!(get_multiplier(Key::empty()), SpeedMultiplier::Normal));
    let moves = interaction_tick(Key::from_flag(KEY_FORWARD));
    assert_eq!(moves.len(), 1);
    assert!(matches!(moves[0], CameraMove::Forward));
    assert!(interaction_tick(Key::empty()).is_empty());
    assert!(handle_mouse_input(false, true, true));
    assert!(!handle_mouse_input(true, true, false));
    assert!(handle_mouse_input(true, false, false));
}

use kdr::server::{common_resource_status, CommonResourceStatus};

#[test]
fn common_resource_statuses() {
    assert_eq!(common_resource_status(204), CommonResourceStatus::Empty);
    assert_eq!(common_resource_status(200), CommonResourceStatus::Archive);
    assert_eq!(common_resource_status(404), CommonResourceStatus::Failed);
    assert_eq!(common_resource_status(503), CommonResourceStatus::Failed);
}

#[test]
fn legacy_atlas_is_larger_and_never_white() {
    let atlas = build_legacy_lightmap_atlas(&[], &[LightmapFace { lightmap_offset: -1, width: 4, height: 4 }]).ok().unwrap();
    let d = LEGACY_LIGHTMAP_ATLAS_DIMENSION;
    assert_eq!((atlas.image.width as usize, atlas.image.height as usize), (d, d));
    assert_eq!(atlas.image.data.len(), 4 * d * d);
    assert!(atlas.image.data.iter().all(|b| *b == 0));
    // a face 2000 texels wide fits 4096 but not 1096
    let lightmap = vec![[7u8, 8, 9]; 4000];
    let faces = [LightmapFace { lightmap_offset: 0, width: 2000, height: 2 }];
    let atlas = build_legacy_lightmap_atlas(&lightmap, &faces).ok().unwrap();
    assert_eq!(atlas.allocations.len(), 1);
    let a = atlas.allocations[0];
    let b = 4 * (a.y as usize * d + a.x as usize);
    assert_eq!(&atlas.image.data[b..b + 4], &[7, 8, 9, 255]);
    assert!(matches!(build_lightmap_atlas(&lightmap, &faces), Err(LightmapAtlasError::CannotAllocate { face_index: 0 })));
}

#[test]
fn small_atlas_places_what_fits() {
    let lightmap = vec![[1u8, 2, 3]; 64];
    let faces = [
        LightmapFace { lightmap_offset: 0, width: 4, height: 4 },
        LightmapFace { lightmap_offset: 0, width: 4, height: 4 },
        LightmapFace { lightmap_offset: 0, width: 4, height: 4 },
    ];
    let atlas = place_lightmaps(&lightmap, &faces, 8, 1, 2).ok().unwrap();
    assert_eq!(atlas.allocations.len(), 3);
    let faces = [LightmapFace { lightmap_offset: 0, width: 9, height: 1 }];
    assert!(matches!(place_lightmaps(&lightmap, &faces, 8, 1, 2), Err(LightmapAtlasError::CannotAllocate { face_index: 0 })));
}
