use std::path::Path;

use kdr::naming::{
    fix_bsp_file_name, sanitize_base_url, file_name, sanitize_identifier, parse_location_search,
    join_url, ResourceIdentifier, WebResourceProvider, WasmFile,
};
use kdr::search::{
    join, remove_all, get_game_mods_to_check, search_candidates, case_insensitive_file_search,
    search_game_resource, proper_file_candidates, proper_file_searching, DirEntry, ResourceProbe,
    NativeResourceProvider,
};
use kdr::text::{trim, contains_str, replace_all, split_char, split_terminator_char, trim_start_char};

fn ident(map_name: &str, game_mod: &str) -> ResourceIdentifier {
    ResourceIdentifier { map_name: map_name.to_string(), game_mod: game_mod.to_string() }
}

#[test]
fn fix_bsp_file_name_adds_extension_once() {
    assert_eq!(fix_bsp_file_name("de_dust2"), "de_dust2.bsp");
    assert_eq!(fix_bsp_file_name("de_dust2.bsp"), "de_dust2.bsp");
    assert_eq!(fix_bsp_file_name(""), ".bsp");
    let once = fix_bsp_file_name("c4a2a");
    assert_eq!(fix_bsp_file_name(&once), once);
}

#[test]
fn sanitize_base_url_drops_one_slash() {
    assert_eq!(sanitize_base_url("http://localhost:3001/"), "http://localhost:3001");
    assert_eq!(sanitize_base_url("http://localhost:3001"), "http://localhost:3001");
    assert_eq!(sanitize_base_url("a//"), "a/");
    assert_eq!(sanitize_base_url(""), "");
    let provider = WebResourceProvider::new("https://kdr.example/");
    assert_eq!(provider.base_url, "https://kdr.example");
}

#[test]
fn file_name_matches_std_path() {
    let cases = [
        "", "/", "a", "a/b", "a/b/", "a/b/.", "a/b/..", "/a", "..", ".", "a//b", "./a", "a/./", "a/b/c.bsp",
        "maps/de_dust2", "../cstrike", "x/..", "...", "a/...",
    ];
    for c in cases {
        let expected = Path::new(c).file_name().map(|f| f.to_str().unwrap().to_string());
        assert_eq!(file_name(c), expected, "path {c:?}");
    }
}

#[test]
fn sanitize_identifier_keeps_last_components() {
    let r = sanitize_identifier(&ident("../../etc/de_dust2", "cstrike/")).unwrap();
    assert_eq!(r.map_name, "de_dust2.bsp");
    assert_eq!(r.game_mod, "cstrike");
    let r = sanitize_identifier(&ident("de_dust2.bsp", "valve")).unwrap();
    assert_eq!(r.map_name, "de_dust2.bsp");
    assert!(sanitize_identifier(&ident("..", "cstrike")).is_none());
    assert!(sanitize_identifier(&ident("de_dust2", "")).is_none());
    // sanitizing twice gives the same identifier
    let again = sanitize_identifier(&ident("maps/c4a2a", "valve")).unwrap();
    let twice = sanitize_identifier(&again).unwrap();
    assert_eq!(twice.map_name, again.map_name);
    assert_eq!(twice.game_mod, again.game_mod);
}

#[test]
fn parse_location_search_pairs() {
    let v = parse_location_search("?map=de_dust2&game=cstrike");
    assert_eq!(v, vec![("map".to_string(), "de_dust2".to_string()), ("game".to_string(), "cstrike".to_string())]);
    // a piece that is not exactly one key and one value is dropped
    let v = parse_location_search("??a&b=1&c=2=3&=x&d=");
    assert_eq!(v, vec![("b".to_string(), "1".to_string()), ("".to_string(), "x".to_string())]);
    assert!(parse_location_search("").is_empty());
    assert!(parse_location_search("?").is_empty());
}

#[test]
fn join_url_and_provider_urls() {
    assert_eq!(join_url("http://h", &["v1", "maps"]), "http://h/v1/maps");
    assert_eq!(join_url("http://h", &[]), "http://h");
    let provider = WebResourceProvider::new("http://h/");
    assert_eq!(provider.map_url("v1", "maps", &ident("de_dust2", "cstrike")), "http://h/v1/maps/cstrike/de_dust2.bsp");
    assert_eq!(provider.endpoint_url("v1", "replays"), "http://h/v1/replays");
    assert_eq!(provider.replay_url("v1", "replays", "run.dem"), "http://h/v1/replays/run.dem");
}

#[test]
fn wasm_file_holds_name_and_bytes() {
    let f = WasmFile { name: "a.wad".to_string(), bytes: vec![1, 2] };
    assert_eq!(f.name, "a.wad");
    assert_eq!(f.bytes, vec![1, 2]);
}

#[test]
fn join_matches_std_path() {
    let cases = [("a", "b"), ("a/", "b"), ("", "b"), ("a", "/b"), ("/", "x"), ("a", ""), ("gfx/env", "deserttf.tga")];
    for (a, b) in cases {
        let expected = Path::new(a).join(b).to_str().unwrap().to_string();
        assert_eq!(join(a, b), expected, "join {a:?} {b:?}");
    }
}

#[test]
fn remove_all_matches_std_replace() {
    for (s, p) in [("cstrike_downloads", "_downloads"), ("a_downloads_downloads", "_downloads"), ("abc", "x"), ("aaa", "aa")] {
        assert_eq!(remove_all(s, p), s.replace(p, ""));
    }
}

#[test]
fn game_mods_to_check_orders_mods() {
    assert_eq!(get_game_mods_to_check("valve"), vec!["valve", "valve_downloads"]);
    assert_eq!(get_game_mods_to_check("cstrike"), vec!["cstrike", "valve", "cstrike_downloads", "valve_downloads"]);
    assert_eq!(get_game_mods_to_check("cstrike_downloads"), vec!["cstrike_downloads", "valve", "cstrike", "valve_downloads"]);
}

#[test]
fn search_candidates_lists_paths() {
    let c = search_candidates("/hl", "cstrike", "maps/de_dust2.bsp");
    assert_eq!(c, vec![
        "/hl/cstrike/maps/de_dust2.bsp",
        "/hl/cstrike/maps/de_dust2.bsp",
        "/hl/valve/maps/de_dust2.bsp",
        "/hl/cstrike_downloads/maps/de_dust2.bsp",
        "/hl/valve_downloads/maps/de_dust2.bsp",
    ]);
    let p = NativeResourceProvider::new("/hl");
    assert_eq!(p.game_dir, "/hl");
}

fn entry(name: &str, is_file: bool) -> DirEntry {
    DirEntry { name: Some(name.to_string()), is_file }
}

#[test]
fn case_insensitive_search_lowercases_names() {
    let entries = Some(vec![entry("SKYft.TGA", false), entry("skyFT.tga", true)]);
    let parent = Some("/g/gfx/env".to_string());
    let r = case_insensitive_file_search("/g/gfx/env/SkyFt.TGA", &parent, &entries);
    assert_eq!(r, Some("/g/gfx/env/skyFT.tga".to_string()));
    let r = case_insensitive_file_search("/g/gfx/env/other.tga", &parent, &entries);
    assert_eq!(r, None);
    // a file whose name is not text ends the search
    let entries = Some(vec![DirEntry { name: None, is_file: true }, entry("skyft.tga", true)]);
    assert_eq!(case_insensitive_file_search("/g/gfx/env/skyft.tga", &parent, &entries), None);
    assert_eq!(case_insensitive_file_search("/g/gfx/env/skyft.tga", &None, &entries), None);
}

fn probe(exists: bool) -> ResourceProbe {
    ResourceProbe { exists, parent: None, entries: None }
}

#[test]
fn search_game_resource_takes_first_existing() {
    let probes = vec![probe(false), probe(false), probe(true), probe(true), probe(false)];
    let r = search_game_resource("/hl", "cstrike", "maps/a.bsp", true, &probes);
    assert_eq!(r, Some("/hl/valve/maps/a.bsp".to_string()));
    let probes: Vec<ResourceProbe> = (0..5).map(|_| probe(false)).collect();
    assert_eq!(search_game_resource("/hl", "cstrike", "maps/a.bsp", true, &probes), None);
    // case insensitive: the directory listing decides
    let mut probes: Vec<ResourceProbe> = (0..5).map(|_| probe(false)).collect();
    probes[0] = ResourceProbe {
        exists: false,
        parent: Some("/hl/cstrike/gfx/env".to_string()),
        entries: Some(vec![entry("DesertFT.TGA", true)]),
    };
    let r = search_game_resource("/hl", "cstrike", "gfx/env/desertft.tga", false, &probes);
    assert_eq!(r, Some("/hl/cstrike/gfx/env/DesertFT.TGA".to_string()));
    // the same listing is ignored by a case sensitive search
    assert_eq!(search_game_resource("/hl", "cstrike", "gfx/env/desertft.tga", true, &probes), None);
}

#[test]
fn proper_file_candidates_switch_mods() {
    assert_eq!(proper_file_candidates("cstrike/maps/a.bsp"), vec!["valve/maps/a.bsp", "cstrike_downloads/maps/a.bsp"]);
    assert_eq!(proper_file_candidates("cstrike_downloads/gfx//env/./x.tga"), vec!["valve/gfx/env/x.tga", "cstrike/gfx/env/x.tga"]);
    assert!(proper_file_candidates("valve/maps/a.bsp").is_empty());
    assert!(proper_file_candidates("/cstrike/maps/a.bsp").is_empty());
    assert!(proper_file_candidates("./cstrike/maps/a.bsp").is_empty());
    assert!(proper_file_candidates("").is_empty());
    assert_eq!(proper_file_candidates("czero"), vec!["valve/", "cstrike_downloads/"]);
}

#[test]
fn proper_file_searching_prefers_the_path() {
    assert_eq!(proper_file_searching("cstrike/a.mdl", true, &vec![true, true]), Some("cstrike/a.mdl".to_string()));
    assert_eq!(proper_file_searching("cstrike/a.mdl", false, &vec![false, true]), Some("cstrike_downloads/a.mdl".to_string()));
    assert_eq!(proper_file_searching("cstrike/a.mdl", false, &vec![false, false]), None);
    assert_eq!(proper_file_searching("valve/a.mdl", false, &vec![]), None);
}

#[test]
fn text_helpers_match_std() {
    for s in ["  a b \t", "\u{3000}x\u{85}", "", "   ", "x"] {
        assert_eq!(trim(s), s.trim());
    }
    assert!(contains_str("halflife.wad", ".wad"));
    assert!(!contains_str("halflife.wa", ".wad"));
    assert!(contains_str("x", ""));
    assert_eq!(replace_all("de_dust2.bsp.bsp", ".bsp", ".zip"), "de_dust2.zip.zip");
    assert_eq!(split_char("a//b", '/'), vec!["a", "", "b"]);
    assert_eq!(split_terminator_char("a&b&", '&'), vec!["a", "b"]);
    assert_eq!(trim_start_char("??x?", '?'), "x?");
}

#[test]
fn query_pairs_hold_no_separators() {
    let v = parse_location_search("?a==b&&c=d=&=&x=y&?=?&k=v?");
    for (k, val) in &v {
        assert!(!k.contains('&') && !k.contains('='));
        assert!(!val.contains('&') && !val.contains('='));
    }
    let expected: Vec<(String, String)> = "?a==b&&c=d=&=&x=y&?=?&k=v?"
        .trim_start_matches('?')
        .split_terminator('&')
        .filter_map(|piece| match piece.split_terminator('=').collect::<Vec<_>>().as_slice() {
            [key, value] => Some((key.to_string(), value.to_string())),
            _ => None,
        })
        .collect();
    assert_eq!(v, expected);
    assert_eq!(v, vec![
        ("c".to_string(), "d".to_string()),
        ("x".to_string(), "y".to_string()),
        ("?".to_string(), "?".to_string()),
        ("k".to_string(), "v?".to_string()),
    ]);
}

#[test]
fn game_mods_start_with_the_mod() {
    for m in ["cstrike", "valve", "czero_downloads", ""] {
        let mods = get_game_mods_to_check(m);
        assert_eq!(mods[0], m);
        assert_eq!(mods.last().unwrap(), "valve_downloads");
        assert!(mods.iter().any(|x| x == "valve"));
    }
}

#[test]
fn query_repeated_key_keeps_last_value() {
    let v = parse_location_search("?a=1&b=2&a=3");
    assert_eq!(v, vec![("a".to_string(), "3".to_string()), ("b".to_string(), "2".to_string())]);
}
