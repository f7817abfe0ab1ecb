use std::collections::HashMap;

use kdr::texture::{
    calculate_mipmap_count, most_repeating_number, eightbpp_to_rgba8, create_missing_texture_placeholder,
    layer_uniform, mipmap_blit_plan, LayerUniform,
};
use kdr::world::{
    WorldLoader, WorldPipelineType, DepthCompare, PushConstantRenderFlags, WorldPushConstants, RENDER_NO_DRAW,
    FULL_BRIGHT, triangulate_convex_polygon, triangulate_mdl_triverts, Batch, add_to_batch_lookup, bsp_face_type,
    sprite_quad_indices, pack_sprite_frame_orientation, bone_mvp_index, allocate_bone_mvp_slots, face_vertices,
    bsp_texture_source, TextureSource, find_sky_texture, find_batch_index, find_name, BspLoader, MdlLoader,
    WORLD_PUSH_CONSTANTS_SIZE,
};

#[test]
fn mipmap_count_is_log2_plus_one() {
    assert_eq!(calculate_mipmap_count(1024, 512), 11);
    assert_eq!(calculate_mipmap_count(512, 1024), 11);
    assert_eq!(calculate_mipmap_count(1, 1), 1);
    assert_eq!(calculate_mipmap_count(0, 0), 1);
    assert_eq!(calculate_mipmap_count(3, 2), 2);
    assert_eq!(calculate_mipmap_count(255, 1), 8);
    assert_eq!(calculate_mipmap_count(256, 256), 9);
    assert_eq!(calculate_mipmap_count(u32::MAX, 7), 32);
    for side in [1u32, 2, 5, 64, 100, 1000, 4096] {
        let expected = (side as f32).log2().floor() as u32 + 1;
        assert_eq!(calculate_mipmap_count(side, side), expected);
    }
}

#[test]
fn most_repeating_number_finds_the_mode() {
    assert_eq!(most_repeating_number(&[1, 2, 2, 3]), 2);
    assert_eq!(most_repeating_number(&[7]), 7);
    assert_eq!(most_repeating_number(&[255, 0, 255, 1, 255]), 255);
    let tie = most_repeating_number(&[4, 9, 4, 9]);
    assert!(tie == 4 || tie == 9);
}

fn palette() -> Vec<[u8; 3]> {
    let mut p: Vec<[u8; 3]> = (0..256).map(|i| [i as u8, 1, 2]).collect();
    p[255] = [0, 0, 255];
    p
}

#[test]
fn eightbpp_masks_index_255() {
    // index 255 is the most frequent: the image is masked
    let img = eightbpp_to_rgba8(&[255, 255, 1], &palette(), 3, 1, None);
    assert_eq!(img.width, 3);
    assert_eq!(img.height, 1);
    assert_eq!(img.data, vec![0, 0, 0, 0, 0, 0, 0, 0, 1, 1, 2, 255]);
    // not masked, but index 255 is pure blue: still transparent
    let img = eightbpp_to_rgba8(&[1, 1, 255], &palette(), 3, 1, Some(16));
    assert_eq!(img.data, vec![1, 1, 2, 16, 1, 1, 2, 16, 0, 0, 0, 0]);
    // not masked and not blue: index 255 keeps its color
    let mut p = palette();
    p[255] = [9, 9, 9];
    let img = eightbpp_to_rgba8(&[1, 1, 255], &p, 3, 1, None);
    assert_eq!(img.data, vec![1, 1, 2, 255, 1, 1, 2, 255, 9, 9, 9, 255]);
}

#[test]
fn placeholder_is_a_checkerboard() {
    let img = create_missing_texture_placeholder(32, 17);
    assert_eq!(img.data.len(), 4 * 32 * 17);
    let px = |x: usize, y: usize| img.data[4 * (y * 32 + x)..4 * (y * 32 + x) + 4].to_vec();
    assert_eq!(px(0, 0), vec![255, 0, 255, 255]);
    assert_eq!(px(15, 15), vec![255, 0, 255, 255]);
    assert_eq!(px(16, 0), vec![0, 0, 0, 255]);
    assert_eq!(px(0, 16), vec![0, 0, 0, 255]);
    assert_eq!(px(16, 16), vec![255, 0, 255, 255]);
    let empty = create_missing_texture_placeholder(0, 5);
    assert!(empty.data.is_empty());
}

#[test]
fn layer_uniform_and_blit_plan() {
    let u: LayerUniform = layer_uniform(5);
    assert_eq!(u.layer, 5);
    assert_eq!(u._padding, [0, 0, 0]);
    assert_eq!(mipmap_blit_plan(2, 3), vec![(0, 0, 1), (0, 1, 2), (1, 0, 1), (1, 1, 2)]);
    assert!(mipmap_blit_plan(1, 1).is_empty());
    assert!(mipmap_blit_plan(3, 0).is_empty());
    assert!(mipmap_blit_plan(0, 4).is_empty());
}

#[test]
fn pipeline_settings_per_pass() {
    let _loaders = (WorldLoader, BspLoader, MdlLoader);
    let o = WorldLoader::opaque_pipeline_settings();
    assert_eq!(o.label, "world opaque render pipeline");
    assert_eq!(o.vertex_entry_point, "vs_main");
    assert_eq!(o.fragment_entry_point, Some("fs_opaque"));
    assert_eq!(o.push_constant_range, Some((0, WORLD_PUSH_CONSTANTS_SIZE)));
    assert!(o.depth_write_enabled);
    assert_eq!(o.depth_compare, DepthCompare::LessEqual);
    assert!(!o.stencil_replace);
    let t = WorldLoader::transparent_pipeline_settings();
    assert_eq!(t.fragment_entry_point, Some("fs_transparent"));
    assert!(!t.depth_write_enabled);
    assert_eq!(t.depth_compare, DepthCompare::Less);
    let z = WorldLoader::z_prepass_pipeline_settings();
    assert_eq!(z.label, "world z prepass render pipeline");
    assert_eq!(z.vertex_entry_point, "skybox_mask_vs");
    assert_eq!(z.fragment_entry_point, None);
    assert_eq!(z.push_constant_range, None);
    assert_eq!(z.depth_compare, DepthCompare::Less);
    let s = WorldLoader::skybox_mask_pipeline_settings();
    assert_eq!(s.label, "world skybox mask render pipeline");
    assert!(s.stencil_replace);
    assert!(!s.depth_write_enabled);
    assert_eq!(s.depth_compare, DepthCompare::LessEqual);
    let same = WorldLoader::pipeline_settings(WorldPipelineType::SkyboxMask);
    assert_eq!(same.label, s.label);
}

#[test]
fn render_flags_set_and_clear() {
    let mut f = PushConstantRenderFlags::empty();
    assert_eq!(f.bits(), 0);
    f.set(RENDER_NO_DRAW, true);
    assert!(f.contains(RENDER_NO_DRAW));
    assert!(!f.contains(FULL_BRIGHT));
    f.set(FULL_BRIGHT, true);
    assert_eq!(f.bits(), 3);
    f.set(RENDER_NO_DRAW, false);
    assert!(!f.contains(RENDER_NO_DRAW));
    assert!(f.contains(FULL_BRIGHT));
    let c = WorldPushConstants { render_flags: f };
    assert_eq!(c.render_flags.bits(), 2);
}

#[test]
fn convex_polygon_fans_from_first_vertex() {
    assert_eq!(triangulate_convex_polygon(&[0u8; 3]), vec![0, 1, 2]);
    assert_eq!(triangulate_convex_polygon(&[0u8; 5]), vec![0, 1, 2, 0, 2, 3, 0, 3, 4]);
}

#[test]
fn mdl_triverts_strip_and_fan() {
    let mut buf = vec![99];
    triangulate_mdl_triverts(&mut buf, &vec![(); 5], true, 10);
    assert_eq!(buf, vec![99, 10, 11, 12, 12, 11, 13, 12, 13, 14]);
    let mut buf = vec![];
    triangulate_mdl_triverts(&mut buf, &vec![(); 5], false, 10);
    assert_eq!(buf, vec![10, 11, 12, 10, 12, 13, 10, 13, 14]);
    let mut buf = vec![1];
    triangulate_mdl_triverts(&mut buf, &vec![(); 2], true, 0);
    triangulate_mdl_triverts(&mut buf, &vec![(); 1], false, 0);
    triangulate_mdl_triverts(&mut buf, &Vec::<()>::new(), false, 0);
    assert_eq!(buf, vec![1]);
    // a fan at offset zero is the convex polygon triangulation
    let mut buf = vec![];
    triangulate_mdl_triverts(&mut buf, &vec![(); 6], false, 0);
    assert_eq!(buf, triangulate_convex_polygon(&[0u8; 6]));
}

#[test]
fn batch_append_shifts_indices() {
    let mut b: Batch<char> = Batch::new();
    b.append(vec!['a', 'b', 'c'], vec![0, 1, 2]);
    b.append(vec!['d', 'e'], vec![0, 1, 1]);
    assert_eq!(b.vertices, vec!['a', 'b', 'c', 'd', 'e']);
    assert_eq!(b.indices, vec![0, 1, 2, 3, 4, 4]);
}

#[test]
fn batch_lookup_groups_by_texture_array() {
    let mut lookup: HashMap<usize, Batch<u8>> = HashMap::new();
    add_to_batch_lookup(&mut lookup, 2, vec![1, 2, 3], vec![0, 1, 2]);
    add_to_batch_lookup(&mut lookup, 5, vec![9], vec![0]);
    add_to_batch_lookup(&mut lookup, 2, vec![4, 5, 6], vec![2, 1, 0]);
    assert_eq!(lookup.len(), 2);
    assert_eq!(lookup[&2].vertices, vec![1, 2, 3, 4, 5, 6]);
    assert_eq!(lookup[&2].indices, vec![0, 1, 2, 5, 4, 3]);
    assert_eq!(lookup[&5].indices, vec![0]);
}

#[test]
fn face_type_and_sprite_data() {
    assert_eq!(bsp_face_type(true, true), 1);
    assert_eq!(bsp_face_type(false, true), 2);
    assert_eq!(bsp_face_type(false, false), 0);
    assert_eq!(sprite_quad_indices(), vec![0, 1, 2, 2, 1, 3]);
    let packed = pack_sprite_frame_orientation(3, 2);
    assert_eq!(packed, 196_610);
    assert_eq!(packed >> 16, 3);
    assert_eq!(packed & 0xffff, 2);
}

#[test]
fn bone_slots_follow_the_entities() {
    let entities = vec![(0, None), (1, Some(3)), (2, Some(1)), (3, Some(4)), (4, Some(0))];
    let (firsts, lookup) = allocate_bone_mvp_slots(&entities);
    assert_eq!(firsts, vec![5, 5, 7, 7, 10]);
    assert_eq!(lookup.len(), 2);
    assert_eq!(lookup[&1], 5);
    assert_eq!(lookup[&3], 7);
    assert_eq!(bone_mvp_index(1, 5, 0), 1);
    assert_eq!(bone_mvp_index(1, 5, 1), 5);
    assert_eq!(bone_mvp_index(1, 5, 2), 6);
    assert_eq!(bone_mvp_index(3, 7, 3), 9);
    // the slots of the two skeletons do not overlap
    let slots_1: Vec<u32> = (1..3).map(|b| bone_mvp_index(1, firsts[1], b)).collect();
    let slots_3: Vec<u32> = (1..4).map(|b| bone_mvp_index(3, firsts[3], b)).collect();
    assert!(slots_1.iter().all(|s| !slots_3.contains(s) && *s >= 5));
}

#[test]
fn face_vertices_follow_surface_edges() {
    let surf_edges = [7, 1, -2, 0];
    let edges = [[0u16, 1], [1, 2], [2, 0]];
    let vertices = ['a', 'b', 'c'];
    assert_eq!(face_vertices(1, 3, &surf_edges, &edges, &vertices), vec!['b', 'a', 'b']);
    assert!(face_vertices(0, 0, &surf_edges, &edges, &vertices).is_empty());
}

#[test]
fn texture_source_finds_first_wad() {
    let wads = vec![
        vec![None, Some("floor".to_string())],
        vec![Some("wall".to_string()), Some("wall".to_string())],
        vec![Some("wall".to_string())],
    ];
    assert_eq!(bsp_texture_source("wall", true, &wads), TextureSource::External { wad: 1, entry: 0 });
    assert_eq!(bsp_texture_source("floor", true, &wads), TextureSource::External { wad: 0, entry: 1 });
    assert_eq!(bsp_texture_source("sky", true, &wads), TextureSource::Missing);
    assert_eq!(bsp_texture_source("sky", false, &wads), TextureSource::Embedded);
}

#[test]
fn sky_texture_and_batch_lookup() {
    let names = vec!["wall".to_string(), "SKY".to_string(), "SKY".to_string()];
    assert_eq!(find_sky_texture(&names), Some(1));
    assert_eq!(find_sky_texture(&vec!["sky".to_string()]), None);
    assert_eq!(find_name(&names, "wall"), Some(0));
    assert_eq!(find_batch_index(&vec![4, 2, 2], 2), Some(1));
    assert_eq!(find_batch_index(&vec![4, 2, 2], 3), None);
}
