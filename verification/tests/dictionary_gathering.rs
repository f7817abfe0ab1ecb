use std::collections::HashMap;

use kdr::entities::{entity_world_indices, EntityClass, EntityModel, CustomRender};
use kdr::resources::{gather_map_resources, ResourceProviderError};
use kdr::world::{add_entity_geometry, batch_kind, brush_model_index, Batch, BatchKind};

fn render() -> CustomRender {
    CustomRender { rendermode: 2, renderamt_bits: 0, renderfx: 0 }
}

#[test]
fn dictionary_numbers_drawn_entities_from_zero() {
    let entities = vec![
        (EntityClass::Worldspawn, false),
        (EntityClass::Ignored, false),
        (EntityClass::Brush(EntityModel::NoDrawBrush(3)), false),
        (EntityClass::StudioModel("models/a.mdl".to_string()), false),
        (EntityClass::Sprite, true),
        (EntityClass::StudioModel("models/b.mdl".to_string()), true),
        (EntityClass::Brush(EntityModel::TransparentEntityBrush((1, render()))), false),
    ];
    let w = entity_world_indices(&entities);
    assert_eq!(w, vec![Some(0), None, Some(1), None, None, Some(2), Some(3)]);
    assert!(entity_world_indices(&[]).is_empty());
}

fn found(path: &str, bytes: Option<&[u8]>) -> (String, Option<Vec<u8>>) {
    (path.to_string(), bytes.map(|b| b.to_vec()))
}

#[test]
fn gathering_without_map_fails() {
    match gather_map_resources("c1a0.bsp", false, &[], &[], &[]) {
        Err(ResourceProviderError::CannotFindBsp { bsp_name }) => assert_eq!(bsp_name, "c1a0.bsp"),
        _ => panic!("expected a missing map"),
    }
}

#[test]
fn gathering_without_skybox_face_fails() {
    let sky = vec![found("gfx/env/desertup.tga", Some(&[1])), found("gfx/env/desertdn.tga", None)];
    assert!(matches!(
        gather_map_resources("c1a0.bsp", true, &[], &sky, &[]),
        Err(ResourceProviderError::CannotFindSkyboxTextures)
    ));
}

#[test]
fn gathering_stores_found_files() {
    let models = vec![
        found("models/a.mdl", Some(&[1])),
        found("models/b.mdl", None),
        found("models/a.mdl", Some(&[2])),
    ];
    let sky = vec![found("gfx/env/desertup.tga", Some(&[3]))];
    let wads = vec![("halflife.wad".to_string(), vec![4, 5]), ("halflife.wad".to_string(), vec![6])];
    let m = gather_map_resources("c1a0.bsp", true, &models, &sky, &wads).ok().unwrap();
    assert_eq!(m.get("models/a.mdl"), Some(&vec![1]));
    assert_eq!(m.get("models/b.mdl"), None);
    assert_eq!(m.get("gfx/env/desertup.tga"), Some(&vec![3]));
    assert_eq!(m.get("halflife.wad"), Some(&vec![6]));
    assert_eq!(m.entries.len(), 3);
}

#[test]
fn geometry_goes_to_batches_of_its_kind() {
    assert_eq!(batch_kind(&EntityModel::Sprite), BatchKind::Transparent);
    assert_eq!(batch_kind(&EntityModel::TransparentEntityBrush((1, render()))), BatchKind::Transparent);
    assert_eq!(batch_kind(&EntityModel::OpaqueEntityBrush((1, render()))), BatchKind::Opaque);
    assert_eq!(batch_kind(&EntityModel::NoDrawBrush(2)), BatchKind::Opaque);
    assert_eq!(batch_kind(&EntityModel::Bsp), BatchKind::Opaque);
    assert_eq!(brush_model_index(&EntityModel::Bsp), Some(0));
    assert_eq!(brush_model_index(&EntityModel::NoDrawBrush(5)), Some(5));
    assert_eq!(brush_model_index(&EntityModel::Sprite), None);

    let mut opaque: HashMap<usize, Batch<u8>> = HashMap::new();
    let mut transparent: HashMap<usize, Batch<u8>> = HashMap::new();
    add_entity_geometry(&mut opaque, &mut transparent, &EntityModel::Bsp, 2, vec![1, 2, 3], vec![0, 1, 2]);
    add_entity_geometry(&mut opaque, &mut transparent, &EntityModel::Bsp, 2, vec![4, 5, 6], vec![2, 1, 0]);
    add_entity_geometry(&mut opaque, &mut transparent, &EntityModel::Sprite, 0, vec![7], vec![0]);
    assert_eq!(opaque[&2].vertices, vec![1, 2, 3, 4, 5, 6]);
    assert_eq!(opaque[&2].indices, vec![0, 1, 2, 5, 4, 3]);
    assert_eq!(transparent.len(), 1);
    assert_eq!(transparent[&0].vertices, vec![7]);
}
