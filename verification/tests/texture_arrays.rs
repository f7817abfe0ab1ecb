use kdr::texture_arrays::{
    bucket_textures, texture_lookup_entries, texture_lookup_get, texture_array_layout, fit_mvp_slots,
    TextureArrayError, TextureArrayLayout,
};
use kdr::world::{append_mdl_triangle_run, Batch};

#[test]
fn textures_are_grouped_by_size() {
    let entity_models = vec![Some(0), None, Some(1), Some(0)];
    let model_dims = vec![vec![(64, 64), (32, 32)], vec![(32, 32)]];
    let buckets = bucket_textures(&entity_models, &model_dims);
    let views: Vec<((u32, u32), Vec<(usize, usize)>)> = buckets.iter().map(|b| (b.dimensions, b.textures.clone())).collect();
    assert_eq!(views, vec![
        ((64, 64), vec![(0, 0), (0, 0)]),
        ((32, 32), vec![(0, 1), (1, 0), (0, 1)]),
    ]);
    let entries = texture_lookup_entries(&buckets, &entity_models, &vec![0, 1, 2, 3]);
    assert_eq!(entries, vec![
        ((0, 0), (0, 0)), ((3, 0), (0, 0)),
        ((0, 0), (0, 1)), ((3, 0), (0, 1)),
        ((0, 1), (1, 0)), ((3, 1), (1, 0)),
        ((2, 0), (1, 1)),
        ((0, 1), (1, 2)), ((3, 1), (1, 2)),
    ]);
    assert_eq!(texture_lookup_get(&entries, 0, 0), Some((0, 1)));
    assert_eq!(texture_lookup_get(&entries, 3, 1), Some((1, 2)));
    assert_eq!(texture_lookup_get(&entries, 2, 0), Some((1, 1)));
    assert_eq!(texture_lookup_get(&entries, 1, 0), None);
    // every texture of every entity is found in a layer holding it
    for (j, m) in entity_models.iter().enumerate() {
        if let Some(k) = m {
            for t in 0..model_dims[*k].len() {
                let (b, l) = texture_lookup_get(&entries, j, t).unwrap();
                assert_eq!(buckets[b].textures[l], (*k, t));
                assert_eq!(buckets[b].dimensions, model_dims[*k][t]);
            }
        }
    }
    assert!(bucket_textures(&vec![Some(5)], &model_dims).is_empty());
}

#[test]
fn texture_array_layout_checks_sizes() {
    assert_eq!(texture_array_layout(&vec![]), Err(TextureArrayError::Empty));
    assert_eq!(texture_array_layout(&vec![(4, 4), (4, 2)]), Err(TextureArrayError::MismatchedDimensions));
    assert_eq!(
        texture_array_layout(&vec![(8, 4), (8, 4)]),
        Ok(TextureArrayLayout { width: 8, height: 4, layers: 2, mip_level_count: 4 })
    );
}

#[test]
fn mvp_slots_are_fitted() {
    assert_eq!(fit_mvp_slots(vec![1, 2, 3], 5, 0), vec![1, 2, 3, 0, 0]);
    assert_eq!(fit_mvp_slots(vec![1, 2, 3], 2, 0), vec![1, 2]);
    assert!(fit_mvp_slots(vec![1], 0, 0).is_empty());
}

#[test]
fn mdl_runs_count_from_the_batch() {
    let mut b: Batch<u8> = Batch::new();
    b.append(vec![7, 7], vec![0, 1, 1]);
    append_mdl_triangle_run(&mut b, vec![1, 2, 3, 4], true);
    assert_eq!(b.vertices, vec![7, 7, 1, 2, 3, 4]);
    assert_eq!(b.indices, vec![0, 1, 1, 2, 3, 4, 4, 3, 5]);
    append_mdl_triangle_run(&mut b, vec![5, 6, 7], false);
    assert_eq!(&b.indices[9..], &[6, 7, 8]);
    // the same run added through `append` with indices from zero lands in the same place
    let mut a: Batch<u8> = Batch::new();
    a.append(vec![7, 7], vec![0, 1, 1]);
    a.append(vec![1, 2, 3, 4], vec![0, 1, 2, 2, 1, 3]);
    assert_eq!(a.indices, b.indices[..9].to_vec());
}

use kdr::post_process::{PostEffects, PostEffectKind, PassTexture, PostPass};

#[test]
fn post_effects_plan_ping_pongs() {
    let mut fx = PostEffects::standard();
    assert_eq!(fx.effects.len(), 5);
    assert_eq!(fx.enabled_count(), 0);
    let plan = fx.plan();
    assert!(plan.copy_through);
    assert!(plan.passes.is_empty());
    assert_eq!(fx.toggle_index(PostEffectKind::GrayScale), Some(3));
    assert!(fx.set_enabled(PostEffectKind::Bloom, true));
    let plan = fx.plan();
    assert!(!plan.copy_through);
    assert_eq!(plan.passes, vec![PostPass { effect_index: 1, source: PassTexture::Input, target: PassTexture::Output }]);
    assert!(fx.set_enabled(PostEffectKind::Posterize, true));
    assert!(fx.set_enabled(PostEffectKind::Kuwahara, true));
    assert!(fx.set_enabled(PostEffectKind::GrayScale, true));
    let plan = fx.plan();
    assert_eq!(plan.passes, vec![
        PostPass { effect_index: 0, source: PassTexture::Input, target: PassTexture::Intermediate(0) },
        PostPass { effect_index: 1, source: PassTexture::Intermediate(0), target: PassTexture::Intermediate(1) },
        PostPass { effect_index: 3, source: PassTexture::Intermediate(1), target: PassTexture::Intermediate(0) },
        PostPass { effect_index: 4, source: PassTexture::Intermediate(0), target: PassTexture::Output },
    ]);
    let mut empty = PostEffects::new();
    assert!(!empty.set_enabled(PostEffectKind::Bloom, true));
    empty.add_effect(PostEffectKind::Bloom);
    assert_eq!(empty.effects, vec![(false, PostEffectKind::Bloom)]);
}
