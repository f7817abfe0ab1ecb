//! World geometry: the settings of the world render pipelines, push
//! constant flags, triangle index generation for brush faces and studio
//! models, and the batches that vertices and indices are gathered in.

use vstd::prelude::*;
use std::collections::HashMap;
use crate::text::str_eq;
use crate::entities::{EntityModel, CustomRender};

verus! {

/// Builds the render pipelines and buffers of the world.
pub struct WorldLoader;

/// Builds the render pipelines and buffers of map brushes.
pub struct BspLoader;

/// Builds the render pipelines and buffers of studio models.
pub struct MdlLoader;

/// The passes that draw the world.
#[derive(Clone, Copy, PartialEq, Eq, Structural, Debug)]
pub enum WorldPipelineType {
    /// Standard Z pre pass.
    ZPrepass,
    /// Masks the sky texture with the farthest depth, so that the skybox
    /// can be drawn over it while still being occluded by what is in front.
    SkyboxMask,
    Opaque,
    Transparent,
}

/// The depth comparison of a pass.
#[derive(Clone, Copy, PartialEq, Eq, Structural, Debug)]
pub enum DepthCompare {
    Less,
    LessEqual,
}

/// Size in bytes of [`WorldPushConstants`].
pub const WORLD_PUSH_CONSTANTS_SIZE: u32 = 4;

/// What a world render pipeline is made of, for one pass.
pub struct WorldPipelineSettings {
    pub label: &'static str,
    pub vertex_entry_point: &'static str,
    /// Passes that only write depth have no fragment stage.
    pub fragment_entry_point: Option<&'static str>,
    /// Byte range of the push constants seen by the fragment stage.
    pub push_constant_range: Option<(u32, u32)>,
    pub depth_write_enabled: bool,
    pub depth_compare: DepthCompare,
    /// Whether the pass always replaces the stencil value.
    pub stencil_replace: bool,
}

/// The label of a pass.
pub open spec fn spec_pipeline_label(t: WorldPipelineType) -> Seq<char> {
    match t {
        WorldPipelineType::ZPrepass => "world z prepass render pipeline"@,
        WorldPipelineType::Opaque => "world opaque render pipeline"@,
        WorldPipelineType::Transparent => "world transparent render pipeline"@,
        WorldPipelineType::SkyboxMask => "world skybox mask render pipeline"@,
    }
}

/// The vertex shader entry point of a pass.
pub open spec fn spec_vertex_entry_point(t: WorldPipelineType) -> Seq<char> {
    match t {
        WorldPipelineType::SkyboxMask | WorldPipelineType::ZPrepass => "skybox_mask_vs"@,
        WorldPipelineType::Opaque | WorldPipelineType::Transparent => "vs_main"@,
    }
}

/// Whether a pass draws colors: only the opaque and transparent passes do.
pub open spec fn spec_draws_color(t: WorldPipelineType) -> bool {
    t is Opaque || t is Transparent
}

impl WorldLoader {
    /// The settings of the pipeline for one pass.
    pub fn pipeline_settings(pipeline_type: WorldPipelineType) -> (res: WorldPipelineSettings)
        ensures
            res.label@ == spec_pipeline_label(pipeline_type),
            res.vertex_entry_point@ == spec_vertex_entry_point(pipeline_type),
            match pipeline_type {
                WorldPipelineType::Opaque => res.fragment_entry_point matches Some(f) && f@ == "fs_opaque"@,
                WorldPipelineType::Transparent => res.fragment_entry_point matches Some(f) && f@ == "fs_transparent"@,
                _ => res.fragment_entry_point is None,
            },
            res.push_constant_range == (if spec_draws_color(pipeline_type) {
                Some((0u32, WORLD_PUSH_CONSTANTS_SIZE))
            } else {
                None
            }),
            res.depth_write_enabled == (pipeline_type is ZPrepass || pipeline_type is Opaque),
            res.depth_compare == (if pipeline_type is ZPrepass || pipeline_type is Transparent {
                DepthCompare::Less
            } else {
                DepthCompare::LessEqual
            }),
            res.stencil_replace == (pipeline_type is SkyboxMask),
    {
        let draws_color = match pipeline_type {
            WorldPipelineType::ZPrepass | WorldPipelineType::SkyboxMask => false,
            WorldPipelineType::Opaque | WorldPipelineType::Transparent => true,
        };
        let depth_write_enabled = match pipeline_type {
            WorldPipelineType::ZPrepass => true,
            WorldPipelineType::Opaque => true,
            WorldPipelineType::Transparent | WorldPipelineType::SkyboxMask => false,
        };
        let label = match pipeline_type {
            WorldPipelineType::ZPrepass => "world z prepass render pipeline",
            WorldPipelineType::Opaque => "world opaque render pipeline",
            WorldPipelineType::Transparent => "world transparent render pipeline",
            WorldPipelineType::SkyboxMask => "world skybox mask render pipeline",
        };
        let depth_compare = match pipeline_type {
            WorldPipelineType::ZPrepass => DepthCompare::Less,
            WorldPipelineType::Opaque => DepthCompare::LessEqual,
            WorldPipelineType::Transparent => DepthCompare::Less,
            WorldPipelineType::SkyboxMask => DepthCompare::LessEqual,
        };
        let stencil_replace = match pipeline_type {
            WorldPipelineType::SkyboxMask => true,
            _ => false,
        };
        let vertex_entry_point = match pipeline_type {
            WorldPipelineType::SkyboxMask => "skybox_mask_vs",
            WorldPipelineType::ZPrepass => "skybox_mask_vs",
            WorldPipelineType::Opaque | WorldPipelineType::Transparent => "vs_main",
        };
        let fragment_entry_point = match pipeline_type {
            WorldPipelineType::Opaque => Some("fs_opaque"),
            WorldPipelineType::Transparent => Some("fs_transparent"),
            _ => None,
        };
        let push_constant_range = if draws_color {
            Some((0u32, WORLD_PUSH_CONSTANTS_SIZE))
        } else {
            None
        };
        WorldPipelineSettings {
            label,
            vertex_entry_point,
            fragment_entry_point,
            push_constant_range,
            depth_write_enabled,
            depth_compare,
            stencil_replace,
        }
    }

    /// Settings of the opaque pass.
    pub fn opaque_pipeline_settings() -> (res: WorldPipelineSettings)
        ensures
            res.label@ == spec_pipeline_label(WorldPipelineType::Opaque),
            res.depth_write_enabled,
            res.depth_compare == DepthCompare::LessEqual,
    {
        Self::pipeline_settings(WorldPipelineType::Opaque)
    }

    /// Settings of the transparent pass.
    pub fn transparent_pipeline_settings() -> (res: WorldPipelineSettings)
        ensures
            res.label@ == spec_pipeline_label(WorldPipelineType::Transparent),
            !res.depth_write_enabled,
            res.depth_compare == DepthCompare::Less,
    {
        Self::pipeline_settings(WorldPipelineType::Transparent)
    }

    /// Settings of the z pre pass.
    pub fn z_prepass_pipeline_settings() -> (res: WorldPipelineSettings)
        ensures
            res.label@ == spec_pipeline_label(WorldPipelineType::ZPrepass),
            res.depth_write_enabled,
            res.fragment_entry_point is None,
    {
        Self::pipeline_settings(WorldPipelineType::ZPrepass)
    }

    /// Settings of the skybox mask pass.
    pub fn skybox_mask_pipeline_settings() -> (res: WorldPipelineSettings)
        ensures
            res.label@ == spec_pipeline_label(WorldPipelineType::SkyboxMask),
            !res.depth_write_enabled,
            res.stencil_replace,
    {
        Self::pipeline_settings(WorldPipelineType::SkyboxMask)
    }
}

/// Flag bit: draw brushes that are otherwise not drawn.
pub const RENDER_NO_DRAW: u32 = 1;

/// Flag bit: draw without lightmaps.
pub const FULL_BRIGHT: u32 = 2;

/// Render flags handed to the fragment stage.
#[derive(Clone, Copy, PartialEq, Eq, Structural, Debug)]
pub struct PushConstantRenderFlags(pub u32);

impl PushConstantRenderFlags {
    /// No flag set.
    pub fn empty() -> (res: Self)
        ensures
            res.0 == 0,
    {
        PushConstantRenderFlags(0)
    }

    /// The raw bits.
    pub fn bits(&self) -> (res: u32)
        ensures
            res == self.0,
    {
        self.0
    }

    /// Whether every bit of `flag` is set.
    pub fn contains(&self, flag: u32) -> (res: bool)
        ensures
            res == (self.0 & flag == flag),
    {
        self.0 & flag == flag
    }

    /// Sets or clears the bits of `flag`, leaving the others.
    pub fn set(&mut self, flag: u32, value: bool)
        ensures
            final(self).0 == (if value { old(self).0 | flag } else { old(self).0 & !flag }),
    {
        if value {
            self.0 = self.0 | flag;
        } else {
            self.0 = self.0 & !flag;
        }
    }
}

/// Setting a flag makes it contained and clearing it removes it, and
/// neither touches the bits of other flags.
pub proof fn lemma_render_flags_set(bits: u32, flag: u32, other: u32)
    requires
        flag & other == 0,
    ensures
        (bits | flag) & flag == flag,
        (bits & !flag) & flag == 0,
        ((bits | flag) & other == other) == (bits & other == other),
        ((bits & !flag) & other == other) == (bits & other == other),
{
    assert((bits | flag) & flag == flag) by (bit_vector);
    assert((bits & !flag) & flag == 0) by (bit_vector);
    assert(((bits | flag) & other == other) == (bits & other == other)) by (bit_vector)
        requires flag & other == 0;
    assert(((bits & !flag) & other == other) == (bits & other == other)) by (bit_vector)
        requires flag & other == 0;
}

/// The push constants of the world passes.
#[derive(Clone, Copy, PartialEq, Eq, Structural, Debug)]
pub struct WorldPushConstants {
    pub render_flags: PushConstantRenderFlags,
}

/// One fan triangle of a polygon whose first vertex is `offset`: the first
/// vertex, vertex `k` and vertex `k + 1`, each cut to 32 bits.
pub open spec fn fan_triangle(offset: int, k: int) -> Seq<u32> {
    seq![offset as u32, (offset + k) as u32, (offset + k + 1) as u32]
}

/// The indices of the first `t` fan triangles.
pub open spec fn fan_indices(offset: int, t: nat) -> Seq<u32>
    decreases t,
{
    if t == 0 {
        Seq::empty()
    } else {
        fan_indices(offset, (t - 1) as nat) + fan_triangle(offset, t as int)
    }
}

/// Triangle `k` of a strip starting at vertex `offset`: every other
/// triangle has its first two vertices swapped to keep the winding.
pub open spec fn strip_triangle(offset: int, k: int) -> Seq<u32> {
    if k % 2 == 0 {
        seq![(offset + k) as u32, (offset + k + 1) as u32, (offset + k + 2) as u32]
    } else {
        seq![(offset + k + 1) as u32, (offset + k) as u32, (offset + k + 2) as u32]
    }
}

/// The indices of the first `t` strip triangles.
pub open spec fn strip_indices(offset: int, t: nat) -> Seq<u32>
    decreases t,
{
    if t == 0 {
        Seq::empty()
    } else {
        strip_indices(offset, (t - 1) as nat) + strip_triangle(offset, t - 1)
    }
}

/// The number of triangles of a strip or fan of `n` vertices.
pub open spec fn triangle_count(n: nat) -> nat {
    if n >= 2 { (n - 2) as nat } else { 0 }
}

/// The indices that triangulate `n` studio model vertices starting at
/// `offset`, as a strip or as a fan.
pub open spec fn spec_mdl_indices(n: nat, is_strip: bool, offset: int) -> Seq<u32> {
    if is_strip {
        strip_indices(offset, triangle_count(n))
    } else {
        fan_indices(offset, triangle_count(n))
    }
}

/// Fan triangulation of a convex polygon given in winding order: the
/// triangles `0, i, i + 1`.
pub fn triangulate_convex_polygon<V>(vertices: &[V]) -> (res: Vec<u32>)
    requires
        vertices@.len() >= 3,
        3 * vertices@.len() <= usize::MAX,
    ensures
        res@ == fan_indices(0, (vertices@.len() - 2) as nat),
{
    let n = vertices.len();
    let mut indices: Vec<u32> = Vec::with_capacity((n - 2) * 3);
    let mut i: usize = 1;
    while i < n - 1
        invariant
            n == vertices@.len(),
            n >= 3,
            1 <= i <= n - 1,
            indices@ == fan_indices(0, (i - 1) as nat),
        decreases n - 1 - i,
    {
        indices.push(0);
        indices.push(i as u32);
        indices.push((i + 1) as u32);
        proof {
            assert(indices@ =~= fan_indices(0, (i - 1) as nat) + fan_triangle(0, i as int));
        }
        i = i + 1;
    }
    indices
}

/// Appends to `index_buffer` the triangles of `triverts.len()` studio model
/// vertices that start at `offset`: as a strip, or as a fan around the
/// first vertex.
pub fn triangulate_mdl_triverts<T>(index_buffer: &mut Vec<u32>, triverts: &Vec<T>, is_strip: bool, offset: usize)
    requires
        offset + triverts@.len() <= usize::MAX,
    ensures
        final(index_buffer)@ == old(index_buffer)@ + spec_mdl_indices(triverts@.len(), is_strip, offset as int),
{
    let n = triverts.len();
    let ghost start = index_buffer@;
    if is_strip {
        let count = n.saturating_sub(2);
        let mut i: usize = 0;
        while i < count
            invariant
                count == triangle_count(n as nat),
                n == triverts@.len(),
                offset + n <= usize::MAX,
                i <= count,
                index_buffer@ == start + strip_indices(offset as int, i as nat),
            decreases count - i,
        {
            let v1 = offset + i;
            let v2 = offset + i + 1;
            let v3 = offset + i + 2;
            if i % 2 == 0 {
                index_buffer.push(v1 as u32);
                index_buffer.push(v2 as u32);
                index_buffer.push(v3 as u32);
            } else {
                index_buffer.push(v2 as u32);
                index_buffer.push(v1 as u32);
                index_buffer.push(v3 as u32);
            }
            proof {
                assert(index_buffer@ =~= start + strip_indices(offset as int, i as nat)
                    + strip_triangle(offset as int, i as int));
            }
            i = i + 1;
        }
    } else {
        let first_index = offset as u32;
        let end = n.saturating_sub(1);
        let mut i: usize = 1;
        while i < end
            invariant
                end == (if n >= 1 { n - 1 } else { 0 }),
                n == triverts@.len(),
                offset + n <= usize::MAX,
                first_index == offset as u32,
                1 <= i,
                i <= end || (end == 0 && i == 1),
                index_buffer@ == start + fan_indices(offset as int, (i - 1) as nat),
            decreases end - i,
        {
            index_buffer.push(first_index);
            index_buffer.push((offset + i) as u32);
            index_buffer.push((offset + i + 1) as u32);
            proof {
                assert(index_buffer@ =~= start + fan_indices(offset as int, (i - 1) as nat)
                    + fan_triangle(offset as int, i as int));
            }
            i = i + 1;
        }
        proof {
            assert((i - 1) as nat == triangle_count(n as nat));
        }
    }
}

/// The first `t` fan triangles hold `3 * t` indices, from `offset` up to
/// `offset + t + 1`, when those fit in 32 bits.
proof fn lemma_fan_indices_range(offset: int, t: nat)
    requires
        0 <= offset,
        offset + t + 1 <= u32::MAX,
    ensures
        fan_indices(offset, t).len() == 3 * t,
        forall|j: int| 0 <= j < 3 * t ==> offset <= #[trigger] fan_indices(offset, t)[j] <= offset + t + 1,
    decreases t,
{
    if t > 0 {
        lemma_fan_indices_range(offset, (t - 1) as nat);
        let prev = fan_indices(offset, (t - 1) as nat);
        assert forall|j: int| 0 <= j < 3 * t implies offset <= #[trigger] fan_indices(offset, t)[j] <= offset + t + 1 by {
            if j < 3 * (t - 1) {
                assert(fan_indices(offset, t)[j] == prev[j]);
            }
        }
    }
}

/// The first `t` strip triangles hold `3 * t` indices, from `offset` up to
/// `offset + t + 1`, when those fit in 32 bits.
proof fn lemma_strip_indices_range(offset: int, t: nat)
    requires
        0 <= offset,
        offset + t + 1 <= u32::MAX,
    ensures
        strip_indices(offset, t).len() == 3 * t,
        forall|j: int| 0 <= j < 3 * t ==> offset <= #[trigger] strip_indices(offset, t)[j] <= offset + t + 1,
    decreases t,
{
    if t > 0 {
        lemma_strip_indices_range(offset, (t - 1) as nat);
        let prev = strip_indices(offset, (t - 1) as nat);
        assert forall|j: int| 0 <= j < 3 * t implies offset <= #[trigger] strip_indices(offset, t)[j] <= offset + t + 1 by {
            if j < 3 * (t - 1) {
                assert(strip_indices(offset, t)[j] == prev[j]);
            }
        }
    }
}

/// A strip or fan of `n` studio model vertices starting at `offset` has
/// three indices per triangle, and every index names one of those
/// vertices, when all of them fit in 32 bits.
pub proof fn lemma_mdl_indices_in_range(n: nat, is_strip: bool, offset: int)
    requires
        0 <= offset,
        offset + n <= u32::MAX + 1,
    ensures
        spec_mdl_indices(n, is_strip, offset).len() == 3 * triangle_count(n),
        forall|j: int| 0 <= j < spec_mdl_indices(n, is_strip, offset).len() ==>
            offset <= #[trigger] spec_mdl_indices(n, is_strip, offset)[j] < offset + n,
{
    if n >= 2 {
        lemma_fan_indices_range(offset, (n - 2) as nat);
        lemma_strip_indices_range(offset, (n - 2) as nat);
    }
}

/// The fan triangulation of a convex polygon is the fan of a studio model
/// whose vertices start at zero.
pub proof fn lemma_polygon_fan_is_mdl_fan(n: nat)
    requires
        n >= 3,
    ensures
        fan_indices(0, (n - 2) as nat) == spec_mdl_indices(n, false, 0),
{
}

/// Indices shifted by `shift`.
pub open spec fn shifted(indices: Seq<u32>, shift: u32) -> Seq<u32> {
    Seq::new(indices.len(), |j: int| (indices[j] + shift) as u32)
}

/// Vertices and the triangles over them that are drawn with one texture
/// array.
pub struct Batch<V> {
    pub vertices: Vec<V>,
    pub indices: Vec<u32>,
}

impl<V> Batch<V> {
    /// A batch with nothing in it.
    pub fn new() -> (res: Self)
        ensures
            res.vertices@.len() == 0,
            res.indices@.len() == 0,
    {
        Batch { vertices: Vec::new(), indices: Vec::new() }
    }

    /// Appends a piece of geometry whose indices count from its own first
    /// vertex: they are shifted by the number of vertices already in the
    /// batch (cut to 32 bits), so that they keep naming the same vertices.
    pub fn append(&mut self, vertices: Vec<V>, indices: Vec<u32>)
        requires
            forall|j: int| 0 <= j < indices@.len() ==>
                indices@[j] + (old(self).vertices@.len() as u32) <= u32::MAX,
        ensures
            final(self).vertices@ == old(self).vertices@ + vertices@,
            final(self).indices@ == old(self).indices@ + shifted(indices@, old(self).vertices@.len() as u32),
    {
        let offset = #[verifier::truncate] (self.vertices.len() as u32);
        let ghost old_indices = self.indices@;
        let mut i: usize = 0;
        while i < indices.len()
            invariant
                i <= indices@.len(),
                offset == old(self).vertices@.len() as u32,
                self.vertices@ == old(self).vertices@,
                forall|j: int| 0 <= j < indices@.len() ==> indices@[j] + offset <= u32::MAX,
                self.indices@ == old_indices + shifted(indices@, offset).take(i as int),
            decreases indices@.len() - i,
        {
            self.indices.push(indices[i] + offset);
            proof {
                assert(shifted(indices@, offset).take(i + 1)
                    =~= shifted(indices@, offset).take(i as int).push((indices@[i as int] + offset) as u32));
            }
            i = i + 1;
        }
        proof {
            assert(shifted(indices@, offset).take(indices@.len() as int) =~= shifted(indices@, offset));
        }
        let mut vertices = vertices;
        self.vertices.append(&mut vertices);
    }
}

/// Adds a piece of geometry to the batch of texture array `array_index`,
/// making that batch when there is none yet.
pub fn add_to_batch_lookup<V>(
    lookup: &mut HashMap<usize, Batch<V>>,
    array_index: usize,
    vertices: Vec<V>,
    indices: Vec<u32>,
)
    requires
        forall|j: int| 0 <= j < indices@.len() ==> indices@[j] + (
            if old(lookup)@.contains_key(array_index) {
                old(lookup)@[array_index].vertices@.len() as u32
            } else {
                0u32
            }) <= u32::MAX,
    ensures
        final(lookup)@.dom() == old(lookup)@.dom().insert(array_index),
        forall|k: usize| k != array_index && old(lookup)@.contains_key(k) ==> #[trigger] final(lookup)@[k] == old(lookup)@[k],
        old(lookup)@.contains_key(array_index) ==> {
            &&& final(lookup)@[array_index].vertices@ == old(lookup)@[array_index].vertices@ + vertices@
            &&& final(lookup)@[array_index].indices@ == old(lookup)@[array_index].indices@
                + shifted(indices@, old(lookup)@[array_index].vertices@.len() as u32)
        },
        !old(lookup)@.contains_key(array_index) ==> {
            &&& final(lookup)@[array_index].vertices@ == vertices@
            &&& final(lookup)@[array_index].indices@ == shifted(indices@, 0)
        },
{
    broadcast use vstd::std_specs::hash::group_hash_axioms;
    let mut batch = match lookup.remove(&array_index) {
        Some(b) => b,
        None => Batch::new(),
    };
    batch.append(vertices, indices);
    lookup.insert(array_index, batch);
    proof {
        assert(final(lookup)@.dom() =~= old(lookup)@.dom().insert(array_index));
    }
}

/// Whether a piece of geometry with these indices fits the batch of
/// texture array `array_index`: its indices stay in 32 bits once shifted
/// past the vertices already there.
pub open spec fn fits_batch<V>(lookup: Map<usize, Batch<V>>, array_index: usize, indices: Seq<u32>) -> bool {
    forall|j: int| 0 <= j < indices.len() ==> indices[j] + (
        if lookup.contains_key(array_index) {
            lookup[array_index].vertices@.len() as u32
        } else {
            0u32
        }) <= u32::MAX
}

/// `after` is `before` with the geometry added to the batch of texture
/// array `array_index`, as `add_to_batch_lookup` does.
pub open spec fn batch_added<V>(
    before: Map<usize, Batch<V>>,
    after: Map<usize, Batch<V>>,
    array_index: usize,
    vertices: Seq<V>,
    indices: Seq<u32>,
) -> bool {
    &&& after.dom() == before.dom().insert(array_index)
    &&& forall|k: usize| k != array_index && before.contains_key(k) ==> #[trigger] after[k] == before[k]
    &&& before.contains_key(array_index) ==> {
        &&& after[array_index].vertices@ == before[array_index].vertices@ + vertices
        &&& after[array_index].indices@ == before[array_index].indices@
            + shifted(indices, before[array_index].vertices@.len() as u32)
    }
    &&& !before.contains_key(array_index) ==> {
        &&& after[array_index].vertices@ == vertices
        &&& after[array_index].indices@ == shifted(indices, 0)
    }
}

/// The batches an entity's geometry goes to.
#[derive(Clone, Copy, PartialEq, Eq, Structural, Debug)]
pub enum BatchKind {
    Opaque,
    Transparent,
}

/// Blended brushes and sprites are drawn with the transparent batches;
/// everything else with the opaque ones.
pub open spec fn spec_batch_kind(model: EntityModel) -> BatchKind {
    match model {
        EntityModel::TransparentEntityBrush(_) => BatchKind::Transparent,
        EntityModel::Sprite => BatchKind::Transparent,
        _ => BatchKind::Opaque,
    }
}

/// The batches an entity's geometry goes to.
pub fn batch_kind(model: &EntityModel) -> (res: BatchKind)
    ensures
        res == spec_batch_kind(*model),
        (res == BatchKind::Transparent) <==> (*model is TransparentEntityBrush || *model is Sprite),
{
    match model {
        EntityModel::TransparentEntityBrush(_) => BatchKind::Transparent,
        EntityModel::Sprite => BatchKind::Transparent,
        _ => BatchKind::Opaque,
    }
}

/// The brush model that an entity draws: the world is model zero.
pub open spec fn spec_brush_model_index(model: EntityModel) -> Option<i32> {
    match model {
        EntityModel::Bsp => Some(0),
        EntityModel::OpaqueEntityBrush((x, _)) => Some(x),
        EntityModel::TransparentEntityBrush((x, _)) => Some(x),
        EntityModel::NoDrawBrush(x) => Some(x),
        _ => None,
    }
}

/// The brush model that an entity draws, if it draws one.
pub fn brush_model_index(model: &EntityModel) -> (res: Option<i32>)
    ensures
        res == spec_brush_model_index(*model),
        *model is Bsp ==> res == Some(0i32),
        *model matches EntityModel::OpaqueEntityBrush((x, _)) ==> res == Some(x),
        *model matches EntityModel::TransparentEntityBrush((x, _)) ==> res == Some(x),
        *model matches EntityModel::NoDrawBrush(x) ==> res == Some(x),
        (*model is BspMdlEntity || *model is Sprite) ==> res is None,
{
    match model {
        EntityModel::Bsp => Some(0),
        EntityModel::OpaqueEntityBrush((x, _)) => Some(*x),
        EntityModel::TransparentEntityBrush((x, _)) => Some(*x),
        EntityModel::NoDrawBrush(x) => Some(*x),
        _ => None,
    }
}

/// A brush entity draws the BSP model it names, whatever its render
/// settings; only the world draws model zero; studio models and sprites
/// draw no brush model.
pub proof fn lemma_brush_model_index(x: i32, render: CustomRender, model_name: String, submodel: usize)
    ensures
        spec_brush_model_index(EntityModel::OpaqueEntityBrush((x, render))) == Some(x),
        spec_brush_model_index(EntityModel::TransparentEntityBrush((x, render))) == Some(x),
        spec_brush_model_index(EntityModel::NoDrawBrush(x)) == Some(x),
        spec_brush_model_index(EntityModel::Bsp) == Some(0i32),
        spec_brush_model_index(EntityModel::BspMdlEntity { model_name, submodel }) is None,
        spec_brush_model_index(EntityModel::Sprite) is None,
{
}

/// Blended brushes and sprites, and only they, go to the transparent
/// batches; the world, opaque and hidden brushes and studio models go to
/// the opaque ones.
pub proof fn lemma_batch_kind(model: EntityModel)
    ensures
        (spec_batch_kind(model) == BatchKind::Transparent)
            <==> (model is TransparentEntityBrush || model is Sprite),
        (spec_batch_kind(model) == BatchKind::Opaque)
            <==> (model is Bsp || model is OpaqueEntityBrush || model is NoDrawBrush || model is BspMdlEntity),
{
}

/// Adds a piece of an entity's geometry to the batches of its kind, in
/// the batch of texture array `array_index`; the other batches stay as
/// they were.
pub fn add_entity_geometry<V>(
    opaque: &mut HashMap<usize, Batch<V>>,
    transparent: &mut HashMap<usize, Batch<V>>,
    model: &EntityModel,
    array_index: usize,
    vertices: Vec<V>,
    indices: Vec<u32>,
)
    requires
        spec_batch_kind(*model) == BatchKind::Opaque ==> fits_batch(old(opaque)@, array_index, indices@),
        spec_batch_kind(*model) == BatchKind::Transparent ==> fits_batch(old(transparent)@, array_index, indices@),
    ensures
        spec_batch_kind(*model) == BatchKind::Opaque ==> {
            &&& batch_added(old(opaque)@, final(opaque)@, array_index, vertices@, indices@)
            &&& final(transparent)@ == old(transparent)@
        },
        spec_batch_kind(*model) == BatchKind::Transparent ==> {
            &&& batch_added(old(transparent)@, final(transparent)@, array_index, vertices@, indices@)
            &&& final(opaque)@ == old(opaque)@
        },
{
    match batch_kind(model) {
        BatchKind::Opaque => add_to_batch_lookup(opaque, array_index, vertices, indices),
        BatchKind::Transparent => add_to_batch_lookup(transparent, array_index, vertices, indices),
    }
}

/// The kind of a brush face as the world shader sees it: 1 for sky, 2 for
/// a brush that is not normally drawn, 0 otherwise.
pub fn bsp_face_type(is_sky: bool, is_nodraw: bool) -> (res: u32)
    ensures
        res == (if is_sky { 1u32 } else if is_nodraw { 2u32 } else { 0u32 }),
{
    if is_sky {
        1
    } else if is_nodraw {
        2
    } else {
        0
    }
}

/// The indices of a sprite quad `V0 V1 V2 V3` (top left, top right, bottom
/// left, bottom right): the triangles `V0 V1 V2` and `V2 V1 V3`.
pub fn sprite_quad_indices() -> (res: Vec<u32>)
    ensures
        res@ == seq![0u32, 1, 2, 2, 1, 3],
{
    let res: Vec<u32> = vec![0, 1, 2, 2, 1, 3];
    proof {
        assert(res@ =~= seq![0u32, 1, 2, 2, 1, 3]);
    }
    res
}

/// The frame count of a sprite in the high 16 bits and its orientation in
/// the low bits, as the sprite shader reads them.
pub fn pack_sprite_frame_orientation(frame_count: u32, orientation: u32) -> (res: u32)
    ensures
        res == ((frame_count << 16u32) | orientation),
{
    frame_count << 16 | orientation
}

/// With fewer than 65536 frames and an orientation below 65536, the frame
/// count and orientation are read back from the packed word.
pub proof fn lemma_sprite_packing_round_trip(frame_count: u32, orientation: u32)
    requires
        frame_count < 0x1_0000,
        orientation < 0x1_0000,
    ensures
        ((frame_count << 16u32) | orientation) >> 16u32 == frame_count,
        ((frame_count << 16u32) | orientation) & 0xffffu32 == orientation,
{
    assert(((frame_count << 16u32) | orientation) >> 16u32 == frame_count) by (bit_vector)
        requires frame_count < 0x1_0000, orientation < 0x1_0000;
    assert(((frame_count << 16u32) | orientation) & 0xffffu32 == orientation) by (bit_vector)
        requires frame_count < 0x1_0000, orientation < 0x1_0000;
}

/// The mvp slots taken by the bones of a model beyond its first: one less
/// than the bone count, and none for a model without bones.
pub open spec fn extra_bone_slots(bones: Option<usize>) -> nat {
    match bones {
        Some(c) => if c >= 1 { (c - 1) as nat } else { 0 },
        None => 0,
    }
}

/// The mvp slots taken by the extra bones of all studio models among
/// `entities`, given as `(world index, bone count of its studio model)`.
pub open spec fn extra_slots_used(entities: Seq<(usize, Option<usize>)>) -> nat
    decreases entities.len(),
{
    if entities.len() == 0 {
        0
    } else {
        extra_slots_used(entities.drop_last()) + extra_bone_slots(entities.last().1)
    }
}

/// The first mvp slot of the extra bones of entity `k`: the extra bones
/// are laid out after all entities, in entity order.
pub open spec fn first_bone_slot(entities: Seq<(usize, Option<usize>)>, k: int) -> nat {
    entities.len() + extra_slots_used(entities.take(k))
}

/// The skeletal lookup built over the first `k` entities: each studio model
/// with more than one bone maps its world index to its first extra slot.
pub open spec fn spec_mvp_lookup(entities: Seq<(usize, Option<usize>)>, k: nat) -> Map<usize, usize>
    decreases k,
{
    if k == 0 {
        Map::empty()
    } else {
        let prev = spec_mvp_lookup(entities, (k - 1) as nat);
        match entities[k - 1].1 {
            Some(c) => if c > 1 {
                prev.insert(entities[k - 1].0, first_bone_slot(entities, k - 1) as usize)
            } else {
                prev
            },
            None => prev,
        }
    }
}

/// The mvp slot of bone `bone_idx` of the studio model of entity
/// `world_entity_index`: bone zero uses the entity's own slot, the others
/// count from `first_slot`.
pub open spec fn spec_bone_mvp_index(world_entity_index: usize, first_slot: usize, bone_idx: u32) -> u32 {
    if bone_idx == 0 {
        world_entity_index as u32
    } else {
        (first_slot + bone_idx - 1) as u32
    }
}

/// The mvp slot of one bone of a studio model.
pub fn bone_mvp_index(world_entity_index: usize, first_slot: usize, bone_idx: u32) -> (res: u32)
    requires
        bone_idx > 0 ==> first_slot + bone_idx <= usize::MAX,
    ensures
        res == spec_bone_mvp_index(world_entity_index, first_slot, bone_idx),
{
    if bone_idx == 0 {
        #[verifier::truncate] (world_entity_index as u32)
    } else {
        #[verifier::truncate] ((first_slot + bone_idx as usize - 1) as u32)
    }
}

/// Lays out the mvp slots of skeletal bones. `entities` lists, in world
/// order, each entity's world index and, for a studio model that could be
/// found, its bone count. Returns the first extra slot of each entity and
/// the lookup from the world index of each model with more than one bone
/// to its first extra slot.
pub fn allocate_bone_mvp_slots(entities: &[(usize, Option<usize>)]) -> (res: (Vec<usize>, HashMap<usize, usize>))
    requires
        entities@.len() + extra_slots_used(entities@) <= usize::MAX,
    ensures
        res.0@.len() == entities@.len(),
        forall|k: int| 0 <= k < entities@.len() ==> #[trigger] res.0@[k] == first_bone_slot(entities@, k),
        res.1@ == spec_mvp_lookup(entities@, entities@.len()),
{
    broadcast use vstd::std_specs::hash::group_hash_axioms;
    let n = entities.len();
    let mut firsts: Vec<usize> = Vec::new();
    let mut lookup: HashMap<usize, usize> = HashMap::new();
    let mut current: usize = n;
    let mut k: usize = 0;
    proof {
        assert(entities@.take(0) =~= Seq::<(usize, Option<usize>)>::empty());
        assert(lookup@ =~= spec_mvp_lookup(entities@, 0));
    }
    while k < n
        invariant
            n == entities@.len(),
            n + extra_slots_used(entities@) <= usize::MAX,
            k <= n,
            current == first_bone_slot(entities@, k as int),
            firsts@.len() == k,
            forall|j: int| 0 <= j < k ==> #[trigger] firsts@[j] == first_bone_slot(entities@, j),
            lookup@ == spec_mvp_lookup(entities@, k as nat),
        decreases n - k,
    {
        let (world_index, bones) = entities[k];
        proof {
            lemma_extra_slots_prefix(entities@, k as int + 1);
            assert(entities@.take(k + 1).drop_last() =~= entities@.take(k as int));
            assert(entities@.take(k + 1).last() == entities@[k as int]);
        }
        firsts.push(current);
        match bones {
            Some(c) => {
                if c > 1 {
                    lookup.insert(world_index, current);
                }
                current = current + c.saturating_sub(1);
            },
            None => {},
        }
        k = k + 1;
    }
    (firsts, lookup)
}

/// The extra slots of a prefix never exceed those of the whole list.
proof fn lemma_extra_slots_prefix(entities: Seq<(usize, Option<usize>)>, k: int)
    requires
        0 <= k <= entities.len(),
    ensures
        extra_slots_used(entities.take(k)) <= extra_slots_used(entities),
    decreases entities.len(),
{
    if k < entities.len() {
        lemma_extra_slots_prefix(entities.drop_last(), k);
        assert(entities.drop_last().take(k) =~= entities.take(k));
    } else {
        assert(entities.take(k) =~= entities);
    }
}

/// Extra slots only grow along the entity list: entity `j` owns its extra
/// slots before any later entity's first slot.
proof fn lemma_first_bone_slot_grows(entities: Seq<(usize, Option<usize>)>, j: int, k: int)
    requires
        0 <= j < k <= entities.len(),
    ensures
        first_bone_slot(entities, j) + extra_bone_slots(entities[j].1) <= first_bone_slot(entities, k),
    decreases k - j,
{
    assert(entities.take(j + 1).drop_last() =~= entities.take(j));
    if k > j + 1 {
        lemma_first_bone_slot_grows(entities, j + 1, k);
    }
}

/// The skeletal slots of two bones beyond the first, of two different
/// studio models, differ, and none of them is the slot of an entity.
pub proof fn lemma_bone_slots_disjoint(
    entities: Seq<(usize, Option<usize>)>,
    j: int,
    k: int,
    bone_j: int,
    bone_k: int,
)
    requires
        0 <= j < k < entities.len(),
        entities[j].1 is Some,
        entities[k].1 is Some,
        1 <= bone_j < entities[j].1->0,
        1 <= bone_k < entities[k].1->0,
    ensures
        first_bone_slot(entities, j) + bone_j - 1 < first_bone_slot(entities, k) + bone_k - 1,
        first_bone_slot(entities, j) + bone_j - 1 >= entities.len(),
{
    lemma_first_bone_slot_grows(entities, j, k);
}

/// The absolute value of a surface edge, which indexes the edge list.
pub open spec fn surf_edge_index(se: i32) -> int {
    if se < 0 { -se } else { se as int }
}

/// The vertex that a surface edge starts a face with: the first vertex of
/// its edge when the surface edge is positive, the second otherwise.
pub open spec fn spec_surf_edge_vertex(se: i32, edges: Seq<[u16; 2]>) -> int {
    let e = edges[surf_edge_index(se)];
    if se > 0 { e[0] as int } else { e[1] as int }
}

/// The vertices of a face, in winding order, from its run of surface edges.
pub fn face_vertices<V: Copy>(
    first_edge: i32,
    edge_count: u16,
    surf_edges: &[i32],
    edges: &[[u16; 2]],
    vertices: &[V],
) -> (res: Vec<V>)
    requires
        (first_edge as u32) + (edge_count as u32) <= u32::MAX,
        (first_edge as u32) + (edge_count as u32) <= surf_edges@.len(),
        forall|j: int| (first_edge as u32) <= j < (first_edge as u32) + (edge_count as u32) ==> {
            &&& surf_edges@[j] != i32::MIN
            &&& surf_edge_index(surf_edges@[j]) < edges@.len()
            &&& spec_surf_edge_vertex(surf_edges@[j], edges@) < vertices@.len()
        },
    ensures
        res@.len() == edge_count,
        forall|j: int| 0 <= j < edge_count ==> #[trigger] res@[j]
            == vertices@[spec_surf_edge_vertex(surf_edges@[(first_edge as u32) + j], edges@)],
{
    let start = #[verifier::truncate] (first_edge as u32);
    let end = start + edge_count as u32;
    let mut res: Vec<V> = Vec::new();
    let mut edge_idx = start;
    while edge_idx < end
        invariant
            start == first_edge as u32,
            end == start + edge_count as u32,
            end <= surf_edges@.len(),
            start <= edge_idx <= end,
            forall|j: int| start <= j < end ==> {
                &&& surf_edges@[j] != i32::MIN
                &&& surf_edge_index(surf_edges@[j]) < edges@.len()
                &&& spec_surf_edge_vertex(surf_edges@[j], edges@) < vertices@.len()
            },
            res@.len() == edge_idx - start,
            forall|j: int| 0 <= j < edge_idx - start ==> #[trigger] res@[j]
                == vertices@[spec_surf_edge_vertex(surf_edges@[start + j], edges@)],
        decreases end - edge_idx,
    {
        let surf_edge = surf_edges[edge_idx as usize];
        let edge_index: i32 = if surf_edge < 0 { -surf_edge } else { surf_edge };
        let pair = edges[edge_index as usize];
        if surf_edge > 0 {
            res.push(vertices[pair[0] as usize]);
        } else {
            res.push(vertices[pair[1] as usize]);
        }
        edge_idx = edge_idx + 1;
    }
    res
}

/// Where the pixels of a map texture come from.
#[derive(Clone, Copy, PartialEq, Eq, Structural, Debug)]
pub enum TextureSource {
    /// The map file holds the texture.
    Embedded,
    /// Entry `entry` of external wad `wad` holds it.
    External { wad: usize, entry: usize },
    /// No wad holds it: the placeholder is drawn.
    Missing,
}

/// Whether entry `e` of wad `w` is a texture named `name`.
pub open spec fn wad_entry_is(wads: Seq<Seq<Option<Seq<char>>>>, w: int, e: int, name: Seq<char>) -> bool {
    0 <= w < wads.len() && 0 <= e < wads[w].len() && wads[w][e] == Some(name)
}

/// Views of the texture names of wad entries; entries that are not
/// textures have none.
pub open spec fn wad_views(wads: Seq<Vec<Option<String>>>) -> Seq<Seq<Option<Seq<char>>>> {
    Seq::new(wads.len(), |w: int| Seq::new(wads[w]@.len(), |e: int| match wads[w]@[e] {
        Some(n) => Some(n@),
        None => None,
    }))
}

/// Chooses where a map texture is read from. A texture with a mip offset
/// of zero lives in an external wad: the first wad, and in it the first
/// entry, that is a texture of the same name is taken; without one the
/// texture is missing.
pub fn bsp_texture_source(name: &str, in_external_wad: bool, wads: &Vec<Vec<Option<String>>>) -> (res: TextureSource)
    ensures
        !in_external_wad ==> res == TextureSource::Embedded,
        in_external_wad ==> match res {
            TextureSource::Embedded => false,
            TextureSource::External { wad, entry } => {
                &&& wad_entry_is(wad_views(wads@), wad as int, entry as int, name@)
                &&& forall|w: int, e: int| #![trigger wad_views(wads@)[w][e]]
                    (w < wad || (w == wad && e < entry)) ==> !wad_entry_is(wad_views(wads@), w, e, name@)
            },
            TextureSource::Missing => forall|w: int, e: int| #![trigger wad_views(wads@)[w][e]]
                !wad_entry_is(wad_views(wads@), w, e, name@),
        },
{
    if !in_external_wad {
        return TextureSource::Embedded;
    }
    let ghost v = wad_views(wads@);
    let mut w: usize = 0;
    while w < wads.len()
        invariant
            in_external_wad,
            w <= wads@.len(),
            v == wad_views(wads@),
            forall|w2: int, e: int| #![trigger v[w2][e]] w2 < w ==> !wad_entry_is(v, w2, e, name@),
        decreases wads@.len() - w,
    {
        let entries = &wads[w];
        let mut e: usize = 0;
        while e < entries.len()
            invariant
                in_external_wad,
                w < wads@.len(),
                entries == &wads@[w as int],
                e <= entries@.len(),
                v == wad_views(wads@),
                forall|w2: int, e2: int| #![trigger v[w2][e2]] w2 < w ==> !wad_entry_is(v, w2, e2, name@),
                forall|e2: int| #![trigger v[w as int][e2]] e2 < e ==> !wad_entry_is(v, w as int, e2, name@),
            decreases entries@.len() - e,
        {
            match &entries[e] {
                Some(n) => {
                    if str_eq(n.as_str(), name) {
                        proof {
                            assert(v[w as int][e as int] == Some(name@));
                        }
                        return TextureSource::External { wad: w, entry: e };
                    }
                },
                None => {},
            }
            proof {
                assert(!wad_entry_is(v, w as int, e as int, name@));
            }
            e = e + 1;
        }
        proof {
            assert forall|w2: int, e2: int| #![trigger v[w2][e2]] w2 < w + 1 implies !wad_entry_is(v, w2, e2, name@) by {
                if w2 == w {
                    if 0 <= e2 < v[w2].len() {
                        assert(e2 < e);
                    }
                }
            }
        }
        w = w + 1;
    }
    TextureSource::Missing
}

/// The position of the first name that is `target`.
pub fn find_name(names: &Vec<String>, target: &str) -> (res: Option<usize>)
    ensures
        match res {
            Some(i) => i < names@.len() && names@[i as int]@ == target@
                && forall|j: int| 0 <= j < i ==> #[trigger] names@[j]@ != target@,
            None => forall|j: int| 0 <= j < names@.len() ==> #[trigger] names@[j]@ != target@,
        },
{
    let mut i: usize = 0;
    while i < names.len()
        invariant
            i <= names@.len(),
            forall|j: int| 0 <= j < i ==> #[trigger] names@[j]@ != target@,
        decreases names@.len() - i,
    {
        if str_eq(names[i].as_str(), target) {
            return Some(i);
        }
        i = i + 1;
    }
    None
}

/// The position of the first texture named `SKY` among the map textures.
pub fn find_sky_texture(texture_names: &Vec<String>) -> (res: Option<usize>)
    ensures
        match res {
            Some(i) => i < texture_names@.len() && texture_names@[i as int]@ == "SKY"@
                && forall|j: int| 0 <= j < i ==> #[trigger] texture_names@[j]@ != "SKY"@,
            None => forall|j: int| 0 <= j < texture_names@.len() ==> #[trigger] texture_names@[j]@ != "SKY"@,
        },
{
    find_name(texture_names, "SKY")
}

/// The position of the first opaque batch drawn with texture array
/// `array_index`: the batch that holds the sky brushes.
pub fn find_batch_index(batch_array_indices: &Vec<usize>, array_index: usize) -> (res: Option<usize>)
    ensures
        match res {
            Some(i) => i < batch_array_indices@.len() && batch_array_indices@[i as int] == array_index
                && forall|j: int| 0 <= j < i ==> #[trigger] batch_array_indices@[j] != array_index,
            None => forall|j: int| 0 <= j < batch_array_indices@.len() ==> #[trigger] batch_array_indices@[j] != array_index,
        },
{
    let mut i: usize = 0;
    while i < batch_array_indices.len()
        invariant
            i <= batch_array_indices@.len(),
            forall|j: int| 0 <= j < i ==> #[trigger] batch_array_indices@[j] != array_index,
        decreases batch_array_indices@.len() - i,
    {
        if batch_array_indices[i] == array_index {
            return Some(i);
        }
        i = i + 1;
    }
    None
}

/// Appends a run of studio model triangles to a batch: its vertices, and
/// the strip or fan indices over them, counted from the batch's vertex
/// count.
pub fn append_mdl_triangle_run<V>(batch: &mut Batch<V>, vertices: Vec<V>, is_strip: bool)
    requires
        old(batch).vertices@.len() + vertices@.len() <= usize::MAX,
    ensures
        final(batch).vertices@ == old(batch).vertices@ + vertices@,
        final(batch).indices@ == old(batch).indices@
            + spec_mdl_indices(vertices@.len(), is_strip, old(batch).vertices@.len() as int),
{
    let offset = batch.vertices.len();
    triangulate_mdl_triverts(&mut batch.indices, &vertices, is_strip, offset);
    let mut vertices = vertices;
    batch.vertices.append(&mut vertices);
}

/// Shifting the indices of a strip or fan starting at zero gives the
/// strip or fan starting at the shift, when all indices fit in 32 bits:
/// a run added with its own indices lands where `Batch::append` puts it.
pub proof fn lemma_mdl_indices_shift(n: nat, is_strip: bool, offset: int)
    requires
        0 <= offset,
        offset + n <= u32::MAX + 1,
    ensures
        shifted(spec_mdl_indices(n, is_strip, 0), offset as u32) == spec_mdl_indices(n, is_strip, offset),
{
    let t = triangle_count(n);
    if t == 0 {
        assert(shifted(spec_mdl_indices(n, is_strip, 0), offset as u32) =~= spec_mdl_indices(n, is_strip, offset));
    } else if is_strip {
        lemma_strip_shift(t, offset);
    } else {
        lemma_fan_shift(t, offset);
    }
}

proof fn lemma_fan_shift(t: nat, offset: int)
    requires
        0 <= offset,
        offset + t + 1 <= u32::MAX,
    ensures
        shifted(fan_indices(0, t), offset as u32) == fan_indices(offset, t),
    decreases t,
{
    lemma_fan_indices_range(0, t);
    lemma_fan_indices_range(offset, t);
    if t > 0 {
        lemma_fan_shift((t - 1) as nat, offset);
        assert(shifted(fan_indices(0, t), offset as u32) =~= fan_indices(offset, t)) by {
            let prev0 = fan_indices(0, (t - 1) as nat);
            assert(fan_indices(0, t) == prev0 + fan_triangle(0, t as int));
            assert forall|j: int| 0 <= j < 3 * t implies #[trigger] shifted(fan_indices(0, t), offset as u32)[j] == fan_indices(offset, t)[j] by {
                if j < 3 * (t - 1) {
                    assert(shifted(prev0, offset as u32)[j] == fan_indices(offset, (t - 1) as nat)[j]);
                }
            }
        }
    }
}

proof fn lemma_strip_shift(t: nat, offset: int)
    requires
        0 <= offset,
        offset + t + 1 <= u32::MAX,
    ensures
        shifted(strip_indices(0, t), offset as u32) == strip_indices(offset, t),
    decreases t,
{
    lemma_strip_indices_range(0, t);
    lemma_strip_indices_range(offset, t);
    if t > 0 {
        lemma_strip_shift((t - 1) as nat, offset);
        assert(shifted(strip_indices(0, t), offset as u32) =~= strip_indices(offset, t)) by {
            let prev0 = strip_indices(0, (t - 1) as nat);
            assert(strip_indices(0, t) == prev0 + strip_triangle(0, t - 1));
            assert forall|j: int| 0 <= j < 3 * t implies #[trigger] shifted(strip_indices(0, t), offset as u32)[j] == strip_indices(offset, t)[j] by {
                if j < 3 * (t - 1) {
                    assert(shifted(prev0, offset as u32)[j] == strip_indices(offset, (t - 1) as nat)[j]);
                }
            }
        }
    }
}

} // verus!
