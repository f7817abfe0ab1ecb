//! The lightmap atlas: every face that has a lightmap gets a rectangle of
//! one square atlas image from a guillotine allocator, and its run of
//! lightmap texels is copied into that rectangle row by row.

use vstd::prelude::*;
use vstd::set_lib::*;
use crate::texture::Rgba8Image;

verus! {

#[verifier::external_type_specification]
#[verifier::external_body]
pub struct ExAtlasAllocator(guillotiere::AtlasAllocator);

/// The rectangles, as `(min x, min y, max x, max y)`, that an atlas
/// allocator has handed out and not taken back.
pub uninterp spec fn atlas_allocations(atlas: guillotiere::AtlasAllocator) -> Set<(i32, i32, i32, i32)>;

/// The width and height that an atlas allocator was made with.
pub uninterp spec fn atlas_size(atlas: guillotiere::AtlasAllocator) -> (i32, i32);

/// The small and large size thresholds that an atlas allocator was made
/// with.
pub uninterp spec fn atlas_thresholds(atlas: guillotiere::AtlasAllocator) -> (i32, i32);

/// The sizes asked of an atlas allocator so far, in order, refused ones
/// included.
pub uninterp spec fn atlas_requests(atlas: guillotiere::AtlasAllocator) -> Seq<(i32, i32)>;

/// The corner that guillotiere's allocator, made `width` by `height` with
/// unit alignment and these size thresholds, gives for the last of
/// `sizes` after being asked the earlier ones in order, or `None` where it
/// refuses it. The allocator reads no clock, no randomness and no hashed
/// order: its answer is a function of these values alone.
pub uninterp spec fn guillotine_place(width: i32, height: i32, small: i32, large: i32, sizes: Seq<(i32, i32)>) -> Option<(i32, i32)>;

/// Two rectangles share no pixel.
pub open spec fn rects_disjoint(a: (i32, i32, i32, i32), b: (i32, i32, i32, i32)) -> bool {
    a.2 <= b.0 || b.2 <= a.0 || a.3 <= b.1 || b.3 <= a.1
}

/// Calls `AtlasAllocator::with_options` with a `width` by `height` atlas,
/// unit alignment and the given size thresholds. The contract claims that
/// a new allocator has handed out nothing, has been asked nothing, and
/// keeps its size and thresholds; the arguments are those that the
/// constructor asserts.
#[verifier::external_body]
fn new_atlas_allocator(width: i32, height: i32, small_size_threshold: i32, large_size_threshold: i32) -> (res:
    guillotiere::AtlasAllocator)
    requires
        width > 0,
        height > 0,
        small_size_threshold <= large_size_threshold,
    ensures
        atlas_allocations(res) == Set::<(i32, i32, i32, i32)>::empty(),
        atlas_size(res) == (width, height),
        atlas_thresholds(res) == (small_size_threshold, large_size_threshold),
        atlas_requests(res) == Seq::<(i32, i32)>::empty(),
{
    let options = guillotiere::AllocatorOptions {
        small_size_threshold,
        large_size_threshold,
        ..guillotiere::DEFAULT_OPTIONS
    };
    guillotiere::AtlasAllocator::with_options(guillotiere::size2(width, height), &options)
}

/// Calls `AtlasAllocator::allocate` for a `width` by `height` rectangle and
/// returns the corner of the rectangle it hands out. The contract claims
/// what the allocator's source shows for unit alignment: an empty size is
/// refused; a rectangle handed out has exactly the asked size, lies inside
/// the atlas, overlaps no rectangle handed out before and is added to
/// them; a refusal changes nothing handed out. The answer, place or
/// refusal, is the one that `guillotine_place` names for the sizes asked
/// so far and this one.
#[verifier::external_body]
fn atlas_allocate(atlas: &mut guillotiere::AtlasAllocator, width: i32, height: i32) -> (res: Option<(i32, i32)>)
    ensures
        atlas_size(*final(atlas)) == atlas_size(*old(atlas)),
        atlas_thresholds(*final(atlas)) == atlas_thresholds(*old(atlas)),
        atlas_requests(*final(atlas)) == atlas_requests(*old(atlas)).push((width, height)),
        res == guillotine_place(
            atlas_size(*old(atlas)).0,
            atlas_size(*old(atlas)).1,
            atlas_thresholds(*old(atlas)).0,
            atlas_thresholds(*old(atlas)).1,
            atlas_requests(*old(atlas)).push((width, height)),
        ),
        match res {
            None => atlas_allocations(*final(atlas)) == atlas_allocations(*old(atlas)),
            Some((x, y)) => {
                &&& width > 0 && height > 0
                &&& 0 <= x && x + width <= atlas_size(*old(atlas)).0
                &&& 0 <= y && y + height <= atlas_size(*old(atlas)).1
                &&& forall|r: (i32, i32, i32, i32)| #[trigger] atlas_allocations(*old(atlas)).contains(r)
                    ==> rects_disjoint(r, (x, y, (x + width) as i32, (y + height) as i32))
                &&& atlas_allocations(*final(atlas))
                    == atlas_allocations(*old(atlas)).insert((x, y, (x + width) as i32, (y + height) as i32))
            },
        },
{
    match atlas.allocate(guillotiere::size2(width, height)) {
        Some(allocation) => Some((allocation.rectangle.min.x, allocation.rectangle.min.y)),
        None => None,
    }
}

/// Side of the square lightmap atlas, in pixels.
pub const LIGHTMAP_ATLAS_DIMENSION: usize = 1096;

/// Side of the square lightmap atlas of the first renderer, in pixels.
pub const LEGACY_LIGHTMAP_ATLAS_DIMENSION: usize = 4096;

/// The first byte of pixel `(px, py)` of an atlas `dim` pixels wide.
pub open spec fn pixel_base(px: int, py: int, dim: int) -> int {
    4 * (py * dim + px)
}

/// Byte `c` of atlas pixel `(px, py)`.
pub open spec fn px_byte(data: Seq<u8>, px: int, py: int, c: int, dim: int) -> u8 {
    data[pixel_base(px, py, dim) + c]
}

/// Byte `c` of the RGBA pixel of a lightmap texel: its color, fully opaque.
pub open spec fn texel_byte(texel: [u8; 3], c: int) -> u8 {
    if c < 3 { texel[c] } else { 255 }
}

/// A byte of a pixel of an atlas `dim` pixels square.
pub open spec fn in_atlas(px: int, py: int, c: int, dim: int) -> bool {
    0 <= px < dim && 0 <= py < dim && 0 <= c < 4
}

/// Different atlas pixels use different bytes.
proof fn lemma_pixel_bytes_apart(px: int, py: int, c: int, qx: int, qy: int, dim: int)
    requires
        0 <= px < dim,
        0 <= qx < dim,
        0 <= py,
        0 <= qy,
        0 <= c < 4,
        px != qx || py != qy,
    ensures
        pixel_base(px, py, dim) + c < pixel_base(qx, qy, dim) || pixel_base(px, py, dim) + c >= pixel_base(qx, qy, dim) + 4,
{
    if py < qy {
        assert(py * dim + px < qy * dim + qx) by (nonlinear_arith)
            requires py < qy, 0 <= px < dim, 0 <= qx;
    } else if py > qy {
        assert(py * dim + px > qy * dim + qx) by (nonlinear_arith)
            requires py > qy, 0 <= qx < dim, 0 <= px;
    }
}

/// The bytes of an atlas pixel lie inside the atlas data.
proof fn lemma_pixel_in_data(px: int, py: int, c: int, dim: int)
    requires
        in_atlas(px, py, c, dim),
    ensures
        0 <= pixel_base(px, py, dim) + c < 4 * dim * dim,
{
    assert(0 <= py * dim + px < dim * dim) by (nonlinear_arith)
        requires 0 <= px < dim, 0 <= py < dim;
    assert(4 * (py * dim + px) + c < 4 * dim * dim) by (nonlinear_arith)
        requires py * dim + px < dim * dim, 0 <= c < 4;
}

/// Whether a copy of a lightmap run into the rectangle at `(ax, ay)`,
/// `w` texels wide and `h` rows high, writes pixel `(px, py)`: the
/// pixels of the rectangle, row by row, as far as the run goes.
pub open spec fn blit_writes(run_len: int, ax: int, ay: int, w: int, h: int, px: int, py: int) -> bool {
    ax <= px < ax + w && ay <= py < ay + h && (px - ax) + (py - ay) * w < run_len
}

/// Copies `run_len` lightmap texels from `start` into the rectangle at
/// `(ax, ay)` of the atlas, row by row, each as an opaque pixel.
fn blit_lightmap(
    data: &mut Vec<u8>,
    lightmap: &[[u8; 3]],
    start: usize,
    run_len: usize,
    ax: usize,
    ay: usize,
    w: usize,
    h: usize,
    dim: usize,
)
    requires
        dim <= 16384,
        old(data)@.len() == 4 * dim * dim,
        ax + w <= dim,
        ay + h <= dim,
        start + run_len <= lightmap@.len(),
    ensures
        final(data)@.len() == old(data)@.len(),
        forall|px: int, py: int, c: int| #![trigger px_byte(final(data)@, px, py, c, dim as int)] in_atlas(px, py, c, dim as int) ==> {
            if blit_writes(run_len as int, ax as int, ay as int, w as int, h as int, px, py) {
                px_byte(final(data)@, px, py, c, dim as int) == texel_byte(lightmap@[start + (px - ax) + (py - ay) * w], c)
            } else {
                px_byte(final(data)@, px, py, c, dim as int) == px_byte(old(data)@, px, py, c, dim as int)
            }
        },
{
    let ghost orig = data@;
    let mut y: usize = 0;
    while y < h
        invariant
            data@.len() == orig.len(),
            orig.len() == 4 * dim * dim,
            dim <= 16384,
            ax + w <= dim,
            ay + h <= dim,
            start + run_len <= lightmap@.len(),
            y <= h,
            forall|px: int, py: int, c: int| #![trigger px_byte(data@, px, py, c, dim as int)] in_atlas(px, py, c, dim as int) ==> {
                if blit_writes(run_len as int, ax as int, ay as int, w as int, h as int, px, py) && py < ay + y {
                    px_byte(data@, px, py, c, dim as int) == texel_byte(lightmap@[start + (px - ax) + (py - ay) * w], c)
                } else {
                    px_byte(data@, px, py, c, dim as int) == px_byte(orig, px, py, c, dim as int)
                }
            },
        decreases h - y,
    {
        let mut x: usize = 0;
        while x < w
            invariant
                data@.len() == orig.len(),
                orig.len() == 4 * dim * dim,
            dim <= 16384,
                ax + w <= dim,
                ay + h <= dim,
                start + run_len <= lightmap@.len(),
                y < h,
                x <= w,
                forall|px: int, py: int, c: int| #![trigger px_byte(data@, px, py, c, dim as int)] in_atlas(px, py, c, dim as int) ==> {
                    if blit_writes(run_len as int, ax as int, ay as int, w as int, h as int, px, py)
                        && (py < ay + y || (py == ay + y && px < ax + x)) {
                        px_byte(data@, px, py, c, dim as int) == texel_byte(lightmap@[start + (px - ax) + (py - ay) * w], c)
                    } else {
                        px_byte(data@, px, py, c, dim as int) == px_byte(orig, px, py, c, dim as int)
                    }
                },
            decreases w - x,
        {
            assert(y * w <= h * w) by (nonlinear_arith)
                requires y < h;
            assert(h * w <= dim * dim) by (nonlinear_arith)
                requires h <= dim, w <= dim;
            assert(dim * dim <= 16384 * 16384) by (nonlinear_arith)
                requires dim <= 16384;
            let cur = x + y * w;
            if cur < run_len {
                let lump_len = lightmap.len();
                assert(start + cur < lump_len);
                let texel = lightmap[start + cur];
                assert((ay + y) * dim + ax + x < dim * dim) by (nonlinear_arith)
                    requires ay + y < dim, ax + x < dim;
                let base = 4 * ((ay + y) * dim + ax + x);
                assert(base + 3 < 4 * dim * dim) by (nonlinear_arith)
                    requires base == 4 * ((ay + y) * dim + ax + x), (ay + y) * dim + ax + x < dim * dim;
                let ghost before = data@;
                data.set(base, texel[0]);
                data.set(base + 1, texel[1]);
                data.set(base + 2, texel[2]);
                data.set(base + 3, 255);
                proof {
                    let gx = (ax + x) as int;
                    let gy = (ay + y) as int;
                    assert(base == pixel_base(gx, gy, dim as int));
                    assert forall|px: int, py: int, c: int| #![trigger px_byte(data@, px, py, c, dim as int)] in_atlas(px, py, c, dim as int) implies {
                        if blit_writes(run_len as int, ax as int, ay as int, w as int, h as int, px, py)
                            && (py < ay + y || (py == ay + y && px < ax + x + 1)) {
                            px_byte(data@, px, py, c, dim as int) == texel_byte(lightmap@[start + (px - ax) + (py - ay) * w], c)
                        } else {
                            px_byte(data@, px, py, c, dim as int) == px_byte(orig, px, py, c, dim as int)
                        }
                    } by {
                        if px == gx && py == gy {
                            assert(px_byte(data@, px, py, c, dim as int) == texel_byte(texel, c));
                            assert((px - ax) + (py - ay) * w == cur);
                        } else {
                            lemma_pixel_bytes_apart(px, py, c, gx, gy, dim as int);
                            lemma_pixel_in_data(px, py, c, dim as int);
                            assert(px_byte(data@, px, py, c, dim as int) == px_byte(before, px, py, c, dim as int));
                        }
                    }
                }
            } else {
                proof {
                    assert forall|px: int, py: int, c: int| #![trigger px_byte(data@, px, py, c, dim as int)] in_atlas(px, py, c, dim as int) implies {
                        if blit_writes(run_len as int, ax as int, ay as int, w as int, h as int, px, py)
                            && (py < ay + y || (py == ay + y && px < ax + x + 1)) {
                            px_byte(data@, px, py, c, dim as int) == texel_byte(lightmap@[start + (px - ax) + (py - ay) * w], c)
                        } else {
                            px_byte(data@, px, py, c, dim as int) == px_byte(orig, px, py, c, dim as int)
                        }
                    } by {
                        if py == ay + y && px == ax + x {
                            assert((px - ax) + (py - ay) * w == cur);
                        }
                    }
                }
            }
            x = x + 1;
        }
        y = y + 1;
    }
}

/// The lightmap of one face: the byte offset of its texels in the map's
/// lightmap lump (`-1` for none), and its size in texels.
#[derive(Clone, Copy, PartialEq, Eq, Structural, Debug)]
pub struct LightmapFace {
    pub lightmap_offset: i32,
    pub width: i32,
    pub height: i32,
}

/// Where the lightmap of face `face_index` lies in the atlas.
#[derive(Clone, Copy, PartialEq, Eq, Structural, Debug)]
pub struct LightmapAllocation {
    pub face_index: usize,
    pub x: i32,
    pub y: i32,
    pub width: i32,
    pub height: i32,
}

/// The lightmap atlas image and the place of each face's lightmap in it.
pub struct LightmapAtlas {
    pub image: Rgba8Image,
    pub allocations: Vec<LightmapAllocation>,
}

/// Why an atlas could not be built.
#[derive(Clone, Copy, PartialEq, Eq, Structural, Debug)]
pub enum LightmapAtlasError {
    /// The allocator found no room for the lightmap of this face.
    CannotAllocate { face_index: usize },
}

/// The first texel of a face's run: its byte offset counts bytes of RGB
/// texels.
pub open spec fn run_start(f: LightmapFace) -> int {
    f.lightmap_offset / 3
}

/// How many texels of a face's run the lump holds: its whole area, cut
/// short at the end of the lump.
pub open spec fn run_len(f: LightmapFace, lump_len: int) -> int {
    if f.width * f.height <= lump_len - run_start(f) {
        f.width * f.height
    } else {
        lump_len - run_start(f)
    }
}

/// The rectangle of an allocation.
pub open spec fn alloc_rect(a: LightmapAllocation) -> (i32, i32, i32, i32) {
    (a.x, a.y, (a.x + a.width) as i32, (a.y + a.height) as i32)
}

/// Whether the lightmap of allocation `a` covers atlas pixel `(px, py)`.
pub open spec fn alloc_covers(a: LightmapAllocation, faces: Seq<LightmapFace>, lump_len: int, px: int, py: int) -> bool {
    blit_writes(run_len(faces[a.face_index as int], lump_len), a.x as int, a.y as int, a.width as int, a.height as int, px, py)
}

/// The byte that allocation `a` puts at byte `c` of atlas pixel `(px, py)`.
pub open spec fn alloc_byte(a: LightmapAllocation, faces: Seq<LightmapFace>, lightmap: Seq<[u8; 3]>, px: int, py: int, c: int) -> u8 {
    texel_byte(lightmap[run_start(faces[a.face_index as int]) + (px - a.x) + (py - a.y) * a.width], c)
}

/// The faces that have a lightmap.
pub open spec fn has_lightmap(f: LightmapFace) -> bool {
    f.lightmap_offset != -1
}

/// What holds of the allocations and atlas bytes after the faces before
/// `upto` have been placed.
pub open spec fn atlas_state(
    allocs: Seq<LightmapAllocation>,
    data: Seq<u8>,
    faces: Seq<LightmapFace>,
    lightmap: Seq<[u8; 3]>,
    upto: int,
    dim: int,
) -> bool {
    &&& data.len() == 4 * dim * dim
    &&& forall|k: int| #![trigger allocs[k]] 0 <= k < allocs.len() ==> {
        let a = allocs[k];
        &&& (a.face_index as int) < upto
        &&& has_lightmap(faces[a.face_index as int])
        &&& a.width == faces[a.face_index as int].width
        &&& a.height == faces[a.face_index as int].height
        &&& 0 <= a.x && a.x + a.width <= dim
        &&& 0 <= a.y && a.y + a.height <= dim
        &&& a.width > 0 && a.height > 0
    }
    &&& forall|j: int, k: int| 0 <= j < k < allocs.len() ==>
        #[trigger] allocs[j].face_index < #[trigger] allocs[k].face_index
    &&& forall|j: int, k: int| 0 <= j < allocs.len() && 0 <= k < allocs.len() && j != k ==>
        rects_disjoint(alloc_rect(#[trigger] allocs[j]), alloc_rect(#[trigger] allocs[k]))
    &&& forall|i: int| 0 <= i < upto && has_lightmap(#[trigger] faces[i]) ==>
        exists|k: int| 0 <= k < allocs.len() && (#[trigger] allocs[k]).face_index == i
    &&& forall|k: int, px: int, py: int, c: int|
        #![trigger allocs[k], px_byte(data, px, py, c, dim)]
        0 <= k < allocs.len() && in_atlas(px, py, c, dim) && alloc_covers(allocs[k], faces, lightmap.len() as int, px, py)
            ==> px_byte(data, px, py, c, dim) == alloc_byte(allocs[k], faces, lightmap, px, py, c)
    &&& forall|px: int, py: int, c: int| #![trigger px_byte(data, px, py, c, dim)]
        in_atlas(px, py, c, dim) && (forall|k: int| 0 <= k < allocs.len() ==> !alloc_covers(#[trigger] allocs[k], faces, lightmap.len() as int, px, py))
            ==> px_byte(data, px, py, c, dim) == 0
}

/// The sizes that the faces before `n` with a lightmap ask of the
/// allocator, in face order.
pub open spec fn lightmap_requests(faces: Seq<LightmapFace>, n: int) -> Seq<(i32, i32)>
    decreases n,
{
    if n <= 0 {
        Seq::empty()
    } else if has_lightmap(faces[n - 1]) {
        lightmap_requests(faces, n - 1).push((faces[n - 1].width, faces[n - 1].height))
    } else {
        lightmap_requests(faces, n - 1)
    }
}

/// The corner that the atlas allocator, `dim` pixels square with these
/// size thresholds, gives the lightmap of face `i` after the faces before
/// it, or `None` where it has no room.
pub open spec fn lightmap_place(faces: Seq<LightmapFace>, i: int, dim: i32, small: i32, large: i32) -> Option<(i32, i32)> {
    guillotine_place(dim, dim, small, large, lightmap_requests(faces, i + 1))
}

/// Face `f` is the first face with a lightmap that the allocator refuses.
pub open spec fn first_refused(faces: Seq<LightmapFace>, f: int, dim: i32, small: i32, large: i32) -> bool {
    &&& 0 <= f < faces.len()
    &&& has_lightmap(faces[f])
    &&& lightmap_place(faces, f, dim, small, large) is None
    &&& forall|g: int| 0 <= g < f && has_lightmap(#[trigger] faces[g]) ==> lightmap_place(faces, g, dim, small, large) is Some
}

/// The lump offsets of the faces with a lightmap are whole texels inside
/// the lump.
pub open spec fn offsets_in_lump(faces: Seq<LightmapFace>, lump_len: int) -> bool {
    forall|i: int| 0 <= i < faces.len() && has_lightmap(#[trigger] faces[i]) ==> {
        &&& faces[i].lightmap_offset >= 0
        &&& faces[i].lightmap_offset % 3 == 0
        &&& run_start(faces[i]) <= lump_len
    }
}

/// What an atlas built by placing every lightmap holds: each face with a
/// lightmap is placed, at the corner the allocator gives, with its texels;
/// or the first face the allocator refuses is named.
pub open spec fn placed_atlas(
    res: Result<LightmapAtlas, LightmapAtlasError>,
    faces: Seq<LightmapFace>,
    lightmap: Seq<[u8; 3]>,
    dim: i32,
    small: i32,
    large: i32,
) -> bool {
    match res {
        Ok(atlas) => {
            &&& atlas.image.width == dim && atlas.image.height == dim
            &&& atlas_state(atlas.allocations@, atlas.image.data@, faces, lightmap, faces.len() as int, dim as int)
            &&& forall|f: int| 0 <= f < faces.len() && has_lightmap(#[trigger] faces[f]) ==>
                lightmap_place(faces, f, dim, small, large) is Some
            &&& forall|k: int| 0 <= k < atlas.allocations@.len() ==>
                lightmap_place(faces, (#[trigger] atlas.allocations@[k]).face_index as int, dim, small, large)
                    == Some((atlas.allocations@[k].x, atlas.allocations@[k].y))
        },
        Err(LightmapAtlasError::CannotAllocate { face_index }) => first_refused(faces, face_index as int, dim, small, large),
    }
}

/// Places the lightmap of each face that has one, in face order, in an
/// atlas `dim` pixels square made with these allocator size thresholds,
/// and copies its texels there; the rest of the atlas stays transparent
/// black. Fails, naming the face, exactly when the allocator has no room
/// for a face.
pub fn place_lightmaps(lightmap: &[[u8; 3]], faces: &[LightmapFace], dim: i32, small: i32, large: i32)
    -> (res: Result<LightmapAtlas, LightmapAtlasError>)
    requires
        0 < dim <= 16384,
        small <= large,
        offsets_in_lump(faces@, lightmap@.len() as int),
    ensures
        placed_atlas(res, faces@, lightmap@, dim, small, large),
{
    let d = dim as usize;
    assert(4 * d * d <= 4 * 16384 * 16384) by (nonlinear_arith)
        requires d <= 16384;
    let mut atlas = new_atlas_allocator(dim, dim, small, large);
    let mut data: Vec<u8> = vec![0u8; 4 * d * d];
    let mut allocs: Vec<LightmapAllocation> = Vec::new();
    proof {
        assert forall|px: int, py: int, c: int| #![trigger px_byte(data@, px, py, c, dim as int)] in_atlas(px, py, c, dim as int)
            implies px_byte(data@, px, py, c, dim as int) == 0 by {
            assert(pixel_base(px, py, dim as int) + c < 4 * d * d) by (nonlinear_arith)
                requires 0 <= px < d, 0 <= py < d, 0 <= c < 4, d == dim;
        }
        assert(atlas_allocations(atlas) =~= Set::new(|r: (i32, i32, i32, i32)|
            exists|k: int| 0 <= k < allocs@.len() && r == alloc_rect(#[trigger] allocs@[k])));
    }
    let mut i: usize = 0;
    while i < faces.len()
        invariant
            0 < dim <= 16384,
            d == dim as usize,
            forall|j: int| 0 <= j < faces@.len() && has_lightmap(#[trigger] faces@[j]) ==> {
                &&& faces@[j].lightmap_offset >= 0
                &&& faces@[j].lightmap_offset % 3 == 0
                &&& run_start(faces@[j]) <= lightmap@.len()
            },
            i <= faces@.len(),
            atlas_size(atlas) == (dim, dim),
            atlas_thresholds(atlas) == (small, large),
            atlas_requests(atlas) == lightmap_requests(faces@, i as int),
            forall|f: int| 0 <= f < i && has_lightmap(#[trigger] faces@[f]) ==> lightmap_place(faces@, f, dim, small, large) is Some,
            forall|k: int| 0 <= k < allocs@.len() ==>
                lightmap_place(faces@, (#[trigger] allocs@[k]).face_index as int, dim, small, large) == Some((allocs@[k].x, allocs@[k].y)),
            atlas_allocations(atlas) == Set::new(|r: (i32, i32, i32, i32)|
                exists|k: int| 0 <= k < allocs@.len() && r == alloc_rect(#[trigger] allocs@[k])),
            atlas_state(allocs@, data@, faces@, lightmap@, i as int, dim as int),
        decreases faces@.len() - i,
    {
        let face = faces[i];
        if face.lightmap_offset == -1 {
            proof {
                assert(lightmap_requests(faces@, i + 1) == lightmap_requests(faces@, i as int));
            }
            i = i + 1;
            continue;
        }
        let ghost old_set = atlas_allocations(atlas);
        proof {
            assert(lightmap_requests(faces@, i + 1)
                == lightmap_requests(faces@, i as int).push((face.width, face.height)));
        }
        let (x, y) = match atlas_allocate(&mut atlas, face.width, face.height) {
            Some(corner) => corner,
            None => return Err(LightmapAtlasError::CannotAllocate { face_index: i }),
        };
        let w = face.width as usize;
        let h = face.height as usize;
        let start = (face.lightmap_offset / 3) as usize;
        assert(w * h <= d * d) by (nonlinear_arith)
            requires w <= d, h <= d;
        assert(d * d <= 16384 * 16384) by (nonlinear_arith)
            requires d <= 16384;
        let area = w * h;
        let texels: usize = if area <= lightmap.len() - start { area } else { lightmap.len() - start };
        let ghost old_data = data@;
        let ghost old_allocs = allocs@;
        blit_lightmap(&mut data, lightmap, start, texels, x as usize, y as usize, w, h, d);
        let new_alloc = LightmapAllocation { face_index: i, x, y, width: face.width, height: face.height };
        allocs.push(new_alloc);
        proof {
            assert(texels == run_len(face, lightmap@.len() as int));
            assert(allocs@[old_allocs.len() as int] == new_alloc);
            // the new rectangle overlaps none of the earlier ones
            assert forall|k: int| 0 <= k < old_allocs.len() implies
                rects_disjoint(alloc_rect(#[trigger] old_allocs[k]), alloc_rect(new_alloc)) by {
                assert(old_set.contains(alloc_rect(old_allocs[k])));
            }
            assert(atlas_allocations(atlas) =~= Set::new(|r: (i32, i32, i32, i32)|
                exists|k: int| 0 <= k < allocs@.len() && r == alloc_rect(#[trigger] allocs@[k]))) by {
                assert forall|r: (i32, i32, i32, i32)| #[trigger] atlas_allocations(atlas).contains(r) ==
                    (exists|k: int| 0 <= k < allocs@.len() && r == alloc_rect(#[trigger] allocs@[k])) by {
                    if atlas_allocations(atlas).contains(r) {
                        if r == alloc_rect(new_alloc) {
                            assert(alloc_rect(allocs@[old_allocs.len() as int]) == r);
                        } else {
                            assert(old_set.contains(r));
                            let k = choose|k: int| 0 <= k < old_allocs.len() && r == alloc_rect(#[trigger] old_allocs[k]);
                            assert(allocs@[k] == old_allocs[k]);
                        }
                    }
                    if exists|k: int| 0 <= k < allocs@.len() && r == alloc_rect(#[trigger] allocs@[k]) {
                        let k = choose|k: int| 0 <= k < allocs@.len() && r == alloc_rect(#[trigger] allocs@[k]);
                        if k < old_allocs.len() {
                            assert(allocs@[k] == old_allocs[k]);
                            assert(old_set.contains(r));
                        }
                    }
                }
            }
            lemma_place_face(old_allocs, old_data, allocs@, data@, faces@, lightmap@, i as int, new_alloc, dim as int);
        }
        i = i + 1;
    }
    Ok(LightmapAtlas { image: Rgba8Image { width: dim as u32, height: dim as u32, data }, allocations: allocs })
}

/// Builds the lightmap atlas of a map. Without lightmap data (a lump of at
/// most one texel) the atlas is all white and opaque. Otherwise each face
/// with a lightmap gets a rectangle of its size, in face order, in an
/// atlas 1096 pixels square, and its texels are copied there, at the
/// corner the allocator gives; the rest of the atlas stays transparent
/// black. Fails, naming the face, exactly when the allocator has no room
/// for a face.
pub fn build_lightmap_atlas(lightmap: &[[u8; 3]], faces: &[LightmapFace]) -> (res: Result<LightmapAtlas, LightmapAtlasError>)
    requires
        offsets_in_lump(faces@, lightmap@.len() as int),
    ensures
        lightmap@.len() <= 1 ==> (res matches Ok(atlas) && {
            &&& atlas.allocations@.len() == 0
            &&& atlas.image.width == 1096 && atlas.image.height == 1096
            &&& atlas.image.data@ == Seq::new(4 * 1096 * 1096, |i: int| 255u8)
        }),
        lightmap@.len() > 1 ==> placed_atlas(res, faces@, lightmap@, 1096, 4, 16),
{
    if lightmap.len() <= 1 {
        let data: Vec<u8> = vec![255u8; 4 * 1096 * 1096];
        proof {
            assert(data@ =~= Seq::new(4 * 1096 * 1096, |i: int| 255u8));
        }
        return Ok(LightmapAtlas {
            image: Rgba8Image { width: 1096, height: 1096, data },
            allocations: Vec::new(),
        });
    }
    place_lightmaps(lightmap, faces, 1096, 4, 16)
}

/// Builds the lightmap atlas as the first renderer did: 4096 pixels
/// square, with the allocator's default size thresholds, and no white
/// atlas without lightmap data. Each face's whole run of texels must lie
/// in the lump.
pub fn build_legacy_lightmap_atlas(lightmap: &[[u8; 3]], faces: &[LightmapFace]) -> (res: Result<LightmapAtlas, LightmapAtlasError>)
    requires
        offsets_in_lump(faces@, lightmap@.len() as int),
        forall|i: int| 0 <= i < faces@.len() && has_lightmap(#[trigger] faces@[i]) ==>
            run_start(faces@[i]) + faces@[i].width * faces@[i].height <= lightmap@.len(),
    ensures
        placed_atlas(res, faces@, lightmap@, 4096, 32, 256),
{
    place_lightmaps(lightmap, faces, 4096, 32, 256)
}

/// Placing one more face keeps the atlas state: the new allocation is
/// disjoint from the earlier ones, so the bytes it writes are its own and
/// the earlier lightmaps stay as they were.
proof fn lemma_place_face(
    old_allocs: Seq<LightmapAllocation>,
    old_data: Seq<u8>,
    allocs: Seq<LightmapAllocation>,
    data: Seq<u8>,
    faces: Seq<LightmapFace>,
    lightmap: Seq<[u8; 3]>,
    i: int,
    a: LightmapAllocation,
    dim: int,
)
    requires
        dim <= 16384,
        atlas_state(old_allocs, old_data, faces, lightmap, i, dim),
        0 <= i < faces.len(),
        has_lightmap(faces[i]),
        allocs == old_allocs.push(a),
        a.face_index == i,
        a.width == faces[i].width,
        a.height == faces[i].height,
        a.width > 0 && a.height > 0,
        0 <= a.x && a.x + a.width <= dim,
        0 <= a.y && a.y + a.height <= dim,
        forall|k: int| 0 <= k < old_allocs.len() ==> rects_disjoint(alloc_rect(#[trigger] old_allocs[k]), alloc_rect(a)),
        data.len() == old_data.len(),
        forall|px: int, py: int, c: int| #![trigger px_byte(data, px, py, c, dim)] in_atlas(px, py, c, dim) ==> {
            if alloc_covers(a, faces, lightmap.len() as int, px, py) {
                px_byte(data, px, py, c, dim) == alloc_byte(a, faces, lightmap, px, py, c)
            } else {
                px_byte(data, px, py, c, dim) == px_byte(old_data, px, py, c, dim)
            }
        },
    ensures
        atlas_state(allocs, data, faces, lightmap, i + 1, dim),
{
    let n = old_allocs.len() as int;
    assert(allocs[n] == a);
    assert forall|k: int| #![trigger allocs[k]] 0 <= k < allocs.len() implies {
        let b = allocs[k];
        &&& (b.face_index as int) < i + 1
        &&& has_lightmap(faces[b.face_index as int])
        &&& b.width == faces[b.face_index as int].width
        &&& b.height == faces[b.face_index as int].height
        &&& 0 <= b.x && b.x + b.width <= dim
        &&& 0 <= b.y && b.y + b.height <= dim
        &&& b.width > 0 && b.height > 0
    } by {
        if k < n {
            assert(allocs[k] == old_allocs[k]);
        }
    }
    assert forall|j: int, k: int| 0 <= j < k < allocs.len() implies
        #[trigger] allocs[j].face_index < #[trigger] allocs[k].face_index by {
        assert(allocs[j] == old_allocs[j]);
        if k < n {
            assert(allocs[k] == old_allocs[k]);
        }
    }
    assert forall|j: int, k: int| 0 <= j < allocs.len() && 0 <= k < allocs.len() && j != k implies
        rects_disjoint(alloc_rect(#[trigger] allocs[j]), alloc_rect(#[trigger] allocs[k])) by {
        if j < n && k < n {
            assert(allocs[j] == old_allocs[j]);
            assert(allocs[k] == old_allocs[k]);
        } else if j < n {
            assert(allocs[j] == old_allocs[j]);
        } else {
            assert(allocs[k] == old_allocs[k]);
            assert(rects_disjoint(alloc_rect(old_allocs[k]), alloc_rect(a)));
        }
    }
    assert forall|f: int| 0 <= f < i + 1 && has_lightmap(#[trigger] faces[f]) implies
        exists|k: int| 0 <= k < allocs.len() && (#[trigger] allocs[k]).face_index == f by {
        if f < i {
            let k = choose|k: int| 0 <= k < old_allocs.len() && (#[trigger] old_allocs[k]).face_index == f;
            assert(allocs[k] == old_allocs[k]);
        } else {
            assert(allocs[n].face_index == f);
        }
    }
    assert forall|k: int, px: int, py: int, c: int|
        #![trigger allocs[k], px_byte(data, px, py, c, dim)]
        0 <= k < allocs.len() && in_atlas(px, py, c, dim) && alloc_covers(allocs[k], faces, lightmap.len() as int, px, py)
            implies px_byte(data, px, py, c, dim) == alloc_byte(allocs[k], faces, lightmap, px, py, c) by {
        if k < n {
            let b = old_allocs[k];
            assert(allocs[k] == b);
            assert(!alloc_covers(a, faces, lightmap.len() as int, px, py)) by {
                assert(rects_disjoint(alloc_rect(b), alloc_rect(a)));
            }
            assert(px_byte(old_data, px, py, c, dim) == alloc_byte(b, faces, lightmap, px, py, c));
        }
    }
    assert forall|px: int, py: int, c: int| #![trigger px_byte(data, px, py, c, dim)]
        in_atlas(px, py, c, dim) && (forall|k: int| 0 <= k < allocs.len() ==> !alloc_covers(#[trigger] allocs[k], faces, lightmap.len() as int, px, py))
            implies px_byte(data, px, py, c, dim) == 0 by {
        assert(!alloc_covers(allocs[n], faces, lightmap.len() as int, px, py));
        assert forall|k: int| 0 <= k < old_allocs.len() implies !alloc_covers(#[trigger] old_allocs[k], faces, lightmap.len() as int, px, py) by {
            assert(allocs[k] == old_allocs[k]);
            assert(!alloc_covers(allocs[k], faces, lightmap.len() as int, px, py));
        }
    }
}

} // verus!
