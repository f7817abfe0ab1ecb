//! The files that a map needs besides itself: studio models named by its
//! entities, the six skybox images, and the wad files that hold its
//! external textures, found from the map's `.res` list or by scanning.

use vstd::prelude::*;
use vstd::string::*;
use crate::text::{
    seq_ends_with, ends_with, str_eq, spec_split_terminator, views, split_terminator_char,
    spec_trim, trim, seq_contains, contains_str,
};
use crate::search::{spec_join, join};
use crate::naming::{spec_file_name, file_name};
use crate::entities::{spec_is_model_entity, is_model_entity};
use crate::texture::Rgba8Image;

verus! {

/// The suffixes of the six skybox faces, in the order the renderer
/// expects them.
pub open spec fn skybox_suffixes() -> Seq<Seq<char>> {
    seq!["ft"@, "bk"@, "up"@, "dn"@, "rt"@, "lf"@]
}

/// The sky name of a map: the `skyname` key of its first entity, or
/// `desert`.
pub open spec fn spec_skyname(skyname: Option<Seq<char>>) -> Seq<char> {
    match skyname {
        Some(s) => s,
        None => "desert"@,
    }
}

/// The view of an optional text.
pub open spec fn opt_view(o: Option<&str>) -> Option<Seq<char>> {
    match o {
        Some(s) => Some(s@),
        None => None,
    }
}

/// The path, relative to the game mod, of skybox face `i`.
pub open spec fn spec_skybox_path(skyname: Option<Seq<char>>, i: int) -> Seq<char> {
    spec_join("gfx/env"@, spec_skyname(skyname) + skybox_suffixes()[i] + ".tga"@)
}

/// The six skybox image paths of a map, `gfx/env/<sky><suffix>.tga`.
pub fn skybox_file_paths(skyname: Option<&str>) -> (res: Vec<String>)
    ensures
        res@.len() == 6,
        forall|i: int| 0 <= i < 6 ==> #[trigger] res@[i]@ == spec_skybox_path(opt_view(skyname), i),
{
    let sky: &str = match skyname {
        Some(s) => s,
        None => "desert",
    };
    let ghost sky_view = opt_view(skyname);
    let suffixes: [&str; 6] = ["ft", "bk", "up", "dn", "rt", "lf"];
    let mut res: Vec<String> = Vec::new();
    let mut i: usize = 0;
    while i < 6
        invariant
            i <= 6,
            sky@ == spec_skyname(sky_view),
            suffixes@.len() == 6,
            forall|j: int| 0 <= j < 6 ==> #[trigger] suffixes@[j]@ == skybox_suffixes()[j],
            res@.len() == i,
            forall|j: int| 0 <= j < i ==> #[trigger] res@[j]@ == spec_skybox_path(sky_view, j),
        decreases 6 - i,
    {
        let mut file = String::from_str(sky);
        file.append(suffixes[i]);
        file.append(".tga");
        let path = join("gfx/env", file.as_str());
        res.push(path);
        i = i + 1;
    }
    res
}

/// What the `image` crate decodes from the bytes of a TGA file: width,
/// height and RGBA bytes, or nothing when the bytes are not a TGA image.
pub uninterp spec fn tga_rgba8(bytes: Seq<u8>) -> Option<(u32, u32, Seq<u8>)>;

/// Calls `image::load_from_memory_with_format` with the TGA format and
/// converts the result with `DynamicImage::to_rgba8`. The contract names
/// the decoded image and states the buffer invariant of `ImageBuffer`: at
/// least four bytes for each pixel.
#[verifier::external_body]
fn decode_tga(bytes: &[u8]) -> (res: Option<Rgba8Image>)
    ensures
        match res {
            Some(img) => img.wf() && tga_rgba8(bytes@) == Some((img.width, img.height, img.data@)),
            None => tga_rgba8(bytes@) is None,
        },
{
    match image::load_from_memory_with_format(bytes, image::ImageFormat::Tga) {
        Ok(img) => {
            let rgba = img.to_rgba8();
            let (width, height) = rgba.dimensions();
            Some(Rgba8Image { width, height, data: rgba.into_raw() })
        },
        Err(_) => None,
    }
}

/// The files fetched for a map: each path, relative to the game mod, with
/// its bytes. No path occurs twice.
pub struct ResourceMap {
    pub entries: Vec<(String, Vec<u8>)>,
}

impl View for ResourceMap {
    type V = Map<Seq<char>, Seq<u8>>;

    /// The resources as a map from path to bytes.
    open spec fn view(&self) -> Map<Seq<char>, Seq<u8>> {
        Map::new(
            |k: Seq<char>| exists|i: int| 0 <= i < self.entries@.len() && #[trigger] entry_key(self.entries@[i]) == k,
            |k: Seq<char>| {
                let i = choose|i: int| 0 <= i < self.entries@.len() && #[trigger] entry_key(self.entries@[i]) == k;
                self.entries@[i].1@
            },
        )
    }
}

/// The path of a resource entry.
pub open spec fn entry_key(e: (String, Vec<u8>)) -> Seq<char> {
    e.0@
}

impl ResourceMap {
    /// No path occurs twice.
    pub open spec fn wf(&self) -> bool {
        forall|i: int, j: int| 0 <= i < j < self.entries@.len() ==>
            #[trigger] entry_key(self.entries@[i]) != #[trigger] entry_key(self.entries@[j])
    }

    /// No resources.
    pub fn new() -> (res: Self)
        ensures
            res.wf(),
            res.view() == Map::<Seq<char>, Seq<u8>>::empty(),
    {
        let res = ResourceMap { entries: Vec::new() };
        proof {
            assert(res.view() =~= Map::<Seq<char>, Seq<u8>>::empty());
        }
        res
    }

    /// The position of `path` among the entries.
    fn position(&self, path: &str) -> (res: Option<usize>)
        requires
            self.wf(),
        ensures
            match res {
                Some(i) => i < self.entries@.len() && entry_key(self.entries@[i as int]) == path@,
                None => !self.view().contains_key(path@),
            },
    {
        let mut i: usize = 0;
        while i < self.entries.len()
            invariant
                i <= self.entries@.len(),
                forall|j: int| 0 <= j < i ==> #[trigger] entry_key(self.entries@[j]) != path@,
            decreases self.entries@.len() - i,
        {
            if str_eq(self.entries[i].0.as_str(), path) {
                return Some(i);
            }
            i = i + 1;
        }
        None
    }

    /// Whether `path` has been fetched.
    pub fn contains_key(&self, path: &str) -> (res: bool)
        requires
            self.wf(),
        ensures
            res == self.view().contains_key(path@),
    {
        self.position(path).is_some()
    }

    /// The bytes of `path`, if it has been fetched.
    pub fn get(&self, path: &str) -> (res: Option<&Vec<u8>>)
        requires
            self.wf(),
        ensures
            match res {
                Some(b) => self.view().contains_key(path@) && b@ == self.view()[path@],
                None => !self.view().contains_key(path@),
            },
    {
        match self.position(path) {
            Some(i) => {
                proof {
                    let k = path@;
                    assert(entry_key(self.entries@[i as int]) == k);
                    let c = choose|c: int| 0 <= c < self.entries@.len() && #[trigger] entry_key(self.entries@[c]) == k;
                    assert(c == i);
                }
                Some(&self.entries[i].1)
            },
            None => None,
        }
    }

    /// Stores the bytes of `path`, replacing what was stored for it.
    pub fn insert(&mut self, path: String, bytes: Vec<u8>)
        requires
            old(self).wf(),
        ensures
            final(self).wf(),
            final(self).view() == old(self).view().insert(path@, bytes@),
    {
        let ghost key = path@;
        let ghost value = bytes@;
        let ghost before = self.entries@;
        match self.position(path.as_str()) {
            Some(i) => {
                self.entries.set(i, (path, bytes));
                proof {
                    assert forall|a: int, b: int| 0 <= a < b < self.entries@.len() implies
                        #[trigger] entry_key(self.entries@[a]) != #[trigger] entry_key(self.entries@[b]) by {
                        assert(entry_key(before[a]) != entry_key(before[b]));
                    }
                    assert forall|k: Seq<char>| #[trigger] self.view().contains_key(k) == old(self).view().insert(key, value).contains_key(k) by {
                        if old(self).view().contains_key(k) && k != key {
                            let c = choose|c: int| 0 <= c < before.len() && #[trigger] entry_key(before[c]) == k;
                            assert(entry_key(self.entries@[c]) == k);
                        }
                        if self.view().contains_key(k) && k != key {
                            let c = choose|c: int| 0 <= c < self.entries@.len() && #[trigger] entry_key(self.entries@[c]) == k;
                            assert(entry_key(before[c]) == k);
                        }
                        assert(entry_key(self.entries@[i as int]) == key);
                    }
                    assert forall|k: Seq<char>| #[trigger] self.view().contains_key(k) implies
                        self.view()[k] == old(self).view().insert(key, value)[k] by {
                        let c = choose|c: int| 0 <= c < self.entries@.len() && #[trigger] entry_key(self.entries@[c]) == k;
                        if k == key {
                            assert(c == i);
                        } else {
                            assert(entry_key(before[c]) == k);
                            let d = choose|d: int| 0 <= d < before.len() && #[trigger] entry_key(before[d]) == k;
                            assert(d == c);
                        }
                    }
                    assert(self.view() =~= old(self).view().insert(key, value));
                }
            },
            None => {
                self.entries.push((path, bytes));
                proof {
                    let n = before.len() as int;
                    assert forall|a: int, b: int| 0 <= a < b < self.entries@.len() implies
                        #[trigger] entry_key(self.entries@[a]) != #[trigger] entry_key(self.entries@[b]) by {
                        if b == n {
                            assert(entry_key(self.entries@[a]) == entry_key(before[a]));
                            if entry_key(before[a]) == key {
                                assert(old(self).view().contains_key(key));
                            }
                        } else {
                            assert(entry_key(before[a]) != entry_key(before[b]));
                        }
                    }
                    assert forall|k: Seq<char>| #[trigger] self.view().contains_key(k) == old(self).view().insert(key, value).contains_key(k) by {
                        if old(self).view().contains_key(k) {
                            let c = choose|c: int| 0 <= c < before.len() && #[trigger] entry_key(before[c]) == k;
                            assert(entry_key(self.entries@[c]) == k);
                        }
                        if self.view().contains_key(k) && k != key {
                            let c = choose|c: int| 0 <= c < self.entries@.len() && #[trigger] entry_key(self.entries@[c]) == k;
                            assert(c != n);
                            assert(entry_key(before[c]) == k);
                        }
                        assert(entry_key(self.entries@[n]) == key);
                    }
                    assert forall|k: Seq<char>| #[trigger] self.view().contains_key(k) implies
                        self.view()[k] == old(self).view().insert(key, value)[k] by {
                        let c = choose|c: int| 0 <= c < self.entries@.len() && #[trigger] entry_key(self.entries@[c]) == k;
                        if k == key {
                            assert(entry_key(self.entries@[n]) == key);
                            assert(c == n);
                        } else {
                            assert(c != n);
                            assert(entry_key(before[c]) == k);
                            let d = choose|d: int| 0 <= d < before.len() && #[trigger] entry_key(before[d]) == k;
                            assert(d == c);
                        }
                    }
                    assert(self.view() =~= old(self).view().insert(key, value));
                }
            },
        }
    }
}

/// The paths and bytes of files that may not have been found.
pub open spec fn found_views(v: Seq<(String, Option<Vec<u8>>)>) -> Seq<(Seq<char>, Option<Seq<u8>>)> {
    v.map_values(|p: (String, Option<Vec<u8>>)| (p.0@, match p.1 {
        Some(b) => Some(b@),
        None => None,
    }))
}

/// The paths and bytes of files that were read.
pub open spec fn read_views(v: Seq<(String, Vec<u8>)>) -> Seq<(Seq<char>, Option<Seq<u8>>)> {
    v.map_values(|p: (String, Vec<u8>)| (p.0@, Some(p.1@)))
}

/// The resources with the files that were found stored in order; with
/// `keep_first`, a path already stored keeps its bytes, otherwise a later
/// file replaces them.
pub open spec fn spec_put_found(
    m: Map<Seq<char>, Seq<u8>>,
    entries: Seq<(Seq<char>, Option<Seq<u8>>)>,
    keep_first: bool,
) -> Map<Seq<char>, Seq<u8>>
    decreases entries.len(),
{
    if entries.len() == 0 {
        m
    } else {
        let prev = spec_put_found(m, entries.drop_last(), keep_first);
        let (k, b) = entries.last();
        match b {
            Some(bytes) => if keep_first && prev.contains_key(k) {
                prev
            } else {
                prev.insert(k, bytes)
            },
            None => prev,
        }
    }
}

/// Stores the files that were found, in order.
fn put_found(map: &mut ResourceMap, entries: &[(String, Option<Vec<u8>>)], keep_first: bool)
    requires
        old(map).wf(),
    ensures
        final(map).wf(),
        final(map).view() == spec_put_found(old(map).view(), found_views(entries@), keep_first),
{
    let ghost start = map.view();
    let mut i: usize = 0;
    while i < entries.len()
        invariant
            i <= entries@.len(),
            map.wf(),
            map.view() == spec_put_found(start, found_views(entries@).take(i as int), keep_first),
        decreases entries@.len() - i,
    {
        proof {
            assert(found_views(entries@).take(i + 1).drop_last() =~= found_views(entries@).take(i as int));
            assert(found_views(entries@).take(i + 1).last() == found_views(entries@)[i as int]);
        }
        match &entries[i].1 {
            Some(bytes) => {
                if !(keep_first && map.contains_key(entries[i].0.as_str())) {
                    let b = bytes.clone();
                    proof {
                        assert(b@ =~= bytes@);
                    }
                    map.insert(entries[i].0.clone(), b);
                }
            },
            None => {},
        }
        i = i + 1;
    }
    proof {
        assert(found_views(entries@).take(entries@.len() as int) =~= found_views(entries@));
    }
}

/// Why the resources of a map could not be gathered.
pub enum ResourceProviderError {
    /// The map file was not found.
    CannotFindBsp { bsp_name: String },
    /// A face of the skybox was not found.
    CannotFindSkyboxTextures,
}

/// The resources of a map: its studio models that were found, each path
/// once with the first bytes read for it; then the six skybox faces; then
/// the wad files, each replacing what was stored under its path.
pub open spec fn spec_map_resources(
    models: Seq<(Seq<char>, Option<Seq<u8>>)>,
    skybox: Seq<(Seq<char>, Option<Seq<u8>>)>,
    wads: Seq<(Seq<char>, Option<Seq<u8>>)>,
) -> Map<Seq<char>, Seq<u8>> {
    spec_put_found(spec_put_found(spec_put_found(Map::empty(), models, true), skybox, false), wads, false)
}

/// Gathers the resources of a map from what was found on disk: whether
/// the map file was found, each studio model with its bytes if it was
/// found, each skybox face with its bytes if it was found, and the wad
/// files that were read. A missing map, then a missing skybox face, is an
/// error; otherwise every file found is stored.
pub fn gather_map_resources(
    map_name: &str,
    map_found: bool,
    models: &[(String, Option<Vec<u8>>)],
    skybox: &[(String, Option<Vec<u8>>)],
    wads: &[(String, Vec<u8>)],
) -> (res: Result<ResourceMap, ResourceProviderError>)
    ensures
        !map_found ==> (res matches Err(ResourceProviderError::CannotFindBsp { bsp_name }) && bsp_name@ == map_name@),
        map_found && (exists|i: int| 0 <= i < skybox@.len() && (#[trigger] skybox@[i]).1 is None)
            ==> res matches Err(ResourceProviderError::CannotFindSkyboxTextures),
        map_found && (forall|i: int| 0 <= i < skybox@.len() ==> (#[trigger] skybox@[i]).1 is Some)
            ==> (res matches Ok(m) && m.wf()
                && m.view() == spec_map_resources(found_views(models@), found_views(skybox@), read_views(wads@))),
{
    if !map_found {
        return Err(ResourceProviderError::CannotFindBsp { bsp_name: String::from_str(map_name) });
    }
    let mut k: usize = 0;
    while k < skybox.len()
        invariant
            map_found,
            k <= skybox@.len(),
            forall|i: int| 0 <= i < k ==> (#[trigger] skybox@[i]).1 is Some,
        decreases skybox@.len() - k,
    {
        if skybox[k].1.is_none() {
            return Err(ResourceProviderError::CannotFindSkyboxTextures);
        }
        k = k + 1;
    }
    let mut map = ResourceMap::new();
    put_found(&mut map, models, true);
    put_found(&mut map, skybox, false);
    let ghost before_wads = map.view();
    let mut i: usize = 0;
    while i < wads.len()
        invariant
            i <= wads@.len(),
            map.wf(),
            map.view() == spec_put_found(before_wads, read_views(wads@).take(i as int), false),
        decreases wads@.len() - i,
    {
        proof {
            assert(read_views(wads@).take(i + 1).drop_last() =~= read_views(wads@).take(i as int));
            assert(read_views(wads@).take(i + 1).last() == read_views(wads@)[i as int]);
        }
        let b = wads[i].1.clone();
        proof {
            assert(b@ =~= wads@[i as int].1@);
        }
        map.insert(wads[i].0.clone(), b);
        i = i + 1;
    }
    proof {
        assert(read_views(wads@).take(wads@.len() as int) =~= read_views(wads@));
    }
    Ok(map)
}

/// A read of a path gives back what was last stored for it, and storing
/// leaves the other paths as they were.
pub proof fn lemma_resource_map_read_back(m: Map<Seq<char>, Seq<u8>>, path: Seq<char>, bytes: Seq<u8>, other: Seq<char>)
    requires
        other != path,
    ensures
        m.insert(path, bytes).contains_key(path),
        m.insert(path, bytes)[path] == bytes,
        m.insert(path, bytes).contains_key(other) == m.contains_key(other),
        m.contains_key(other) ==> m.insert(path, bytes)[other] == m[other],
{
}

/// The skybox of a map: the six faces decoded from the fetched resources,
/// or none at all when any face is missing or does not decode.
pub open spec fn spec_skybox(resources: Map<Seq<char>, Seq<u8>>, skyname: Option<Seq<char>>) -> Option<Seq<(u32, u32, Seq<u8>)>> {
    if forall|i: int| 0 <= i < 6 ==> {
        let p = #[trigger] spec_skybox_path(skyname, i);
        resources.contains_key(p) && tga_rgba8(resources[p]) is Some
    } {
        Some(Seq::new(6, |i: int| tga_rgba8(resources[spec_skybox_path(skyname, i)])->0))
    } else {
        None
    }
}

/// The RGBA view of an image.
pub open spec fn image_view(img: Rgba8Image) -> (u32, u32, Seq<u8>) {
    (img.width, img.height, img.data@)
}

/// Loads the six skybox faces of a map from its resources: all six, in
/// suffix order, or none when any of them cannot be had.
pub fn load_skybox(resources: &ResourceMap, skyname: Option<&str>) -> (res: Vec<Rgba8Image>)
    requires
        resources.wf(),
    ensures
        forall|i: int| 0 <= i < res@.len() ==> (#[trigger] res@[i]).wf(),
        match spec_skybox(resources.view(), opt_view(skyname)) {
            Some(faces) => res@.len() == 6 && forall|i: int| 0 <= i < 6 ==> image_view(#[trigger] res@[i]) == faces[i],
            None => res@.len() == 0,
        },
{
    let ghost sky_view = opt_view(skyname);
    let paths = skybox_file_paths(skyname);
    let mut images: Vec<Rgba8Image> = Vec::new();
    let mut i: usize = 0;
    while i < 6
        invariant
            resources.wf(),
            sky_view == opt_view(skyname),
            paths@.len() == 6,
            forall|j: int| 0 <= j < 6 ==> #[trigger] paths@[j]@ == spec_skybox_path(sky_view, j),
            i <= 6,
            images@.len() == i,
            forall|j: int| 0 <= j < i ==> {
                let p = #[trigger] spec_skybox_path(sky_view, j);
                &&& resources.view().contains_key(p)
                &&& tga_rgba8(resources.view()[p]) == Some(image_view(images@[j]))
                &&& images@[j].wf()
            },
        decreases 6 - i,
    {
        let bytes = match resources.get(paths[i].as_str()) {
            Some(b) => b,
            None => {
                proof {
                    let p = spec_skybox_path(sky_view, i as int);
                    assert(!(resources.view().contains_key(p)));
                    assert(!(forall|j: int| 0 <= j < 6 ==> {
                        let q = #[trigger] spec_skybox_path(sky_view, j);
                        resources.view().contains_key(q) && tga_rgba8(resources.view()[q]) is Some
                    }));
                    assert(spec_skybox(resources.view(), sky_view) is None);
                }
                return Vec::new();
            },
        };
        let img = match decode_tga(bytes.as_slice()) {
            Some(img) => img,
            None => {
                proof {
                    let p = spec_skybox_path(sky_view, i as int);
                    assert(tga_rgba8(resources.view()[p]) is None);
                    assert(!(forall|j: int| 0 <= j < 6 ==> {
                        let q = #[trigger] spec_skybox_path(sky_view, j);
                        resources.view().contains_key(q) && tga_rgba8(resources.view()[q]) is Some
                    }));
                    assert(spec_skybox(resources.view(), sky_view) is None);
                }
                return Vec::new();
            },
        };
        images.push(img);
        i = i + 1;
    }
    proof {
        let faces = spec_skybox(resources.view(), sky_view)->0;
        assert forall|j: int| 0 <= j < 6 implies image_view(#[trigger] images@[j]) == faces[j] by {
            assert(spec_skybox_path(sky_view, j) == spec_skybox_path(sky_view, j));
        }
    }
    images
}

/// The lines of a `.res` file that name a wad file, without surrounding
/// whitespace.
pub open spec fn spec_res_wad_paths(res_file: Seq<char>) -> Seq<Seq<char>> {
    wad_lines(spec_split_terminator(res_file, '\n'))
}

/// The lines that contain `.wad`, trimmed.
pub open spec fn wad_lines(lines: Seq<Seq<char>>) -> Seq<Seq<char>>
    decreases lines.len(),
{
    if lines.len() == 0 {
        Seq::empty()
    } else {
        let prev = wad_lines(lines.drop_last());
        if seq_contains(lines.last(), ".wad"@) {
            prev.push(spec_trim(lines.last()))
        } else {
            prev
        }
    }
}

/// Reads the wad paths listed in a `.res` file: its lines that contain
/// `.wad`, trimmed.
pub fn res_file_wad_paths(res_file: &str) -> (res: Vec<String>)
    ensures
        views(res@) == spec_res_wad_paths(res_file@),
{
    let lines = split_terminator_char(res_file, '\n');
    let ghost lv = views(lines@);
    let mut res: Vec<String> = Vec::new();
    let mut i: usize = 0;
    proof {
        assert(lv.take(0) =~= Seq::<Seq<char>>::empty());
    }
    while i < lines.len()
        invariant
            lv == views(lines@),
            lv == spec_split_terminator(res_file@, '\n'),
            i <= lines@.len(),
            views(res@) == wad_lines(lv.take(i as int)),
        decreases lines@.len() - i,
    {
        let line = lines[i].as_str();
        proof {
            assert(lv.take(i + 1).drop_last() =~= lv.take(i as int));
            assert(lv.take(i + 1).last() == lv[i as int]);
        }
        if contains_str(line, ".wad") {
            let ghost old_res = views(res@);
            res.push(String::from_str(trim(line)));
            proof {
                assert(views(res@) =~= old_res.push(spec_trim(lv[i as int])));
            }
        }
        i = i + 1;
    }
    proof {
        assert(lv.take(lines@.len() as int) =~= lv);
    }
    res
}

/// The names of the textures flagged as external, in order.
pub open spec fn spec_external_names(textures: Seq<(String, bool)>) -> Seq<Seq<char>>
    decreases textures.len(),
{
    if textures.len() == 0 {
        Seq::empty()
    } else {
        let prev = spec_external_names(textures.drop_last());
        if textures.last().1 {
            prev.push(textures.last().0@)
        } else {
            prev
        }
    }
}

/// The names of the map textures that live in external wads.
pub fn external_texture_names(textures: &Vec<(String, bool)>) -> (res: Vec<String>)
    ensures
        views(res@) == spec_external_names(textures@),
{
    let mut res: Vec<String> = Vec::new();
    let mut i: usize = 0;
    proof {
        assert(textures@.take(0) =~= Seq::<(String, bool)>::empty());
    }
    while i < textures.len()
        invariant
            i <= textures@.len(),
            views(res@) == spec_external_names(textures@.take(i as int)),
        decreases textures@.len() - i,
    {
        proof {
            assert(textures@.take(i + 1).drop_last() =~= textures@.take(i as int));
            assert(textures@.take(i + 1).last() == textures@[i as int]);
        }
        if textures[i].1 {
            let ghost old_res = views(res@);
            res.push(textures[i].0.clone());
            proof {
                assert(views(res@) =~= old_res.push(textures@[i as int].0@));
            }
        }
        i = i + 1;
    }
    proof {
        assert(textures@.take(textures@.len() as int) =~= textures@);
    }
    res
}

/// Whether every needed texture name is among the available ones.
pub fn all_textures_listed(needed: &Vec<String>, available: &Vec<String>) -> (res: bool)
    ensures
        res == forall|i: int| 0 <= i < needed@.len() ==> views(available@).contains(#[trigger] needed@[i]@),
{
    let mut i: usize = 0;
    while i < needed.len()
        invariant
            i <= needed@.len(),
            forall|k: int| 0 <= k < i ==> views(available@).contains(#[trigger] needed@[k]@),
        decreases needed@.len() - i,
    {
        let mut found = false;
        let mut j: usize = 0;
        while j < available.len()
            invariant
                i < needed@.len(),
                j <= available@.len(),
                found == exists|t: int| 0 <= t < j && #[trigger] views(available@)[t] == needed@[i as int]@,
            decreases available@.len() - j,
        {
            if str_eq(available[j].as_str(), needed[i].as_str()) {
                found = true;
            }
            proof {
                if views(available@)[j as int] == needed@[i as int]@ {
                    assert(exists|t: int| 0 <= t < j + 1 && #[trigger] views(available@)[t] == needed@[i as int]@);
                }
            }
            j = j + 1;
        }
        if !found {
            proof {
                if views(available@).contains(needed@[i as int]@) {
                    let t = choose|t: int| 0 <= t < views(available@).len() && views(available@)[t] == needed@[i as int]@;
                    assert(views(available@)[t] == needed@[i as int]@);
                }
            }
            return false;
        }
        i = i + 1;
    }
    true
}

/// Scanning the textures of one wad while looking for the remaining
/// external textures: each texture entry whose name is still wanted is
/// taken off the wanted set and counted.
pub open spec fn spec_take_textures(remaining: Set<Seq<char>>, names: Seq<Option<Seq<char>>>) -> (Set<Seq<char>>, nat)
    decreases names.len(),
{
    if names.len() == 0 {
        (remaining, 0)
    } else {
        let prev = spec_take_textures(remaining, names.drop_last());
        match names.last() {
            Some(n) => if prev.0.contains(n) { (prev.0.remove(n), prev.1 + 1) } else { prev },
            None => prev,
        }
    }
}

/// Views of optional texture names.
pub open spec fn option_views(v: Seq<Option<String>>) -> Seq<Option<Seq<char>>> {
    Seq::new(v.len(), |i: int| match v[i] { Some(s) => Some(s@), None => None })
}

/// The wanted texture names as a set.
pub open spec fn name_set(v: Seq<String>) -> Set<Seq<char>> {
    Set::new(|n: Seq<char>| views(v).contains(n))
}

/// No name occurs twice.
pub open spec fn distinct_names(v: Seq<String>) -> bool {
    forall|i: int, j: int| 0 <= i < j < v.len() ==> #[trigger] v[i]@ != #[trigger] v[j]@
}

/// Takes the textures of one wad off the wanted names, returning how many
/// were found in it; the wad is needed once for each.
pub fn take_wad_textures(remaining: &mut Vec<String>, entry_names: &Vec<Option<String>>) -> (res: usize)
    requires
        distinct_names(old(remaining)@),
    ensures
        distinct_names(final(remaining)@),
        (name_set(final(remaining)@), res as nat) == spec_take_textures(name_set(old(remaining)@), option_views(entry_names@)),
{
    let ghost start = name_set(remaining@);
    let ghost ov = option_views(entry_names@);
    let mut count: usize = 0;
    let mut i: usize = 0;
    proof {
        assert(ov.take(0) =~= Seq::<Option<Seq<char>>>::empty());
    }
    while i < entry_names.len()
        invariant
            ov == option_views(entry_names@),
            i <= entry_names@.len(),
            distinct_names(remaining@),
            (name_set(remaining@), count as nat) == spec_take_textures(start, ov.take(i as int)),
            count <= i,
        decreases entry_names@.len() - i,
    {
        proof {
            assert(ov.take(i + 1).drop_last() =~= ov.take(i as int));
            assert(ov.take(i + 1).last() == ov[i as int]);
        }
        match &entry_names[i] {
            Some(name) => {
                let mut k: usize = 0;
                let mut found: Option<usize> = None;
                while k < remaining.len()
                    invariant
                        k <= remaining@.len(),
                        match found {
                            Some(f) => f < remaining@.len() && remaining@[f as int]@ == name@,
                            None => forall|t: int| 0 <= t < k ==> #[trigger] remaining@[t]@ != name@,
                        },
                    decreases remaining@.len() - k,
                {
                    if found.is_none() && str_eq(remaining[k].as_str(), name.as_str()) {
                        found = Some(k);
                    }
                    k = k + 1;
                }
                match found {
                    Some(f) => {
                        let ghost before = remaining@;
                        remaining.remove(f);
                        proof {
                            assert forall|a: int, b: int| 0 <= a < b < remaining@.len() implies
                                #[trigger] remaining@[a]@ != #[trigger] remaining@[b]@ by {
                                let a2 = if a < f { a } else { a + 1 };
                                let b2 = if b < f { b } else { b + 1 };
                                assert(remaining@[a] == before[a2]);
                                assert(remaining@[b] == before[b2]);
                                assert(before[a2]@ != before[b2]@);
                            }
                            assert(name_set(remaining@) =~= name_set(before).remove(name@)) by {
                                assert forall|n: Seq<char>| name_set(remaining@).contains(n) == name_set(before).remove(name@).contains(n) by {
                                    if name_set(remaining@).contains(n) {
                                        let t = choose|t: int| 0 <= t < views(remaining@).len() && views(remaining@)[t] == n;
                                        let t2 = if t < f { t } else { t + 1 };
                                        assert(remaining@[t] == before[t2]);
                                        assert(views(before)[t2] == n);
                                        assert(t2 != f);
                                    }
                                    if name_set(before).remove(name@).contains(n) {
                                        let t = choose|t: int| 0 <= t < views(before).len() && views(before)[t] == n;
                                        assert(t != f);
                                        let t2 = if t < f { t } else { t - 1 };
                                        assert(remaining@[t2] == before[t]);
                                        assert(views(remaining@)[t2] == n);
                                    }
                                }
                            }
                            assert(name_set(before).contains(name@)) by {
                                assert(views(before)[f as int] == name@);
                            }
                        }
                        count = count + 1;
                    },
                    None => {
                        proof {
                            if name_set(remaining@).contains(name@) {
                                let t = choose|t: int| 0 <= t < views(remaining@).len() && views(remaining@)[t] == name@;
                                assert(remaining@[t]@ == name@);
                            }
                        }
                    },
                }
            },
            None => {},
        }
        i = i + 1;
    }
    proof {
        assert(ov.take(entry_names@.len() as int) =~= ov);
    }
    count
}

/// The position of the last `.` of a file name.
pub open spec fn last_dot(f: Seq<char>) -> Option<int>
    decreases f.len(),
{
    if f.len() == 0 {
        None
    } else if f.last() == '.' {
        Some(f.len() - 1)
    } else {
        last_dot(f.drop_last())
    }
}

/// The extension of a path, as `Path::extension` gives it on Unix: what
/// follows the last `.` of the file name, unless that `.` is its first
/// character or there is none.
pub open spec fn spec_extension(path: Seq<char>) -> Option<Seq<char>> {
    match spec_file_name(path) {
        None => None,
        Some(f) => match last_dot(f) {
            Some(k) => if k > 0 { Some(f.skip(k + 1)) } else { None },
            None => None,
        },
    }
}

/// `last_dot` points at a `.` and nothing after it is one.
proof fn lemma_last_dot(f: Seq<char>)
    ensures
        match last_dot(f) {
            Some(k) => 0 <= k < f.len() && f[k] == '.' && forall|j: int| k < j < f.len() ==> f[j] != '.',
            None => forall|j: int| 0 <= j < f.len() ==> f[j] != '.',
        },
    decreases f.len(),
{
    if f.len() > 0 {
        let g = f.drop_last();
        lemma_last_dot(g);
        if f.last() != '.' {
            match last_dot(g) {
                Some(k) => {
                    assert forall|j: int| k < j < f.len() implies f[j] != '.' by {
                        if j < g.len() {
                            assert(g[j] == f[j]);
                        }
                    }
                },
                None => {
                    assert forall|j: int| 0 <= j < f.len() implies f[j] != '.' by {
                        if j < g.len() {
                            assert(g[j] == f[j]);
                        }
                    }
                },
            }
        }
    }
}

/// Whether a path names a `.wad` file by its extension.
pub fn has_wad_extension(path: &str) -> (res: bool)
    ensures
        res == (spec_extension(path@) == Some("wad"@)),
{
    let name = match file_name(path) {
        Some(n) => n,
        None => return false,
    };
    let f = name.as_str();
    let n = f.unicode_len();
    let mut k: usize = n;
    proof {
        lemma_last_dot(f@);
    }
    while k > 0 && f.get_char(k - 1) != '.'
        invariant
            n == f@.len(),
            k <= n,
            forall|j: int| k <= j < n ==> f@[j] != '.',
        decreases k,
    {
        k = k - 1;
    }
    proof {
        lemma_last_dot(f@);
        match last_dot(f@) {
            Some(d) => {
                if k > 0 {
                    assert(f@[k - 1] == '.');
                    assert(d == k - 1);
                } else {
                    assert(f@[d] == '.');
                }
            },
            None => {
                if k > 0 {
                    assert(f@[k - 1] == '.');
                }
            },
        }
    }
    if k <= 1 {
        return false;
    }
    let ext = f.substring_char(k, n);
    proof {
        assert(ext@ =~= f@.skip(k as int));
    }
    str_eq(ext, "wad")
}

/// The positions of the resource paths that end with `suffix`.
pub fn keys_with_suffix(keys: &Vec<String>, suffix: &str) -> (res: Vec<usize>)
    ensures
        forall|j: int| 0 <= j < res@.len() ==> (#[trigger] res@[j] as int) < keys@.len()
            && seq_ends_with(keys@[res@[j] as int]@, suffix@),
        forall|i: int| 0 <= i < keys@.len() && seq_ends_with(keys@[i]@, suffix@) ==> #[trigger] res@.contains(i as usize),
        forall|a: int, b: int| 0 <= a < b < res@.len() ==> #[trigger] res@[a] < #[trigger] res@[b],
{
    let mut res: Vec<usize> = Vec::new();
    let mut i: usize = 0;
    while i < keys.len()
        invariant
            i <= keys@.len(),
            forall|j: int| 0 <= j < res@.len() ==> (#[trigger] res@[j] as int) < i
                && seq_ends_with(keys@[res@[j] as int]@, suffix@),
            forall|t: int| 0 <= t < i && seq_ends_with(keys@[t]@, suffix@) ==> #[trigger] res@.contains(t as usize),
            forall|a: int, b: int| 0 <= a < b < res@.len() ==> #[trigger] res@[a] < #[trigger] res@[b],
        decreases keys@.len() - i,
    {
        if ends_with(keys[i].as_str(), suffix) {
            let ghost before = res@;
            res.push(i);
            proof {
                assert(res@[before.len() as int] == i);
                assert forall|t: int| 0 <= t < i + 1 && seq_ends_with(keys@[t]@, suffix@) implies #[trigger] res@.contains(t as usize) by {
                    if t < i {
                        assert(before.contains(t as usize));
                        let w = choose|w: int| 0 <= w < before.len() && before[w] == t as usize;
                        assert(res@[w] == t as usize);
                    } else {
                        assert(res@[before.len() as int] == t as usize);
                    }
                }
            }
        } else {
            proof {
                assert forall|t: int| 0 <= t < i + 1 && seq_ends_with(keys@[t]@, suffix@) implies #[trigger] res@.contains(t as usize) by {
                    assert(t < i);
                }
            }
        }
        i = i + 1;
    }
    res
}

/// The model path that an entity asks to be fetched: that of a model
/// entity whose model is a `.mdl` file.
pub open spec fn spec_model_request(classname: Option<Seq<char>>, model: Option<Seq<char>>) -> Option<Seq<char>> {
    match (classname, model) {
        (Some(c), Some(m)) => if spec_is_model_entity(c) && seq_ends_with(m, ".mdl"@) { Some(m) } else { None },
        _ => None,
    }
}

/// The model paths that the entities of a map ask for, in entity order,
/// each time an entity asks.
pub open spec fn spec_model_requests(entities: Seq<(Option<Seq<char>>, Option<Seq<char>>)>) -> Seq<Seq<char>>
    decreases entities.len(),
{
    if entities.len() == 0 {
        Seq::empty()
    } else {
        let prev = spec_model_requests(entities.drop_last());
        match spec_model_request(entities.last().0, entities.last().1) {
            Some(m) => prev.push(m),
            None => prev,
        }
    }
}

/// The model requests of a map are exactly the models of its
/// `cycler_sprite` and `env_sprite` entities that end with `.mdl`: every
/// such model is requested, and every request is such a model.
pub proof fn lemma_model_requests_exact(entities: Seq<(Option<Seq<char>>, Option<Seq<char>>)>)
    ensures
        forall|i: int| 0 <= i < entities.len()
            && ((#[trigger] entities[i]).0 == Some("cycler_sprite"@) || entities[i].0 == Some("env_sprite"@))
            && entities[i].1 is Some && seq_ends_with(entities[i].1->0, ".mdl"@)
            ==> spec_model_requests(entities).contains(entities[i].1->0),
        forall|k: int| #![trigger spec_model_requests(entities)[k]] 0 <= k < spec_model_requests(entities).len() ==> exists|i: int| {
            &&& 0 <= i < entities.len()
            &&& (#[trigger] entities[i]).1 == Some(spec_model_requests(entities)[k])
            &&& seq_ends_with(spec_model_requests(entities)[k], ".mdl"@)
            &&& (entities[i].0 == Some("cycler_sprite"@) || entities[i].0 == Some("env_sprite"@))
        },
    decreases entities.len(),
{
    if entities.len() > 0 {
        let init = entities.drop_last();
        lemma_model_requests_exact(init);
        let prev = spec_model_requests(init);
        let all = spec_model_requests(entities);
        let last = entities.last();
        assert forall|i: int| 0 <= i < entities.len()
            && ((#[trigger] entities[i]).0 == Some("cycler_sprite"@) || entities[i].0 == Some("env_sprite"@))
            && entities[i].1 is Some && seq_ends_with(entities[i].1->0, ".mdl"@)
            implies all.contains(entities[i].1->0) by {
            if i < entities.len() - 1 {
                assert(init[i] == entities[i]);
                assert(prev.contains(entities[i].1->0));
                let k = choose|k: int| 0 <= k < prev.len() && prev[k] == entities[i].1->0;
                assert(all[k] == prev[k]);
            } else {
                assert(all.last() == entities[i].1->0);
                assert(all[all.len() - 1] == entities[i].1->0);
            }
        }
        assert forall|k: int| #![trigger all[k]] 0 <= k < all.len() implies exists|i: int| {
            &&& 0 <= i < entities.len()
            &&& (#[trigger] entities[i]).1 == Some(all[k])
            &&& seq_ends_with(all[k], ".mdl"@)
            &&& (entities[i].0 == Some("cycler_sprite"@) || entities[i].0 == Some("env_sprite"@))
        } by {
            if k < prev.len() {
                assert(all[k] == prev[k]);
                let i = choose|i: int| {
                    &&& 0 <= i < init.len()
                    &&& (#[trigger] init[i]).1 == Some(prev[k])
                    &&& seq_ends_with(prev[k], ".mdl"@)
                    &&& (init[i].0 == Some("cycler_sprite"@) || init[i].0 == Some("env_sprite"@))
                };
                assert(entities[i] == init[i]);
            } else {
                assert(entities[entities.len() - 1] == last);
            }
        }
    }
}

/// Views of entity keys.
pub open spec fn entity_key_views(v: Seq<(Option<String>, Option<String>)>) -> Seq<(Option<Seq<char>>, Option<Seq<char>>)> {
    Seq::new(v.len(), |i: int| (
        match v[i].0 { Some(s) => Some(s@), None => None },
        match v[i].1 { Some(s) => Some(s@), None => None },
    ))
}

/// The studio model paths to fetch for a map, from the `classname` and
/// `model` keys of its entities.
pub fn model_requests(entities: &Vec<(Option<String>, Option<String>)>) -> (res: Vec<String>)
    ensures
        views(res@) == spec_model_requests(entity_key_views(entities@)),
        forall|i: int| 0 <= i < entities@.len()
            && ((#[trigger] entity_key_views(entities@)[i]).0 == Some("cycler_sprite"@)
                || entity_key_views(entities@)[i].0 == Some("env_sprite"@))
            && entity_key_views(entities@)[i].1 is Some && seq_ends_with(entity_key_views(entities@)[i].1->0, ".mdl"@)
            ==> views(res@).contains(entity_key_views(entities@)[i].1->0),
{
    let ghost ev = entity_key_views(entities@);
    let mut res: Vec<String> = Vec::new();
    let mut i: usize = 0;
    proof {
        assert(ev.take(0) =~= Seq::<(Option<Seq<char>>, Option<Seq<char>>)>::empty());
    }
    while i < entities.len()
        invariant
            ev == entity_key_views(entities@),
            i <= entities@.len(),
            views(res@) == spec_model_requests(ev.take(i as int)),
        decreases entities@.len() - i,
    {
        proof {
            assert(ev.take(i + 1).drop_last() =~= ev.take(i as int));
            assert(ev.take(i + 1).last() == ev[i as int]);
        }
        let (classname, model) = (&entities[i].0, &entities[i].1);
        match (classname, model) {
            (Some(c), Some(m)) => {
                if is_model_entity(c.as_str()) && ends_with(m.as_str(), ".mdl") {
                    let ghost old_res = views(res@);
                    res.push(m.clone());
                    proof {
                        assert(views(res@) =~= old_res.push(m@));
                    }
                }
            },
            _ => {},
        }
        i = i + 1;
    }
    proof {
        assert(ev.take(entities@.len() as int) =~= ev);
        lemma_model_requests_exact(ev);
    }
    res
}

/// How the wad files of a map with external textures are found.
#[derive(Clone, Copy, PartialEq, Eq, Structural, Debug)]
pub enum WadPlan {
    /// The map has no external texture: no wad is needed.
    NotNeeded,
    /// The wads listed by the map's `.res` file hold every external
    /// texture: send them.
    UseListed,
    /// Scan the wad files of every game mod to check.
    Scan,
}

/// Chooses how to find the wads of a map. `listed_wads_cover` tells, when
/// the `.res` file exists and has been read, whether its wads hold every
/// external texture.
pub fn wad_plan(has_external_textures: bool, res_exists: bool, listed_wads_cover: bool) -> (res: WadPlan)
    ensures
        res == (if !has_external_textures {
            WadPlan::NotNeeded
        } else if res_exists && listed_wads_cover {
            WadPlan::UseListed
        } else {
            WadPlan::Scan
        }),
{
    if !has_external_textures {
        WadPlan::NotNeeded
    } else if res_exists && listed_wads_cover {
        WadPlan::UseListed
    } else {
        WadPlan::Scan
    }
}

/// The resource names of the wads found by scanning: their file names,
/// and none at all when some external texture is still missing.
pub fn scanned_wad_names(required_paths: &Vec<String>, all_found: bool) -> (res: Vec<String>)
    requires
        forall|i: int| 0 <= i < required_paths@.len() ==> spec_file_name(#[trigger] required_paths@[i]@) is Some,
    ensures
        !all_found ==> res@.len() == 0,
        all_found ==> res@.len() == required_paths@.len() && forall|i: int| 0 <= i < required_paths@.len()
            ==> spec_file_name(required_paths@[i]@) == Some(#[trigger] res@[i]@),
{
    let mut res: Vec<String> = Vec::new();
    if !all_found {
        return res;
    }
    let mut i: usize = 0;
    while i < required_paths.len()
        invariant
            i <= required_paths@.len(),
            forall|j: int| 0 <= j < required_paths@.len() ==> spec_file_name(#[trigger] required_paths@[j]@) is Some,
            res@.len() == i,
            forall|j: int| 0 <= j < i ==> spec_file_name(required_paths@[j]@) == Some(#[trigger] res@[j]@),
        decreases required_paths@.len() - i,
    {
        let name = match file_name(required_paths[i].as_str()) {
            Some(n) => n,
            None => {
                proof {
                    assert(spec_file_name(required_paths@[i as int]@) is Some);
                }
                return res;
            },
        };
        res.push(name);
        i = i + 1;
    }
    res
}

/// Scanning takes off the wanted names only names that were wanted, and
/// counts each one it takes: what is left and what was found add up to
/// what was wanted.
pub proof fn lemma_take_textures_accounting(remaining: Set<Seq<char>>, names: Seq<Option<Seq<char>>>)
    requires
        remaining.finite(),
    ensures
        spec_take_textures(remaining, names).0.finite(),
        spec_take_textures(remaining, names).0.subset_of(remaining),
        spec_take_textures(remaining, names).0.len() + spec_take_textures(remaining, names).1 == remaining.len(),
    decreases names.len(),
{
    if names.len() > 0 {
        lemma_take_textures_accounting(remaining, names.drop_last());
        let prev = spec_take_textures(remaining, names.drop_last());
        match names.last() {
            Some(n) => {
                if prev.0.contains(n) {
                    assert(prev.0.remove(n).len() == prev.0.len() - 1);
                }
            },
            None => {},
        }
    }
}

/// The six skybox paths of a map are different files: the suffixes start
/// with different letters.
pub proof fn lemma_skybox_paths_distinct(skyname: Option<Seq<char>>, i: int, j: int)
    requires
        0 <= i < 6,
        0 <= j < 6,
        i != j,
    ensures
        spec_skybox_path(skyname, i) != spec_skybox_path(skyname, j),
{
    reveal_strlit("gfx/env");
    reveal_strlit("/");
    reveal_strlit(".tga");
    reveal_strlit("ft");
    reveal_strlit("bk");
    reveal_strlit("up");
    reveal_strlit("dn");
    reveal_strlit("rt");
    reveal_strlit("lf");
    let sky = spec_skyname(skyname);
    let bi = sky + skybox_suffixes()[i] + ".tga"@;
    let bj = sky + skybox_suffixes()[j] + ".tga"@;
    let k = sky.len() as int;
    assert(bi[k] == skybox_suffixes()[i][0]);
    assert(bj[k] == skybox_suffixes()[j][0]);
    assert(skybox_suffixes()[i][0] != skybox_suffixes()[j][0]);
    let pi = spec_skybox_path(skyname, i);
    let pj = spec_skybox_path(skyname, j);
    if bi.len() > 0 && bi[0] == '/' {
        assert(bj[0] == bi[0]) by {
            if k > 0 {
                assert(bi[0] == sky[0]);
                assert(bj[0] == sky[0]);
            }
        }
        assert(pi[k] != pj[k]);
    } else {
        assert(!(bj.len() > 0 && bj[0] == '/')) by {
            if k > 0 {
                assert(bi[0] == sky[0]);
                assert(bj[0] == sky[0]);
            }
        }
        let pre = "gfx/env"@ + "/"@;
        assert(pi == pre + bi);
        assert(pj == pre + bj);
        assert(pi[pre.len() + k] != pj[pre.len() + k]);
    }
}

} // verus!
