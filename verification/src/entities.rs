//! Map entities: which entities of a map are drawn and how, the render
//! properties read from their keys, and the consecutive world indices
//! that the drawn ones receive.

use vstd::prelude::*;
use vstd::string::*;
use crate::text::{seq_ends_with, seq_starts_with, ends_with, starts_with, str_eq};

verus! {

/// Whether `c` is an ASCII decimal digit.
pub open spec fn is_digit(c: char) -> bool {
    '0' <= c && c <= '9'
}

/// Every character of `s` is a decimal digit.
pub open spec fn all_digits(s: Seq<char>) -> bool {
    forall|i: int| 0 <= i < s.len() ==> #[trigger] is_digit(s[i])
}

/// The value of a run of decimal digits.
pub open spec fn digits_value(s: Seq<char>) -> int
    decreases s.len(),
{
    if s.len() == 0 {
        0
    } else {
        digits_value(s.drop_last()) * 10 + (s.last() as int - '0' as int)
    }
}

/// What `str::parse::<i32>` gives: an optional `+` or `-`, then one or more
/// decimal digits whose value fits in an `i32`; anything else is an error.
pub open spec fn spec_parse_i32(s: Seq<char>) -> Option<i32> {
    let neg = s.len() > 0 && s[0] == '-';
    let signed = s.len() > 0 && (s[0] == '-' || s[0] == '+');
    let body = if signed { s.skip(1) } else { s };
    let v = if neg { -digits_value(body) } else { digits_value(body) };
    if body.len() == 0 || !all_digits(body) || v < i32::MIN || v > i32::MAX {
        None
    } else {
        Some(v as i32)
    }
}

/// Digits are never negative, and a longer run of digits is worth at least
/// as much as its prefix.
proof fn lemma_digits_value_prefix(s: Seq<char>, k: int)
    requires
        all_digits(s),
        0 <= k <= s.len(),
    ensures
        0 <= digits_value(s.take(k)) <= digits_value(s),
    decreases s.len(),
{
    if s.len() > 0 {
        assert(all_digits(s.drop_last()));
        if k < s.len() {
            lemma_digits_value_prefix(s.drop_last(), k);
            assert(s.drop_last().take(k) =~= s.take(k));
        } else {
            assert(s.take(k) =~= s);
            lemma_digits_value_prefix(s.drop_last(), k - 1);
            assert(s.drop_last().take(k - 1) =~= s.drop_last());
        }
        assert(is_digit(s.last()));
    } else {
        assert(s.take(k) =~= s);
    }
}

/// Parses a decimal `i32`, as `str::parse::<i32>` does.
pub fn parse_i32(s: &str) -> (res: Option<i32>)
    ensures
        res == spec_parse_i32(s@),
{
    let n = s.unicode_len();
    let mut start: usize = 0;
    let mut neg = false;
    if n > 0 {
        let c = s.get_char(0);
        if c == '-' {
            neg = true;
            start = 1;
        } else if c == '+' {
            start = 1;
        }
    }
    proof {
        assert(neg == (s@.len() > 0 && s@[0] == '-'));
        assert((start == 1) == (s@.len() > 0 && (s@[0] == '-' || s@[0] == '+')));
        assert(start <= 1);
        assert(s@.skip(0) =~= s@);
    }
    let ghost body = s@.skip(start as int);
    let ghost v = if neg { -digits_value(body) } else { digits_value(body) };
    assert(spec_parse_i32(s@) == if body.len() == 0 || !all_digits(body) || v < i32::MIN || v > i32::MAX {
        None
    } else {
        Some(v as i32)
    });
    if start == n {
        return None;
    }
    let mut i: usize = start;
    while i < n
        invariant
            n == s@.len(),
            start <= i <= n,
            body == s@.skip(start as int),
            v == (if neg { -digits_value(body) } else { digits_value(body) }),
            spec_parse_i32(s@) == (if body.len() == 0 || !all_digits(body) || v < i32::MIN || v > i32::MAX {
                None
            } else {
                Some(v as i32)
            }),
            forall|j: int| 0 <= j < i - start ==> #[trigger] is_digit(body[j]),
        decreases n - i,
    {
        let c = s.get_char(i);
        if !('0' <= c && c <= '9') {
            proof {
                assert(!is_digit(body[i - start]));
            }
            return None;
        }
        i = i + 1;
    }
    assert(all_digits(body));
    let mut acc: i64 = 0;
    let mut k: usize = start;
    proof {
        assert(body.take(0) =~= Seq::<char>::empty());
    }
    while k < n
        invariant
            n == s@.len(),
            start <= k <= n,
            body == s@.skip(start as int),
            v == (if neg { -digits_value(body) } else { digits_value(body) }),
            spec_parse_i32(s@) == (if body.len() == 0 || !all_digits(body) || v < i32::MIN || v > i32::MAX {
                None
            } else {
                Some(v as i32)
            }),
            all_digits(body),
            acc == digits_value(body.take(k - start)),
            0 <= acc <= 0x8000_0000,
        decreases n - k,
    {
        let d = s.get_char(k);
        proof {
            assert(body[k - start] == d);
            assert(is_digit(d));
            assert(body.take(k - start + 1).drop_last() =~= body.take(k - start));
        }
        acc = acc * 10 + (d as i64 - '0' as i64);
        assert(acc == digits_value(body.take(k - start + 1)));
        if acc > 0x8000_0000 {
            proof {
                lemma_digits_value_prefix(body, k - start + 1);
            }
            return None;
        }
        k = k + 1;
    }
    proof {
        assert(body.take(n - start) =~= body);
    }
    if neg {
        Some((0 - acc) as i32)
    } else if acc <= 0x7fff_ffff {
        Some(acc as i32)
    } else {
        None
    }
}

/// The class names of point entities that display a model or sprite.
pub open spec fn spec_is_model_entity(classname: Seq<char>) -> bool {
    classname == "cycler_sprite"@ || classname == "env_sprite"@
}

/// Whether entities of this class display a model or a sprite.
pub fn is_model_entity(classname: &str) -> (res: bool)
    ensures
        res == spec_is_model_entity(classname@),
{
    str_eq(classname, "cycler_sprite") || str_eq(classname, "env_sprite")
}

/// Brushes of this class are not drawn: triggers, and the `func_` classes
/// listed in `nodraw_func_brushes`.
pub open spec fn spec_is_nodraw(classname: Seq<char>, nodraw_func_brushes: Seq<Seq<char>>) -> bool {
    seq_starts_with(classname, "trigger_"@) || nodraw_func_brushes.contains(classname)
}

/// Views of a list of strings.
pub open spec fn str_views(v: Seq<&str>) -> Seq<Seq<char>> {
    Seq::new(v.len(), |i: int| v[i]@)
}

/// Whether brushes of class `classname` are left undrawn.
pub fn is_nodraw(classname: &str, nodraw_func_brushes: &[&str]) -> (res: bool)
    ensures
        res == spec_is_nodraw(classname@, str_views(nodraw_func_brushes@)),
{
    let is_trigger = starts_with(classname, "trigger_");
    let mut listed = false;
    let mut i: usize = 0;
    while i < nodraw_func_brushes.len()
        invariant
            i <= nodraw_func_brushes@.len(),
            listed == exists|j: int| 0 <= j < i && #[trigger] str_views(nodraw_func_brushes@)[j] == classname@,
        decreases nodraw_func_brushes@.len() - i,
    {
        if str_eq(nodraw_func_brushes[i], classname) {
            listed = true;
        }
        proof {
            if str_views(nodraw_func_brushes@)[i as int] == classname@ {
                assert(exists|j: int| 0 <= j < i + 1 && #[trigger] str_views(nodraw_func_brushes@)[j] == classname@);
            }
        }
        i = i + 1;
    }
    proof {
        let v = str_views(nodraw_func_brushes@);
        if listed {
            let j = choose|j: int| 0 <= j < nodraw_func_brushes@.len() && #[trigger] v[j] == classname@;
            assert(v.contains(classname@));
        } else {
            if v.contains(classname@) {
                let j = choose|j: int| 0 <= j < v.len() && v[j] == classname@;
                assert(str_views(nodraw_func_brushes@)[j] == classname@);
            }
        }
    }
    is_trigger || listed
}

/// The bits of the `f32` value 255.0, full render amount.
pub const FULL_RENDERAMT_BITS: u32 = 0x437f_0000;

/// Render properties of a brush entity. The render amount is an `f32`,
/// held by its bits.
#[derive(Clone, Copy, PartialEq, Eq, Structural, Debug)]
pub struct CustomRender {
    pub rendermode: i32,
    pub renderamt_bits: u32,
    pub renderfx: i32,
}

/// Render modes 0 (normal) and 4 (solid) are drawn opaque.
pub open spec fn opaque_rendermode(rendermode: i32) -> bool {
    rendermode == 0 || rendermode == 4
}

/// The render amount of an entity: none when the key is missing or not a
/// number (zero), full for the opaque render modes, the parsed value
/// otherwise.
pub open spec fn spec_renderamt_bits(rendermode: i32, parsed_renderamt_bits: Option<u32>) -> u32 {
    match parsed_renderamt_bits {
        None => 0,
        Some(b) => if opaque_rendermode(rendermode) { FULL_RENDERAMT_BITS } else { b },
    }
}

/// A brush is opaque when its render mode is opaque or its render amount
/// is full.
pub open spec fn spec_brush_is_opaque(rendermode: i32, parsed_renderamt_bits: Option<u32>) -> bool {
    opaque_rendermode(rendermode) || spec_renderamt_bits(rendermode, parsed_renderamt_bits) == FULL_RENDERAMT_BITS
}

/// How an entity of a map is drawn.
pub enum EntityModel {
    /// The world itself.
    Bsp,
    /// A brush model, by index, drawn opaque.
    OpaqueEntityBrush((i32, CustomRender)),
    /// A brush model, by index, drawn blended.
    TransparentEntityBrush((i32, CustomRender)),
    /// A brush model that is not drawn, such as a trigger.
    NoDrawBrush(i32),
    /// A studio model, by path, with its body part.
    BspMdlEntity { model_name: String, submodel: usize },
    Sprite,
}

/// What to do with one entity of a map.
pub enum EntityClass {
    /// The first entity: the world.
    Worldspawn,
    /// A brush entity, drawn as given.
    Brush(EntityModel),
    /// A point entity showing the studio model at this path; it is drawn
    /// once the model is loaded and has textures.
    StudioModel(String),
    /// A point entity showing a sprite.
    Sprite,
    /// Nothing is drawn.
    Ignored,
}

/// The keys of an entity that decide how it is drawn. `renderamt_bits` is
/// the `renderamt` key parsed as an `f32`, by its bits, when it parses.
pub struct EntityKeys<'a> {
    pub classname: Option<&'a str>,
    pub model: Option<&'a str>,
    pub rendermode: Option<&'a str>,
    pub renderamt_bits: Option<u32>,
    pub renderfx: Option<&'a str>,
}

/// An integer key, zero when missing or not a number.
pub open spec fn spec_int_key(value: Option<&str>) -> i32 {
    match value {
        Some(v) => match spec_parse_i32(v@) {
            Some(x) => x,
            None => 0,
        },
        None => 0,
    }
}

fn int_key(value: Option<&str>) -> (res: i32)
    ensures
        res == spec_int_key(value),
{
    match value {
        Some(v) => match parse_i32(v) {
            Some(x) => x,
            None => 0,
        },
        None => 0,
    }
}

/// The brush model index of a `*N` model path.
pub open spec fn brush_model_index(model: Seq<char>) -> Option<i32> {
    spec_parse_i32(model.skip(1))
}

/// Decides how entity `bsp_entity_index` of a map is drawn. The first
/// entity is the world. Other entities need a class name and a model: a
/// model `*N` is brush model `N`, not drawn for triggers and the listed
/// `func_` classes, otherwise opaque or blended by its render mode and
/// amount; model entities show a sprite or a studio model by extension.
pub fn classify_entity(bsp_entity_index: usize, keys: &EntityKeys, nodraw_func_brushes: &[&str]) -> (res: EntityClass)
    requires
        bsp_entity_index != 0 && keys.classname is Some && keys.model is Some
            && seq_starts_with(keys.model->0@, "*"@) ==> brush_model_index(keys.model->0@) is Some,
    ensures
        bsp_entity_index == 0 ==> res is Worldspawn,
        bsp_entity_index != 0 && (keys.classname is None || keys.model is None) ==> res is Ignored,
        bsp_entity_index != 0 && keys.classname is Some && keys.model is Some ==> {
            let classname = keys.classname->0@;
            let model = keys.model->0@;
            let rendermode = spec_int_key(keys.rendermode);
            let opaque = spec_brush_is_opaque(rendermode, keys.renderamt_bits);
            let nodraw = spec_is_nodraw(classname, str_views(nodraw_func_brushes@));
            let render = CustomRender {
                rendermode,
                renderamt_bits: if opaque {
                    FULL_RENDERAMT_BITS
                } else {
                    spec_renderamt_bits(rendermode, keys.renderamt_bits)
                },
                renderfx: spec_int_key(keys.renderfx),
            };
            let index = brush_model_index(model)->0;
            let shows = spec_is_model_entity(classname);
            if seq_starts_with(model, "*"@) {
                if nodraw {
                    res matches EntityClass::Brush(EntityModel::NoDrawBrush(i)) && i == index
                } else if opaque {
                    res matches EntityClass::Brush(EntityModel::OpaqueEntityBrush((i, r))) && i == index && r == render
                } else {
                    res matches EntityClass::Brush(EntityModel::TransparentEntityBrush((i, r))) && i == index && r == render
                }
            } else if shows && seq_ends_with(model, ".spr"@) {
                res is Sprite
            } else if shows && seq_ends_with(model, ".mdl"@) {
                res matches EntityClass::StudioModel(p) && p@ == model
            } else {
                res is Ignored
            }
        },
{
    if bsp_entity_index == 0 {
        return EntityClass::Worldspawn;
    }
    let classname = match keys.classname {
        Some(c) => c,
        None => return EntityClass::Ignored,
    };
    let model = match keys.model {
        Some(m) => m,
        None => return EntityClass::Ignored,
    };
    let nodraw = is_nodraw(classname, nodraw_func_brushes);
    let is_entity_brush = starts_with(model, "*");
    let shows_model = is_model_entity(classname);
    let is_sprite = !is_entity_brush && shows_model && ends_with(model, ".spr");
    let is_mdl = !is_entity_brush && !is_sprite && shows_model && ends_with(model, ".mdl");
    let rendermode = int_key(keys.rendermode);
    let opaque_mode = rendermode == 0 || rendermode == 4;
    let renderamt_bits: u32 = match keys.renderamt_bits {
        Some(b) => if opaque_mode { FULL_RENDERAMT_BITS } else { b },
        None => 0,
    };
    let renderfx = int_key(keys.renderfx);
    if is_entity_brush {
        let is_opaque = opaque_mode || renderamt_bits == FULL_RENDERAMT_BITS;
        let n = model.unicode_len();
        proof {
            reveal_strlit("*");
        }
        let digits = model.substring_char(1, n);
        proof {
            assert(digits@ =~= model@.skip(1));
        }
        let index = match parse_i32(digits) {
            Some(i) => i,
            None => return EntityClass::Ignored,
        };
        let custom_render = CustomRender {
            rendermode,
            renderamt_bits: if is_opaque { FULL_RENDERAMT_BITS } else { renderamt_bits },
            renderfx,
        };
        if is_opaque && !nodraw {
            return EntityClass::Brush(EntityModel::OpaqueEntityBrush((index, custom_render)));
        } else if !is_opaque && !nodraw {
            return EntityClass::Brush(EntityModel::TransparentEntityBrush((index, custom_render)));
        } else {
            return EntityClass::Brush(EntityModel::NoDrawBrush(index));
        }
    }
    if is_mdl {
        return EntityClass::StudioModel(String::from_str(model));
    }
    if is_sprite {
        return EntityClass::Sprite;
    }
    EntityClass::Ignored
}

/// The world index of each entity: the entities that are drawn, in map
/// order, get the indices `0, 1, 2, ...`; the others get none.
pub open spec fn spec_world_indices(drawn: Seq<bool>) -> Seq<Option<usize>>
    decreases drawn.len(),
{
    if drawn.len() == 0 {
        Seq::empty()
    } else {
        let prev = spec_world_indices(drawn.drop_last());
        prev.push(if drawn.last() { Some(drawn_count(drawn.drop_last()) as usize) } else { None })
    }
}

/// How many entities are drawn.
pub open spec fn drawn_count(drawn: Seq<bool>) -> nat
    decreases drawn.len(),
{
    if drawn.len() == 0 {
        0
    } else {
        drawn_count(drawn.drop_last()) + if drawn.last() { 1nat } else { 0nat }
    }
}

/// Hands out world indices in map order to the entities that are drawn.
pub fn assign_world_indices(drawn: &[bool]) -> (res: Vec<Option<usize>>)
    ensures
        res@ == spec_world_indices(drawn@),
{
    let mut res: Vec<Option<usize>> = Vec::new();
    let mut next: usize = 0;
    let mut i: usize = 0;
    proof {
        assert(drawn@.take(0) =~= Seq::<bool>::empty());
    }
    while i < drawn.len()
        invariant
            i <= drawn@.len(),
            res@ == spec_world_indices(drawn@.take(i as int)),
            next == drawn_count(drawn@.take(i as int)),
            next <= i,
        decreases drawn@.len() - i,
    {
        proof {
            assert(drawn@.take(i + 1).drop_last() =~= drawn@.take(i as int));
            assert(drawn@.take(i + 1).last() == drawn@[i as int]);
        }
        if drawn[i] {
            res.push(Some(next));
            next = next + 1;
        } else {
            res.push(None);
        }
        i = i + 1;
    }
    proof {
        assert(drawn@.take(drawn@.len() as int) =~= drawn@);
    }
    res
}

/// Whether an entity of this class is drawn, given whether its studio
/// model, if it shows one, was loaded with textures: the world, every
/// brush entity (a no-draw brush keeps its place), and the studio models
/// that loaded.
pub open spec fn spec_entity_drawn(class: EntityClass, model_usable: bool) -> bool {
    match class {
        EntityClass::Worldspawn => true,
        EntityClass::Brush(_) => true,
        EntityClass::StudioModel(_) => model_usable,
        EntityClass::Sprite => false,
        EntityClass::Ignored => false,
    }
}

/// Which entities are drawn.
pub open spec fn drawn_entities(entities: Seq<(EntityClass, bool)>) -> Seq<bool> {
    Seq::new(entities.len(), |i: int| spec_entity_drawn(entities[i].0, entities[i].1))
}

/// The entity dictionary of a map: for each entity, by its index in the
/// map, the world index it is drawn with, or `None` for an entity that is
/// not drawn. Each entity comes with its class and whether its studio
/// model loaded with textures.
pub fn entity_world_indices(entities: &[(EntityClass, bool)]) -> (res: Vec<Option<usize>>)
    ensures
        res@ == spec_world_indices(drawn_entities(entities@)),
{
    let mut drawn: Vec<bool> = Vec::new();
    let mut i: usize = 0;
    while i < entities.len()
        invariant
            i <= entities@.len(),
            drawn@ == drawn_entities(entities@).take(i as int),
        decreases entities@.len() - i,
    {
        let d = match &entities[i].0 {
            EntityClass::Worldspawn => true,
            EntityClass::Brush(_) => true,
            EntityClass::StudioModel(_) => entities[i].1,
            EntityClass::Sprite => false,
            EntityClass::Ignored => false,
        };
        drawn.push(d);
        proof {
            assert(drawn@ =~= drawn_entities(entities@).take(i + 1));
        }
        i = i + 1;
    }
    proof {
        assert(drawn@ =~= drawn_entities(entities@));
    }
    assign_world_indices(drawn.as_slice())
}

/// The world, the first entity, gets world index zero.
pub proof fn lemma_worldspawn_first(entities: Seq<(EntityClass, bool)>)
    requires
        entities.len() > 0,
        entities[0].0 is Worldspawn,
    ensures
        spec_world_indices(drawn_entities(entities))[0] == Some(0usize),
{
    let drawn = drawn_entities(entities);
    lemma_world_indices_consecutive(drawn, 0);
    assert(drawn.take(0) =~= Seq::<bool>::empty());
}

/// In the entity dictionary of a map, each entity that is drawn gets a
/// world index below the number of drawn entities, different from that of
/// every other drawn entity, and the others get none.
pub proof fn lemma_entity_dictionary(entities: Seq<(EntityClass, bool)>, i: int, j: int)
    requires
        0 <= i < j < entities.len(),
        entities.len() <= usize::MAX,
    ensures
        spec_world_indices(drawn_entities(entities)).len() == entities.len(),
        spec_world_indices(drawn_entities(entities))[i] is Some
            <==> spec_entity_drawn(entities[i].0, entities[i].1),
        spec_world_indices(drawn_entities(entities))[i] matches Some(w)
            ==> w < drawn_count(drawn_entities(entities)),
        spec_entity_drawn(entities[i].0, entities[i].1) && spec_entity_drawn(entities[j].0, entities[j].1)
            ==> spec_world_indices(drawn_entities(entities))[i] != spec_world_indices(drawn_entities(entities))[j],
{
    let drawn = drawn_entities(entities);
    lemma_world_indices_consecutive(drawn, i);
    if drawn[i] {
        lemma_drawn_count_grows(drawn, i, drawn.len() as int);
        assert(drawn.take(drawn.len() as int) =~= drawn);
        if drawn[j] {
            lemma_world_indices_distinct(drawn, i, j);
        }
    }
}

/// The world indices are consecutive from zero in map order: each drawn
/// entity gets the number of drawn entities before it, and the others get
/// none.
pub proof fn lemma_world_indices_consecutive(drawn: Seq<bool>, i: int)
    requires
        0 <= i < drawn.len(),
    ensures
        spec_world_indices(drawn).len() == drawn.len(),
        spec_world_indices(drawn)[i] == (if drawn[i] {
            Some(drawn_count(drawn.take(i)) as usize)
        } else {
            None
        }),
    decreases drawn.len(),
{
    lemma_world_indices_len(drawn);
    if i < drawn.len() - 1 {
        lemma_world_indices_consecutive(drawn.drop_last(), i);
        assert(drawn.drop_last().take(i) =~= drawn.take(i));
    } else {
        assert(drawn.take(i) =~= drawn.drop_last());
    }
}

proof fn lemma_world_indices_len(drawn: Seq<bool>)
    ensures
        spec_world_indices(drawn).len() == drawn.len(),
    decreases drawn.len(),
{
    if drawn.len() > 0 {
        lemma_world_indices_len(drawn.drop_last());
    }
}

/// Two drawn entities never share a world index.
pub proof fn lemma_world_indices_distinct(drawn: Seq<bool>, i: int, j: int)
    requires
        0 <= i < j < drawn.len(),
        drawn[i],
        drawn[j],
        drawn.len() <= usize::MAX,
    ensures
        spec_world_indices(drawn)[i] != spec_world_indices(drawn)[j],
{
    lemma_world_indices_consecutive(drawn, i);
    lemma_world_indices_consecutive(drawn, j);
    lemma_drawn_count_grows(drawn, i, j);
    lemma_drawn_count_bound(drawn.take(j));
}

proof fn lemma_drawn_count_bound(drawn: Seq<bool>)
    ensures
        drawn_count(drawn) <= drawn.len(),
    decreases drawn.len(),
{
    if drawn.len() > 0 {
        lemma_drawn_count_bound(drawn.drop_last());
    }
}

/// An entity that is drawn counts among those before any later entity.
proof fn lemma_drawn_count_grows(drawn: Seq<bool>, i: int, j: int)
    requires
        0 <= i < j <= drawn.len(),
        drawn[i],
    ensures
        drawn_count(drawn.take(i)) < drawn_count(drawn.take(j)),
    decreases j - i,
{
    assert(drawn.take(i + 1).drop_last() =~= drawn.take(i));
    if j > i + 1 {
        lemma_drawn_count_grows(drawn, i, j - 1);
        assert(drawn.take(j).drop_last() =~= drawn.take(j - 1));
    }
}

} // verus!
