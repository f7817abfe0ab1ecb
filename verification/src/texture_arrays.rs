//! Texture arrays of the world: the textures of all models are grouped by
//! size into arrays, and a lookup tells for each entity and texture which
//! array and layer hold it. Also the checks made before an array is built.

use vstd::prelude::*;
use crate::texture::spec_mip_count;
use crate::texture::calculate_mipmap_count;

verus! {

/// Textures of one size: each is texture `t` of model `k`, in layer order.
pub struct TextureBucket {
    pub dimensions: (u32, u32),
    pub textures: Vec<(usize, usize)>,
}

/// What is put into the buckets, in order: for each entity whose model
/// has textures, every texture of that model with its size.
pub open spec fn texture_pushes(entity_models: Seq<Option<usize>>, model_dims: Seq<Seq<(u32, u32)>>) -> Seq<((u32, u32), (usize, usize))>
    decreases entity_models.len(),
{
    if entity_models.len() == 0 {
        Seq::empty()
    } else {
        let prev = texture_pushes(entity_models.drop_last(), model_dims);
        match entity_models.last() {
            Some(k) => if k < model_dims.len() {
                prev + model_pushes(k, model_dims[k as int])
            } else {
                prev
            },
            None => prev,
        }
    }
}

/// The textures of model `k`, each with its size.
pub open spec fn model_pushes(k: usize, dims: Seq<(u32, u32)>) -> Seq<((u32, u32), (usize, usize))> {
    Seq::new(dims.len(), |t: int| (dims[t], (k, t as usize)))
}

/// The pushed textures of size `d`, in order.
pub open spec fn with_dims(pushes: Seq<((u32, u32), (usize, usize))>, d: (u32, u32)) -> Seq<(usize, usize)>
    decreases pushes.len(),
{
    if pushes.len() == 0 {
        Seq::empty()
    } else {
        let prev = with_dims(pushes.drop_last(), d);
        if pushes.last().0 == d {
            prev.push(pushes.last().1)
        } else {
            prev
        }
    }
}

/// What a list of buckets holds: sizes and textures.
pub open spec fn bucket_views(buckets: Seq<TextureBucket>) -> Seq<((u32, u32), Seq<(usize, usize)>)> {
    Seq::new(buckets.len(), |b: int| (buckets[b].dimensions, buckets[b].textures@))
}

/// The buckets are exactly the pushes grouped by size: one bucket for
/// each size pushed, with all the textures of that size in push order.
pub open spec fn buckets_of(buckets: Seq<((u32, u32), Seq<(usize, usize)>)>, pushes: Seq<((u32, u32), (usize, usize))>) -> bool {
    &&& forall|b: int| 0 <= b < buckets.len() ==> (#[trigger] buckets[b]).1 == with_dims(pushes, buckets[b].0)
    &&& forall|a: int, b: int| 0 <= a < b < buckets.len() ==> (#[trigger] buckets[a]).0 != (#[trigger] buckets[b]).0
    &&& forall|p: int| 0 <= p < pushes.len() ==> has_bucket(buckets, (#[trigger] pushes[p]).0)
    &&& forall|b: int| 0 <= b < buckets.len() ==> was_pushed(pushes, (#[trigger] buckets[b]).0)
}

/// Some bucket has size `d`.
pub open spec fn has_bucket(buckets: Seq<((u32, u32), Seq<(usize, usize)>)>, d: (u32, u32)) -> bool {
    exists|b: int| 0 <= b < buckets.len() && (#[trigger] buckets[b]).0 == d
}

/// Some texture of size `d` was pushed.
pub open spec fn was_pushed(pushes: Seq<((u32, u32), (usize, usize))>, d: (u32, u32)) -> bool {
    exists|p: int| 0 <= p < pushes.len() && (#[trigger] pushes[p]).0 == d
}

/// `with_dims` of one more push.
proof fn lemma_with_dims_push(pushes: Seq<((u32, u32), (usize, usize))>, x: ((u32, u32), (usize, usize)), d: (u32, u32))
    ensures
        with_dims(pushes.push(x), d) == if x.0 == d { with_dims(pushes, d).push(x.1) } else { with_dims(pushes, d) },
{
    assert(pushes.push(x).drop_last() =~= pushes);
}

/// Groups the textures of the entities' models by size. `entity_models`
/// gives for each entity the model whose textures it shows, if it has
/// one; `model_dims` the size of each texture of each model.
pub fn bucket_textures(entity_models: &Vec<Option<usize>>, model_dims: &Vec<Vec<(u32, u32)>>) -> (res: Vec<TextureBucket>)
    ensures
        buckets_of(bucket_views(res@), texture_pushes(entity_models@, dims_views(model_dims@))),
{
    let ghost md = dims_views(model_dims@);
    let mut buckets: Vec<TextureBucket> = Vec::new();
    let mut i: usize = 0;
    proof {
        assert(entity_models@.take(0) =~= Seq::<Option<usize>>::empty());
        assert(bucket_views(buckets@) =~= Seq::<((u32, u32), Seq<(usize, usize)>)>::empty());
    }
    while i < entity_models.len()
        invariant
            md == dims_views(model_dims@),
            i <= entity_models@.len(),
            buckets_of(bucket_views(buckets@), texture_pushes(entity_models@.take(i as int), md)),
        decreases entity_models@.len() - i,
    {
        let ghost before = texture_pushes(entity_models@.take(i as int), md);
        proof {
            assert(entity_models@.take(i + 1).drop_last() =~= entity_models@.take(i as int));
            assert(entity_models@.take(i + 1).last() == entity_models@[i as int]);
        }
        match entity_models[i] {
            Some(k) => {
                if k < model_dims.len() {
                    let dims = &model_dims[k];
                    let mut t: usize = 0;
                    proof {
                        assert(model_pushes(k, md[k as int]).take(0) =~= Seq::<((u32, u32), (usize, usize))>::empty());
                        assert(before + model_pushes(k, md[k as int]).take(0) =~= before);
                    }
                    while t < dims.len()
                        invariant
                            md == dims_views(model_dims@),
                            k < model_dims@.len(),
                            dims@ == md[k as int],
                            t <= dims@.len(),
                            buckets_of(bucket_views(buckets@), before + model_pushes(k, md[k as int]).take(t as int)),
                        decreases dims@.len() - t,
                    {
                        let d = dims[t];
                        let ghost pushed = before + model_pushes(k, md[k as int]).take(t as int);
                        let ghost x = (d, (k, t));
                        proof {
                            assert(before + model_pushes(k, md[k as int]).take(t + 1) =~= pushed.push(x));
                        }
                        add_to_bucket(&mut buckets, d, k, t, Ghost(pushed));
                        t = t + 1;
                    }
                    proof {
                        assert(model_pushes(k, md[k as int]).take(dims@.len() as int) =~= model_pushes(k, md[k as int]));
                    }
                } else {
                }
            },
            None => {},
        }
        i = i + 1;
    }
    proof {
        assert(entity_models@.take(entity_models@.len() as int) =~= entity_models@);
    }
    buckets
}

/// The texture sizes of every model.
pub open spec fn dims_views(model_dims: Seq<Vec<(u32, u32)>>) -> Seq<Seq<(u32, u32)>> {
    Seq::new(model_dims.len(), |k: int| model_dims[k]@)
}

/// Puts texture `t` of model `k`, of size `d`, into the bucket of its
/// size, making that bucket when there is none.
fn add_to_bucket(buckets: &mut Vec<TextureBucket>, d: (u32, u32), k: usize, t: usize, Ghost(pushed): Ghost<Seq<((u32, u32), (usize, usize))>>)
    requires
        buckets_of(bucket_views(old(buckets)@), pushed),
    ensures
        buckets_of(bucket_views(final(buckets)@), pushed.push((d, (k, t)))),
{
    let ghost old_views = bucket_views(buckets@);
    let mut b: usize = 0;
    while b < buckets.len()
        invariant
            b <= buckets@.len(),
            bucket_views(buckets@) == old_views,
            buckets_of(old_views, pushed),
            forall|c: int| 0 <= c < b ==> old_views[c].0 != d,
        decreases buckets@.len() - b,
    {
        if buckets[b].dimensions.0 == d.0 && buckets[b].dimensions.1 == d.1 {
            let ghost old_buckets = buckets@;
            let mut bucket = buckets.remove(b);
            bucket.textures.push((k, t));
            buckets.insert(b, bucket);
            proof {
                let nv = bucket_views(buckets@);
                assert forall|c: int| 0 <= c < nv.len() && c != b implies nv[c] == old_views[c] by {
                    assert(buckets@[c] == old_buckets[c]);
                }
                assert(nv[b as int] == (d, old_views[b as int].1.push((k, t))));
                lemma_bucket_extend(old_views, nv, pushed, (d, (k, t)), b as int);
            }
            return;
        }
        b = b + 1;
    }
    let mut textures: Vec<(usize, usize)> = Vec::new();
    textures.push((k, t));
    buckets.push(TextureBucket { dimensions: d, textures });
    proof {
        let nv = bucket_views(buckets@);
        assert(nv =~= old_views.push((d, seq![(k, t)])));
        lemma_bucket_new(old_views, pushed, (d, (k, t)));
    }
}

/// Adding a texture to the bucket of its size keeps the buckets grouped.
proof fn lemma_bucket_extend(
    old_views: Seq<((u32, u32), Seq<(usize, usize)>)>,
    nv: Seq<((u32, u32), Seq<(usize, usize)>)>,
    pushed: Seq<((u32, u32), (usize, usize))>,
    x: ((u32, u32), (usize, usize)),
    b: int,
)
    requires
        buckets_of(old_views, pushed),
        0 <= b < old_views.len(),
        nv.len() == old_views.len(),
        forall|c: int| 0 <= c < nv.len() && c != b ==> nv[c] == old_views[c],
        old_views[b].0 == x.0,
        nv[b] == (x.0, old_views[b].1.push(x.1)),
    ensures
        buckets_of(nv, pushed.push(x)),
{
    let after = pushed.push(x);
    assert forall|c: int| 0 <= c < nv.len() implies (#[trigger] nv[c]).1 == with_dims(after, nv[c].0) by {
        lemma_with_dims_push(pushed, x, nv[c].0);
        if c != b {
            assert(nv[c] == old_views[c]);
            assert(old_views[c].0 != old_views[b].0) by {
                if c < b {
                    assert(old_views[c].0 != old_views[b].0);
                } else {
                    assert(old_views[b].0 != old_views[c].0);
                }
            }
        } else {
            assert(old_views[b].1 == with_dims(pushed, old_views[b].0));
        }
    }
    assert forall|a: int, c: int| 0 <= a < c < nv.len() implies (#[trigger] nv[a]).0 != (#[trigger] nv[c]).0 by {
        assert(nv[a].0 == old_views[a].0);
        assert(nv[c].0 == old_views[c].0);
        assert(old_views[a].0 != old_views[c].0);
    }
    assert forall|p: int| 0 <= p < after.len() implies has_bucket(nv, (#[trigger] after[p]).0) by {
        if p < pushed.len() {
            assert(after[p] == pushed[p]);
            assert(has_bucket(old_views, pushed[p].0));
            let c = choose|c: int| 0 <= c < old_views.len() && (#[trigger] old_views[c]).0 == pushed[p].0;
            assert(nv[c].0 == old_views[c].0);
        } else {
            assert(nv[b].0 == after[p].0);
        }
    }
    assert forall|c: int| 0 <= c < nv.len() implies was_pushed(after, (#[trigger] nv[c]).0) by {
        assert(nv[c].0 == old_views[c].0);
        assert(was_pushed(pushed, old_views[c].0));
        let p = choose|p: int| 0 <= p < pushed.len() && (#[trigger] pushed[p]).0 == old_views[c].0;
        assert(after[p] == pushed[p]);
    }
}

/// A texture of a size that no bucket has starts a new bucket of its own.
proof fn lemma_bucket_new(
    old_views: Seq<((u32, u32), Seq<(usize, usize)>)>,
    pushed: Seq<((u32, u32), (usize, usize))>,
    x: ((u32, u32), (usize, usize)),
)
    requires
        buckets_of(old_views, pushed),
        forall|c: int| 0 <= c < old_views.len() ==> old_views[c].0 != x.0,
    ensures
        buckets_of(old_views.push((x.0, seq![x.1])), pushed.push(x)),
{
    let nv = old_views.push((x.0, seq![x.1]));
    let after = pushed.push(x);
    let n = old_views.len() as int;
    assert forall|c: int| 0 <= c < nv.len() implies (#[trigger] nv[c]).1 == with_dims(after, nv[c].0) by {
        lemma_with_dims_push(pushed, x, nv[c].0);
        if c < n {
            assert(nv[c] == old_views[c]);
        } else {
            lemma_with_dims_absent(pushed, x.0, old_views);
            assert(with_dims(pushed, x.0) =~= Seq::<(usize, usize)>::empty());
            assert(seq![x.1] =~= Seq::<(usize, usize)>::empty().push(x.1));
        }
    }
    assert forall|a: int, c: int| 0 <= a < c < nv.len() implies (#[trigger] nv[a]).0 != (#[trigger] nv[c]).0 by {
        assert(nv[a].0 == old_views[a].0);
        if c < n {
            assert(nv[c].0 == old_views[c].0);
        }
    }
    assert forall|p: int| 0 <= p < after.len() implies has_bucket(nv, (#[trigger] after[p]).0) by {
        if p < pushed.len() {
            assert(after[p] == pushed[p]);
            assert(has_bucket(old_views, pushed[p].0));
            let c = choose|c: int| 0 <= c < old_views.len() && (#[trigger] old_views[c]).0 == pushed[p].0;
            assert(nv[c].0 == old_views[c].0);
        } else {
            assert(nv[n].0 == after[p].0);
        }
    }
    assert forall|c: int| 0 <= c < nv.len() implies was_pushed(after, (#[trigger] nv[c]).0) by {
        if c < n {
            assert(nv[c].0 == old_views[c].0);
            assert(was_pushed(pushed, old_views[c].0));
            let p = choose|p: int| 0 <= p < pushed.len() && (#[trigger] pushed[p]).0 == old_views[c].0;
            assert(after[p] == pushed[p]);
        } else {
            assert(after[pushed.len() as int] == x);
        }
    }
    assert(buckets_of(nv, after));
}

/// A size that no bucket has was never pushed.
proof fn lemma_with_dims_absent(pushed: Seq<((u32, u32), (usize, usize))>, d: (u32, u32), views: Seq<((u32, u32), Seq<(usize, usize)>)>)
    requires
        forall|p: int| 0 <= p < pushed.len() ==> has_bucket(views, (#[trigger] pushed[p]).0),
        forall|c: int| 0 <= c < views.len() ==> views[c].0 != d,
    ensures
        with_dims(pushed, d).len() == 0,
    decreases pushed.len(),
{
    if pushed.len() > 0 {
        let last = pushed.len() - 1;
        assert(pushed[last] == pushed.last());
        assert(has_bucket(views, pushed[last].0));
        assert(pushed.last().0 != d);
        assert forall|p: int| 0 <= p < pushed.drop_last().len() implies has_bucket(views, (#[trigger] pushed.drop_last()[p]).0) by {
            assert(pushed.drop_last()[p] == pushed[p]);
            assert(has_bucket(views, pushed[p].0));
        }
        lemma_with_dims_absent(pushed.drop_last(), d, views);
    }
}

/// The slots of the buckets before bucket `nb`, in order: bucket, layer
/// and the texture in that layer.
pub open spec fn slots_of(buckets: Seq<((u32, u32), Seq<(usize, usize)>)>, nb: nat) -> Seq<(usize, usize, (usize, usize))>
    decreases nb,
{
    if nb == 0 || nb > buckets.len() {
        Seq::empty()
    } else {
        let b = nb - 1;
        slots_of(buckets, b as nat) + Seq::new(buckets[b].1.len(), |l: int| (b as usize, l as usize, buckets[b].1[l]))
    }
}

/// The lookup entries of one slot over the first `n` entities: each
/// entity showing the model of the slot's texture gets that texture at
/// the slot's bucket and layer.
pub open spec fn slot_entries(
    slot: (usize, usize, (usize, usize)),
    entity_models: Seq<Option<usize>>,
    world_indices: Seq<usize>,
    n: nat,
) -> Seq<((usize, usize), (usize, usize))>
    decreases n,
{
    if n == 0 {
        Seq::empty()
    } else {
        let prev = slot_entries(slot, entity_models, world_indices, (n - 1) as nat);
        if entity_models[n - 1] == Some(slot.2.0) {
            prev.push(((world_indices[n - 1], slot.2.1), (slot.0, slot.1)))
        } else {
            prev
        }
    }
}

/// The lookup entries of a run of slots, in order.
pub open spec fn entries_of_slots(
    slots: Seq<(usize, usize, (usize, usize))>,
    entity_models: Seq<Option<usize>>,
    world_indices: Seq<usize>,
) -> Seq<((usize, usize), (usize, usize))>
    decreases slots.len(),
{
    if slots.len() == 0 {
        Seq::empty()
    } else {
        entries_of_slots(slots.drop_last(), entity_models, world_indices)
            + slot_entries(slots.last(), entity_models, world_indices, entity_models.len())
    }
}

/// The entries of the texture lookup, in the order in which they are
/// inserted: a later entry with the same key replaces an earlier one.
pub open spec fn spec_lookup_entries(
    buckets: Seq<((u32, u32), Seq<(usize, usize)>)>,
    entity_models: Seq<Option<usize>>,
    world_indices: Seq<usize>,
) -> Seq<((usize, usize), (usize, usize))> {
    entries_of_slots(slots_of(buckets, buckets.len()), entity_models, world_indices)
}

/// Lists the slots of the buckets.
fn bucket_slots(buckets: &Vec<TextureBucket>) -> (res: Vec<(usize, usize, (usize, usize))>)
    ensures
        res@ == slots_of(bucket_views(buckets@), buckets@.len() as nat),
{
    let ghost bv = bucket_views(buckets@);
    let mut res: Vec<(usize, usize, (usize, usize))> = Vec::new();
    let mut b: usize = 0;
    while b < buckets.len()
        invariant
            bv == bucket_views(buckets@),
            b <= buckets@.len(),
            res@ == slots_of(bv, b as nat),
        decreases buckets@.len() - b,
    {
        let textures = &buckets[b].textures;
        let ghost base = res@;
        let mut l: usize = 0;
        while l < textures.len()
            invariant
                bv == bucket_views(buckets@),
                b < buckets@.len(),
                textures@ == bv[b as int].1,
                l <= textures@.len(),
                res@ == base + Seq::new(l as nat, |i: int| (b, i as usize, bv[b as int].1[i])),
            decreases textures@.len() - l,
        {
            res.push((b, l, textures[l]));
            proof {
                assert(res@ =~= base + Seq::new((l + 1) as nat, |i: int| (b, i as usize, bv[b as int].1[i])));
            }
            l = l + 1;
        }
        proof {
            assert(res@ =~= slots_of(bv, (b + 1) as nat));
        }
        b = b + 1;
    }
    res
}

/// Builds the entries of the texture lookup: for each bucket and layer,
/// each entity showing the model of that layer's texture is told where
/// the texture lies. `world_indices` gives each entity's world index.
pub fn texture_lookup_entries(
    buckets: &Vec<TextureBucket>,
    entity_models: &Vec<Option<usize>>,
    world_indices: &Vec<usize>,
) -> (res: Vec<((usize, usize), (usize, usize))>)
    requires
        world_indices@.len() == entity_models@.len(),
    ensures
        res@ == spec_lookup_entries(bucket_views(buckets@), entity_models@, world_indices@),
{
    let slots = bucket_slots(buckets);
    let mut res: Vec<((usize, usize), (usize, usize))> = Vec::new();
    let mut s: usize = 0;
    proof {
        assert(slots@.take(0) =~= Seq::<(usize, usize, (usize, usize))>::empty());
    }
    while s < slots.len()
        invariant
            world_indices@.len() == entity_models@.len(),
            s <= slots@.len(),
            res@ == entries_of_slots(slots@.take(s as int), entity_models@, world_indices@),
        decreases slots@.len() - s,
    {
        let (b, l, (k, t)) = slots[s];
        let ghost base = res@;
        let mut j: usize = 0;
        while j < entity_models.len()
            invariant
                world_indices@.len() == entity_models@.len(),
                s < slots@.len(),
                slots@[s as int] == (b, l, (k, t)),
                j <= entity_models@.len(),
                res@ == base + slot_entries((b, l, (k, t)), entity_models@, world_indices@, j as nat),
            decreases entity_models@.len() - j,
        {
            match entity_models[j] {
                Some(m) => {
                    if m == k {
                        res.push(((world_indices[j], t), (b, l)));
                    }
                },
                None => {},
            }
            proof {
                assert(res@ =~= base + slot_entries((b, l, (k, t)), entity_models@, world_indices@, (j + 1) as nat));
            }
            j = j + 1;
        }
        proof {
            assert(slots@.take(s + 1).drop_last() =~= slots@.take(s as int));
            assert(slots@.take(s + 1).last() == slots@[s as int]);
        }
        s = s + 1;
    }
    proof {
        assert(slots@.take(slots@.len() as int) =~= slots@);
    }
    res
}

/// The value of the last entry with key `key`.
pub open spec fn spec_lookup_get(entries: Seq<((usize, usize), (usize, usize))>, key: (usize, usize)) -> Option<(usize, usize)>
    decreases entries.len(),
{
    if entries.len() == 0 {
        None
    } else if entries.last().0 == key {
        Some(entries.last().1)
    } else {
        spec_lookup_get(entries.drop_last(), key)
    }
}

/// Where texture `texture_index` of the entity with world index
/// `world_index` lies: the last entry for that key.
pub fn texture_lookup_get(entries: &Vec<((usize, usize), (usize, usize))>, world_index: usize, texture_index: usize) -> (res: Option<(usize, usize)>)
    ensures
        res == spec_lookup_get(entries@, (world_index, texture_index)),
{
    let mut i: usize = entries.len();
    proof {
        assert(entries@.take(i as int) =~= entries@);
    }
    while i > 0
        invariant
            i <= entries@.len(),
            spec_lookup_get(entries@, (world_index, texture_index)) == spec_lookup_get(entries@.take(i as int), (world_index, texture_index)),
        decreases i,
    {
        let e = entries[i - 1];
        proof {
            assert(entries@.take(i as int).drop_last() =~= entries@.take(i - 1));
            assert(entries@.take(i as int).last() == entries@[i - 1]);
        }
        if e.0.0 == world_index && e.0.1 == texture_index {
            return Some(e.1);
        }
        i = i - 1;
    }
    proof {
        assert(entries@.take(0) =~= Seq::<((usize, usize), (usize, usize))>::empty());
    }
    None
}

/// Slot `q` before bucket `nb` names an existing layer and its texture.
proof fn lemma_slot_sound(buckets: Seq<((u32, u32), Seq<(usize, usize)>)>, nb: nat, q: int)
    requires
        nb <= buckets.len(),
        buckets.len() <= usize::MAX,
        forall|b: int| 0 <= b < buckets.len() ==> (#[trigger] buckets[b]).1.len() <= usize::MAX,
        0 <= q < slots_of(buckets, nb).len(),
    ensures
        (slots_of(buckets, nb)[q].0 as int) < nb,
        (slots_of(buckets, nb)[q].1 as int) < buckets[slots_of(buckets, nb)[q].0 as int].1.len(),
        slots_of(buckets, nb)[q].2 == buckets[slots_of(buckets, nb)[q].0 as int].1[slots_of(buckets, nb)[q].1 as int],
    decreases nb,
{
    let b0 = (nb - 1) as int;
    let prev = slots_of(buckets, (nb - 1) as nat);
    let tail = Seq::new(buckets[b0].1.len(), |l: int| (b0 as usize, l as usize, buckets[b0].1[l]));
    assert(slots_of(buckets, nb) == prev + tail);
    if q < prev.len() {
        lemma_slot_sound(buckets, (nb - 1) as nat, q);
        assert(slots_of(buckets, nb)[q] == prev[q]);
    } else {
        assert(slots_of(buckets, nb)[q] == tail[q - prev.len()]);
    }
}

/// Layer `l` of bucket `b` has a slot.
proof fn lemma_slot_complete(buckets: Seq<((u32, u32), Seq<(usize, usize)>)>, nb: nat, b: int, l: int) -> (q: int)
    requires
        nb <= buckets.len(),
        0 <= b < nb,
        0 <= l < buckets[b].1.len(),
        b <= usize::MAX,
        l <= usize::MAX,
    ensures
        0 <= q < slots_of(buckets, nb).len(),
        slots_of(buckets, nb)[q] == (b as usize, l as usize, buckets[b].1[l]),
    decreases nb,
{
    let b0 = (nb - 1) as int;
    let prev = slots_of(buckets, (nb - 1) as nat);
    let tail = Seq::new(buckets[b0].1.len(), |l: int| (b0 as usize, l as usize, buckets[b0].1[l]));
    assert(slots_of(buckets, nb) == prev + tail);
    if b < b0 {
        let q = lemma_slot_complete(buckets, (nb - 1) as nat, b, l);
        assert(slots_of(buckets, nb)[q] == prev[q]);
        q
    } else {
        let q = prev.len() + l;
        assert(slots_of(buckets, nb)[q] == tail[l]);
        q
    }
}

/// Entry `p` of a slot names an entity that shows the slot's model.
proof fn lemma_slot_entry_sound(
    slot: (usize, usize, (usize, usize)),
    entity_models: Seq<Option<usize>>,
    world_indices: Seq<usize>,
    n: nat,
    p: int,
) -> (i: int)
    requires
        n <= entity_models.len(),
        n <= world_indices.len(),
        0 <= p < slot_entries(slot, entity_models, world_indices, n).len(),
    ensures
        0 <= i < n,
        entity_models[i] == Some(slot.2.0),
        slot_entries(slot, entity_models, world_indices, n)[p] == ((world_indices[i], slot.2.1), (slot.0, slot.1)),
    decreases n,
{
    let prev = slot_entries(slot, entity_models, world_indices, (n - 1) as nat);
    let cur = slot_entries(slot, entity_models, world_indices, n);
    if p < prev.len() {
        let i = lemma_slot_entry_sound(slot, entity_models, world_indices, (n - 1) as nat, p);
        assert(cur[p] == prev[p]);
        i
    } else {
        (n - 1) as int
    }
}

/// Every entity that shows the slot's model has an entry of the slot.
proof fn lemma_slot_entry_complete(
    slot: (usize, usize, (usize, usize)),
    entity_models: Seq<Option<usize>>,
    world_indices: Seq<usize>,
    n: nat,
    i: int,
) -> (p: int)
    requires
        n <= entity_models.len(),
        n <= world_indices.len(),
        0 <= i < n,
        entity_models[i] == Some(slot.2.0),
    ensures
        0 <= p < slot_entries(slot, entity_models, world_indices, n).len(),
        slot_entries(slot, entity_models, world_indices, n)[p] == ((world_indices[i], slot.2.1), (slot.0, slot.1)),
    decreases n,
{
    let prev = slot_entries(slot, entity_models, world_indices, (n - 1) as nat);
    let cur = slot_entries(slot, entity_models, world_indices, n);
    if i < n - 1 {
        let p = lemma_slot_entry_complete(slot, entity_models, world_indices, (n - 1) as nat, i);
        assert(cur[p] == prev[p]);
        p
    } else {
        prev.len() as int
    }
}

/// Entry `p` of a run of slots comes from one slot and one entity showing
/// its model.
proof fn lemma_entry_sound(
    slots: Seq<(usize, usize, (usize, usize))>,
    entity_models: Seq<Option<usize>>,
    world_indices: Seq<usize>,
    p: int,
) -> (qi: (int, int))
    requires
        world_indices.len() == entity_models.len(),
        0 <= p < entries_of_slots(slots, entity_models, world_indices).len(),
    ensures
        0 <= qi.0 < slots.len(),
        0 <= qi.1 < entity_models.len(),
        entity_models[qi.1] == Some(slots[qi.0].2.0),
        entries_of_slots(slots, entity_models, world_indices)[p]
            == ((world_indices[qi.1], slots[qi.0].2.1), (slots[qi.0].0, slots[qi.0].1)),
    decreases slots.len(),
{
    let init = slots.drop_last();
    let n = entity_models.len();
    let prev = entries_of_slots(init, entity_models, world_indices);
    let tail = slot_entries(slots.last(), entity_models, world_indices, n);
    let all = entries_of_slots(slots, entity_models, world_indices);
    assert(all == prev + tail);
    if p < prev.len() {
        let (q, i) = lemma_entry_sound(init, entity_models, world_indices, p);
        assert(init[q] == slots[q]);
        assert(all[p] == prev[p]);
        (q, i)
    } else {
        let i = lemma_slot_entry_sound(slots.last(), entity_models, world_indices, n, p - prev.len());
        assert(all[p] == tail[p - prev.len()]);
        assert(slots.last() == slots[slots.len() - 1]);
        ((slots.len() - 1) as int, i)
    }
}

/// Every slot gives an entry to every entity showing its model.
proof fn lemma_entry_complete(
    slots: Seq<(usize, usize, (usize, usize))>,
    entity_models: Seq<Option<usize>>,
    world_indices: Seq<usize>,
    q: int,
    i: int,
) -> (p: int)
    requires
        world_indices.len() == entity_models.len(),
        0 <= q < slots.len(),
        0 <= i < entity_models.len(),
        entity_models[i] == Some(slots[q].2.0),
    ensures
        0 <= p < entries_of_slots(slots, entity_models, world_indices).len(),
        entries_of_slots(slots, entity_models, world_indices)[p]
            == ((world_indices[i], slots[q].2.1), (slots[q].0, slots[q].1)),
    decreases slots.len(),
{
    let init = slots.drop_last();
    let n = entity_models.len();
    let prev = entries_of_slots(init, entity_models, world_indices);
    let tail = slot_entries(slots.last(), entity_models, world_indices, n);
    let all = entries_of_slots(slots, entity_models, world_indices);
    assert(all == prev + tail);
    if q < slots.len() - 1 {
        assert(init[q] == slots[q]);
        let p = lemma_entry_complete(init, entity_models, world_indices, q, i);
        assert(all[p] == prev[p]);
        p
    } else {
        assert(slots.last() == slots[q]);
        let p = lemma_slot_entry_complete(slots.last(), entity_models, world_indices, n, i);
        assert(all[prev.len() + p] == tail[p]);
        prev.len() + p
    }
}

/// A key with an entry has a value.
proof fn lemma_lookup_get_present(entries: Seq<((usize, usize), (usize, usize))>, key: (usize, usize), e: int)
    requires
        0 <= e < entries.len(),
        entries[e].0 == key,
    ensures
        spec_lookup_get(entries, key) is Some,
    decreases entries.len(),
{
    if entries.last().0 != key {
        assert(e < entries.len() - 1);
        assert(entries.drop_last()[e] == entries[e]);
        lemma_lookup_get_present(entries.drop_last(), key, e);
    }
}

/// The value found for a key is that of one of its entries.
proof fn lemma_lookup_get_sound(entries: Seq<((usize, usize), (usize, usize))>, key: (usize, usize)) -> (e: int)
    requires
        spec_lookup_get(entries, key) is Some,
    ensures
        0 <= e < entries.len(),
        entries[e] == (key, spec_lookup_get(entries, key)->0),
    decreases entries.len(),
{
    if entries.last().0 == key {
        (entries.len() - 1) as int
    } else {
        let e = lemma_lookup_get_sound(entries.drop_last(), key);
        assert(entries.drop_last()[e] == entries[e]);
        e
    }
}

/// Texture `l` of size `d` was pushed with size `d`.
proof fn lemma_with_dims_sound(pushes: Seq<((u32, u32), (usize, usize))>, d: (u32, u32), l: int) -> (p: int)
    requires
        0 <= l < with_dims(pushes, d).len(),
    ensures
        0 <= p < pushes.len(),
        pushes[p] == (d, with_dims(pushes, d)[l]),
    decreases pushes.len(),
{
    let init = pushes.drop_last();
    let prev = with_dims(init, d);
    if l < prev.len() {
        let p = lemma_with_dims_sound(init, d, l);
        assert(init[p] == pushes[p]);
        p
    } else {
        (pushes.len() - 1) as int
    }
}

/// A push of size `d` is among the textures of size `d`.
proof fn lemma_with_dims_complete(pushes: Seq<((u32, u32), (usize, usize))>, d: (u32, u32), p: int) -> (l: int)
    requires
        0 <= p < pushes.len(),
        pushes[p].0 == d,
    ensures
        0 <= l < with_dims(pushes, d).len(),
        with_dims(pushes, d)[l] == pushes[p].1,
    decreases pushes.len(),
{
    let init = pushes.drop_last();
    let prev = with_dims(init, d);
    if p < pushes.len() - 1 {
        assert(init[p] == pushes[p]);
        let l = lemma_with_dims_complete(init, d, p);
        l
    } else {
        prev.len() as int
    }
}

/// A push of texture `t` of model `k` carries that texture's size.
proof fn lemma_push_size(entity_models: Seq<Option<usize>>, model_dims: Seq<Seq<(u32, u32)>>, p: int)
    requires
        0 <= p < texture_pushes(entity_models, model_dims).len(),
        forall|k: int| 0 <= k < model_dims.len() ==> (#[trigger] model_dims[k]).len() <= usize::MAX,
    ensures
        (texture_pushes(entity_models, model_dims)[p].1.0 as int) < model_dims.len(),
        (texture_pushes(entity_models, model_dims)[p].1.1 as int)
            < model_dims[texture_pushes(entity_models, model_dims)[p].1.0 as int].len(),
        texture_pushes(entity_models, model_dims)[p].0 == model_dims[texture_pushes(entity_models, model_dims)[p].1.0 as int][texture_pushes(entity_models, model_dims)[p].1.1 as int],
    decreases entity_models.len(),
{
    let init = entity_models.drop_last();
    let prev = texture_pushes(init, model_dims);
    let all = texture_pushes(entity_models, model_dims);
    match entity_models.last() {
        Some(k) => {
            if k < model_dims.len() {
                let mp = model_pushes(k, model_dims[k as int]);
                assert(all == prev + mp);
                if p < prev.len() {
                    lemma_push_size(init, model_dims, p);
                    assert(all[p] == prev[p]);
                } else {
                    assert(all[p] == mp[p - prev.len()]);
                }
            } else {
                lemma_push_size(init, model_dims, p);
            }
        },
        None => {
            lemma_push_size(init, model_dims, p);
        },
    }
}

/// An entity that shows model `k` pushes texture `t` of it.
proof fn lemma_entity_texture_pushed(entity_models: Seq<Option<usize>>, model_dims: Seq<Seq<(u32, u32)>>, j: int, k: usize, t: int) -> (p: int)
    requires
        0 <= j < entity_models.len(),
        entity_models[j] == Some(k),
        (k as int) < model_dims.len(),
        0 <= t < model_dims[k as int].len(),
        t <= usize::MAX,
    ensures
        0 <= p < texture_pushes(entity_models, model_dims).len(),
        texture_pushes(entity_models, model_dims)[p] == (model_dims[k as int][t], (k, t as usize)),
    decreases entity_models.len(),
{
    let init = entity_models.drop_last();
    let prev = texture_pushes(init, model_dims);
    let all = texture_pushes(entity_models, model_dims);
    let last = entity_models.len() - 1;
    assert(entity_models.last() == entity_models[last]);
    if j < last {
        assert(init[j] == entity_models[j]);
        let p = lemma_entity_texture_pushed(init, model_dims, j, k, t);
        match entity_models.last() {
            Some(k2) => {
                if k2 < model_dims.len() {
                    assert(all == prev + model_pushes(k2, model_dims[k2 as int]));
                }
            },
            None => {},
        }
        assert(all[p] == prev[p]);
        p
    } else {
        let mp = model_pushes(k, model_dims[k as int]);
        assert(all == prev + mp);
        assert(all[prev.len() + t] == mp[t]);
        prev.len() + t
    }
}

/// The texture lookup finds every texture of every entity, in a layer
/// that holds that very texture, in an array of that texture's size,
/// when no two entities share a world index.
pub proof fn lemma_texture_lookup_finds_texture(
    buckets: Seq<((u32, u32), Seq<(usize, usize)>)>,
    entity_models: Seq<Option<usize>>,
    world_indices: Seq<usize>,
    model_dims: Seq<Seq<(u32, u32)>>,
    j: int,
    t: int,
)
    requires
        buckets_of(buckets, texture_pushes(entity_models, model_dims)),
        buckets.len() <= usize::MAX,
        forall|b: int| 0 <= b < buckets.len() ==> (#[trigger] buckets[b]).1.len() <= usize::MAX,
        world_indices.len() == entity_models.len(),
        0 <= j < entity_models.len(),
        entity_models[j] is Some,
        (entity_models[j]->0 as int) < model_dims.len(),
        0 <= t < model_dims[entity_models[j]->0 as int].len(),
        forall|k: int| 0 <= k < model_dims.len() ==> (#[trigger] model_dims[k]).len() <= usize::MAX,
        forall|i: int| 0 <= i < world_indices.len() && i != j ==> world_indices[i] != world_indices[j],
    ensures
        spec_lookup_get(spec_lookup_entries(buckets, entity_models, world_indices), (world_indices[j], t as usize))
            matches Some((b, l)) && {
                &&& (b as int) < buckets.len()
                &&& (l as int) < buckets[b as int].1.len()
                &&& buckets[b as int].1[l as int] == (entity_models[j]->0, t as usize)
                &&& buckets[b as int].0 == model_dims[entity_models[j]->0 as int][t]
            },
{
    let k = entity_models[j]->0;
    let pushes = texture_pushes(entity_models, model_dims);
    let nb = buckets.len();
    let slots = slots_of(buckets, nb);
    let entries = spec_lookup_entries(buckets, entity_models, world_indices);
    let key = (world_indices[j], t as usize);
    assert(model_dims[k as int].len() <= usize::MAX);
    // the texture was pushed, so the bucket of its size holds it
    let p = lemma_entity_texture_pushed(entity_models, model_dims, j, k, t);
    assert(has_bucket(buckets, pushes[p].0));
    let b = choose|b: int| 0 <= b < buckets.len() && (#[trigger] buckets[b]).0 == pushes[p].0;
    assert(buckets[b].1 == with_dims(pushes, buckets[b].0));
    let l = lemma_with_dims_complete(pushes, buckets[b].0, p);
    assert(buckets[b].1.len() <= usize::MAX);
    let q = lemma_slot_complete(buckets, nb, b, l);
    // so the entity has an entry for it, and the key has a value
    let e = lemma_entry_complete(slots, entity_models, world_indices, q, j);
    assert(entries[e].0 == key);
    lemma_lookup_get_present(entries, key, e);
    let e2 = lemma_lookup_get_sound(entries, key);
    let (q2, i2) = lemma_entry_sound(slots, entity_models, world_indices, e2);
    assert(world_indices[i2] == world_indices[j]);
    assert(i2 == j);
    lemma_slot_sound(buckets, nb, q2);
    let s2 = slots[q2];
    let b2 = s2.0 as int;
    let l2 = s2.1 as int;
    // the layer found holds texture `t` of model `k`, pushed with its size
    assert(buckets[b2].1 == with_dims(pushes, buckets[b2].0));
    let p2 = lemma_with_dims_sound(pushes, buckets[b2].0, l2);
    lemma_push_size(entity_models, model_dims, p2);
}

/// Why a texture array cannot be made.
#[derive(Clone, Copy, PartialEq, Eq, Structural, Debug)]
pub enum TextureArrayError {
    /// There is no texture.
    Empty,
    /// The textures are not all of the size of the first.
    MismatchedDimensions,
}

/// The shape of a texture array: the size of its layers, their number
/// (cut to 32 bits) and the length of its mip chain.
#[derive(Clone, Copy, PartialEq, Eq, Structural, Debug)]
pub struct TextureArrayLayout {
    pub width: u32,
    pub height: u32,
    pub layers: u32,
    pub mip_level_count: u32,
}

/// Checks the sizes of the textures of an array and gives its shape: the
/// textures must be there and all of one size.
pub fn texture_array_layout(dims: &Vec<(u32, u32)>) -> (res: Result<TextureArrayLayout, TextureArrayError>)
    ensures
        dims@.len() == 0 ==> res == Err::<TextureArrayLayout, TextureArrayError>(TextureArrayError::Empty),
        dims@.len() > 0 && (exists|i: int| 0 <= i < dims@.len() && #[trigger] dims@[i] != dims@[0])
            ==> res == Err::<TextureArrayLayout, TextureArrayError>(TextureArrayError::MismatchedDimensions),
        dims@.len() > 0 && (forall|i: int| 0 <= i < dims@.len() ==> #[trigger] dims@[i] == dims@[0]) ==> res == Ok::<TextureArrayLayout, TextureArrayError>(TextureArrayLayout {
            width: dims@[0].0,
            height: dims@[0].1,
            layers: dims@.len() as u32,
            mip_level_count: spec_mip_count(if dims@[0].0 >= dims@[0].1 { dims@[0].0 as nat } else { dims@[0].1 as nat }) as u32,
        }),
{
    if dims.len() == 0 {
        return Err(TextureArrayError::Empty);
    }
    let (width, height) = dims[0];
    let mut i: usize = 0;
    while i < dims.len()
        invariant
            dims@.len() > 0,
            (width, height) == dims@[0],
            i <= dims@.len(),
            forall|j: int| 0 <= j < i ==> #[trigger] dims@[j] == dims@[0],
        decreases dims@.len() - i,
    {
        if dims[i].0 != width || dims[i].1 != height {
            return Err(TextureArrayError::MismatchedDimensions);
        }
        i = i + 1;
    }
    let layers = #[verifier::truncate] (dims.len() as u32);
    let mip_level_count = calculate_mipmap_count(width, height);
    Ok(TextureArrayLayout { width, height, layers, mip_level_count })
}

/// Fits the model view projection matrices to the fixed number of slots
/// of the uniform buffer: those beyond it are dropped, missing ones are
/// `zero`.
pub fn fit_mvp_slots<T: Copy>(transformations: Vec<T>, max_mvp: usize, zero: T) -> (res: Vec<T>)
    ensures
        res@.len() == max_mvp,
        forall|i: int| 0 <= i < max_mvp ==> #[trigger] res@[i] == if i < transformations@.len() { transformations@[i] } else { zero },
{
    let mut res: Vec<T> = Vec::new();
    let mut i: usize = 0;
    while i < max_mvp
        invariant
            i <= max_mvp,
            res@.len() == i,
            forall|j: int| 0 <= j < i ==> #[trigger] res@[j] == if j < transformations@.len() { transformations@[j] } else { zero },
        decreases max_mvp - i,
    {
        if i < transformations.len() {
            res.push(transformations[i]);
        } else {
            res.push(zero);
        }
        i = i + 1;
    }
    res
}

} // verus!
