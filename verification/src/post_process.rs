//! Post processing: the chain of screen effects, each switched on or off,
//! and the plan of passes that runs the enabled ones one after the other
//! through two intermediate textures.

use vstd::prelude::*;

verus! {

/// The screen effects.
#[derive(Clone, Copy, PartialEq, Eq, Structural, Debug)]
pub enum PostEffectKind {
    Kuwahara,
    Bloom,
    ChromaticAberration,
    GrayScale,
    Posterize,
}

/// The effects in the order in which they run, each with whether it is
/// enabled.
pub struct PostEffects {
    pub effects: Vec<(bool, PostEffectKind)>,
}

/// A texture that a pass reads or writes.
#[derive(Clone, Copy, PartialEq, Eq, Structural, Debug)]
pub enum PassTexture {
    /// The main render.
    Input,
    /// The composite that is shown.
    Output,
    /// One of the two intermediate textures.
    Intermediate(usize),
}

/// One pass: effect `effect_index` reads `source` and writes `target`.
#[derive(Clone, Copy, PartialEq, Eq, Structural, Debug)]
pub struct PostPass {
    pub effect_index: usize,
    pub source: PassTexture,
    pub target: PassTexture,
}

/// How a frame is post processed: copied through when no effect is
/// enabled, otherwise the passes in order.
pub struct PostPlan {
    pub copy_through: bool,
    pub passes: Vec<PostPass>,
}

/// The positions of the enabled effects, in order.
pub open spec fn enabled_positions(effects: Seq<(bool, PostEffectKind)>) -> Seq<usize>
    decreases effects.len(),
{
    if effects.len() == 0 {
        Seq::empty()
    } else {
        let prev = enabled_positions(effects.drop_last());
        if effects.last().0 {
            prev.push((effects.len() - 1) as usize)
        } else {
            prev
        }
    }
}

/// What pass `i` of `m` reads: the main render first, then the texture
/// that the pass before wrote.
pub open spec fn pass_source(i: int) -> PassTexture {
    if i == 0 { PassTexture::Input } else { PassTexture::Intermediate(((i - 1) % 2) as usize) }
}

/// What pass `i` of `m` writes: the composite for the last pass, the
/// intermediate textures in turn before it.
pub open spec fn pass_target(i: int, m: int) -> PassTexture {
    if i == m - 1 { PassTexture::Output } else { PassTexture::Intermediate((i % 2) as usize) }
}

impl PostEffects {
    /// No effect.
    pub fn new() -> (res: Self)
        ensures
            res.effects@.len() == 0,
    {
        PostEffects { effects: Vec::new() }
    }

    /// Adds an effect at the end of the chain; effects start disabled.
    pub fn add_effect(&mut self, kind: PostEffectKind)
        ensures
            final(self).effects@ == old(self).effects@.push((false, kind)),
    {
        self.effects.push((false, kind));
    }

    /// The chain of the renderer: Kuwahara, bloom, chromatic aberration,
    /// gray scale and posterize, all disabled.
    pub fn standard() -> (res: Self)
        ensures
            res.effects@ == seq![
                (false, PostEffectKind::Kuwahara),
                (false, PostEffectKind::Bloom),
                (false, PostEffectKind::ChromaticAberration),
                (false, PostEffectKind::GrayScale),
                (false, PostEffectKind::Posterize),
            ],
    {
        let mut res = PostEffects::new();
        res.add_effect(PostEffectKind::Kuwahara);
        res.add_effect(PostEffectKind::Bloom);
        res.add_effect(PostEffectKind::ChromaticAberration);
        res.add_effect(PostEffectKind::GrayScale);
        res.add_effect(PostEffectKind::Posterize);
        proof {
            assert(res.effects@ =~= seq![
                (false, PostEffectKind::Kuwahara),
                (false, PostEffectKind::Bloom),
                (false, PostEffectKind::ChromaticAberration),
                (false, PostEffectKind::GrayScale),
                (false, PostEffectKind::Posterize),
            ]);
        }
        res
    }

    /// The position of the switch of the first effect of a kind.
    pub fn toggle_index(&self, kind: PostEffectKind) -> (res: Option<usize>)
        ensures
            match res {
                Some(i) => i < self.effects@.len() && self.effects@[i as int].1 == kind
                    && forall|j: int| 0 <= j < i ==> (#[trigger] self.effects@[j]).1 != kind,
                None => forall|j: int| 0 <= j < self.effects@.len() ==> (#[trigger] self.effects@[j]).1 != kind,
            },
    {
        let mut i: usize = 0;
        while i < self.effects.len()
            invariant
                i <= self.effects@.len(),
                forall|j: int| 0 <= j < i ==> (#[trigger] self.effects@[j]).1 != kind,
            decreases self.effects@.len() - i,
        {
            if self.effects[i].1 == kind {
                return Some(i);
            }
            i = i + 1;
        }
        None
    }

    /// Switches the first effect of a kind on or off; says whether there
    /// is one.
    pub fn set_enabled(&mut self, kind: PostEffectKind, enabled: bool) -> (res: bool)
        ensures
            match res {
                true => exists|i: int| 0 <= i < old(self).effects@.len() && {
                    &&& old(self).effects@[i].1 == kind
                    &&& forall|j: int| 0 <= j < i ==> (#[trigger] old(self).effects@[j]).1 != kind
                    &&& final(self).effects@ == old(self).effects@.update(i, (enabled, kind))
                },
                false => {
                    &&& forall|j: int| 0 <= j < old(self).effects@.len() ==> (#[trigger] old(self).effects@[j]).1 != kind
                    &&& final(self).effects@ == old(self).effects@
                },
            },
    {
        match self.toggle_index(kind) {
            Some(i) => {
                self.effects.set(i, (enabled, kind));
                proof {
                    assert(final(self).effects@ == old(self).effects@.update(i as int, (enabled, kind)));
                }
                true
            },
            None => false,
        }
    }

    /// The number of enabled effects.
    pub fn enabled_count(&self) -> (res: usize)
        ensures
            res == enabled_positions(self.effects@).len(),
    {
        let mut count: usize = 0;
        let mut i: usize = 0;
        proof {
            assert(self.effects@.take(0) =~= Seq::<(bool, PostEffectKind)>::empty());
        }
        while i < self.effects.len()
            invariant
                i <= self.effects@.len(),
                count == enabled_positions(self.effects@.take(i as int)).len(),
                count <= i,
            decreases self.effects@.len() - i,
        {
            proof {
                assert(self.effects@.take(i + 1).drop_last() =~= self.effects@.take(i as int));
                assert(self.effects@.take(i + 1).last() == self.effects@[i as int]);
            }
            if self.effects[i].0 {
                count = count + 1;
            }
            i = i + 1;
        }
        proof {
            assert(self.effects@.take(self.effects@.len() as int) =~= self.effects@);
        }
        count
    }

    /// The passes that run the enabled effects in order: the first reads
    /// the main render, each later one reads what the one before wrote,
    /// the last writes the composite, and the intermediate textures take
    /// turns in between. With no effect enabled the render is copied
    /// through.
    pub fn plan(&self) -> (res: PostPlan)
        ensures
            res.copy_through == (enabled_positions(self.effects@).len() == 0),
            res.passes@.len() == enabled_positions(self.effects@).len(),
            forall|i: int| 0 <= i < res.passes@.len() ==> #[trigger] res.passes@[i] == (PostPass {
                effect_index: enabled_positions(self.effects@)[i],
                source: pass_source(i),
                target: pass_target(i, res.passes@.len() as int),
            }),
    {
        let m = self.enabled_count();
        let ghost positions = enabled_positions(self.effects@);
        let mut passes: Vec<PostPass> = Vec::new();
        let mut i: usize = 0;
        proof {
            assert(self.effects@.take(0) =~= Seq::<(bool, PostEffectKind)>::empty());
        }
        while i < self.effects.len()
            invariant
                m == positions.len(),
                positions == enabled_positions(self.effects@),
                i <= self.effects@.len(),
                passes@.len() == enabled_positions(self.effects@.take(i as int)).len(),
                passes@.len() <= i,
                enabled_positions(self.effects@.take(i as int)).len() <= m,
                forall|k: int| 0 <= k < passes@.len() ==> #[trigger] passes@[k] == (PostPass {
                    effect_index: enabled_positions(self.effects@.take(i as int))[k],
                    source: pass_source(k),
                    target: pass_target(k, m as int),
                }),
            decreases self.effects@.len() - i,
        {
            proof {
                assert(self.effects@.take(i + 1).drop_last() =~= self.effects@.take(i as int));
                assert(self.effects@.take(i + 1).last() == self.effects@[i as int]);
                lemma_enabled_prefix(self.effects@, i + 1);
            }
            if self.effects[i].0 {
                let k = passes.len();
                let source = if k == 0 { PassTexture::Input } else { PassTexture::Intermediate((k - 1) % 2) };
                let target = if k == m - 1 { PassTexture::Output } else { PassTexture::Intermediate(k % 2) };
                passes.push(PostPass { effect_index: i, source, target });
            }
            i = i + 1;
        }
        proof {
            assert(self.effects@.take(self.effects@.len() as int) =~= self.effects@);
        }
        PostPlan { copy_through: m == 0, passes }
    }
}

/// A prefix of the effects has no more enabled ones than all of them.
proof fn lemma_enabled_prefix(effects: Seq<(bool, PostEffectKind)>, k: int)
    requires
        0 <= k <= effects.len(),
    ensures
        enabled_positions(effects.take(k)).len() <= enabled_positions(effects).len(),
    decreases effects.len(),
{
    if k < effects.len() {
        lemma_enabled_prefix(effects.drop_last(), k);
        assert(effects.drop_last().take(k) =~= effects.take(k));
    } else {
        assert(effects.take(k) =~= effects);
    }
}

/// The passes form one chain from the main render to the composite: each
/// pass reads what the one before wrote, and no pass reads the texture it
/// writes.
pub proof fn lemma_plan_chains(m: int, i: int)
    requires
        0 <= i < m,
    ensures
        i == 0 ==> pass_source(i) == PassTexture::Input,
        i > 0 ==> pass_source(i) == pass_target(i - 1, m),
        i == m - 1 ==> pass_target(i, m) == PassTexture::Output,
        pass_source(i) != pass_target(i, m),
{
}

} // verus!
