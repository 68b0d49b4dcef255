//! The catalogue: every migration step, kept in increasing version order.
use vstd::prelude::*;

use crate::error::CatalogueError;
use crate::migration::{ascending, descending, selected, MigrationStep, StepView};

verus! {

pub open spec fn steps_view(s: Seq<MigrationStep>) -> Seq<StepView> {
    s.map_values(|m: MigrationStep| m@)
}

/// Versions strictly increase along `s`, so no two steps share one.
pub open spec fn strictly_increasing(s: Seq<StepView>) -> bool {
    forall|i: int, j: int| 0 <= i < j < s.len() ==> #[trigger] s[i].version < #[trigger] s[j].version
}

/// The registered steps in increasing version order.
#[derive(Debug)]
pub struct MigrationCatalogue {
    steps: Vec<MigrationStep>,
}

impl View for MigrationCatalogue {
    type V = Seq<StepView>;

    closed spec fn view(&self) -> Seq<StepView> {
        steps_view(self.steps@)
    }
}

impl MigrationCatalogue {
    pub open spec fn wf(&self) -> bool {
        strictly_increasing(self@)
    }

    /// The catalogue with no steps.
    pub fn new() -> (r: MigrationCatalogue)
        ensures
            r.wf(),
            r@ == Seq::<StepView>::empty(),
    {
        let r = MigrationCatalogue { steps: Vec::new() };
        assert(r@ =~= Seq::<StepView>::empty());
        r
    }

    /// The number of registered steps.
    pub fn len(&self) -> (r: usize)
        ensures
            r == self@.len(),
    {
        self.steps.len()
    }

    /// The step at `index` in version order.
    pub fn step(&self, index: usize) -> (r: &MigrationStep)
        requires
            index < self@.len(),
        ensures
            r@ == self@[index as int],
    {
        &self.steps[index]
    }

    /// Registers `step` in its place by version. A version that is already
    /// registered is refused, and the catalogue is left as it was.
    pub fn register(&mut self, step: MigrationStep) -> (r: Result<(), CatalogueError>)
        requires
            old(self).wf(),
        ensures
            final(self).wf(),
            match r {
                Ok(()) => {
                    &&& forall|i: int| 0 <= i < old(self)@.len() ==> old(self)@[i].version != step@.version
                    &&& exists|k: int| 0 <= k <= old(self)@.len() && final(self)@ == old(self)@.insert(k, step@)
                },
                Err(e) => {
                    &&& e == (CatalogueError::DuplicateVersion { version: step@.version })
                    &&& exists|i: int| 0 <= i < old(self)@.len() && old(self)@[i].version == step@.version
                    &&& final(self)@ == old(self)@
                },
            },
    {
        let v = step.version();
        let mut k: usize = 0;
        while k < self.steps.len() && self.steps[k].version() < v
            invariant
                self.wf(),
                self@ == old(self)@,
                k <= self@.len(),
                forall|i: int| 0 <= i < k ==> #[trigger] self@[i].version < v,
            decreases self@.len() - k,
        {
            k = k + 1;
        }
        if k < self.steps.len() && self.steps[k].version() == v {
            assert(old(self)@[k as int].version == step@.version);
            return Err(CatalogueError::DuplicateVersion { version: v });
        }
        let ghost before = self@;
        let ghost sv = step@;
        proof {
            assert forall|i: int| k <= i < before.len() implies v < #[trigger] before[i].version by {
                assert(before[k as int].version <= before[i].version);
            }
        }
        self.steps.insert(k, step);
        assert(self@ =~= before.insert(k as int, sv));
        assert forall|i: int| 0 <= i < before.len() implies before[i].version != v by {
            if i >= k {
                assert(v < before[i].version);
            }
        }
        Ok(())
    }

    /// The steps a run from `from` to `to` applies, in order: those with
    /// `from < version <= to` ascending for an upgrade, those with
    /// `to < version <= from` descending for a rollback, none where the two
    /// are equal.
    pub fn select(&self, from: u32, to: u32) -> (r: Vec<&MigrationStep>)
        ensures
            r@.map_values(|s: &MigrationStep| s@) == selected(self@, from, to),
    {
        let mut r: Vec<&MigrationStep> = Vec::new();
        if from == to {
            assert(r@.map_values(|s: &MigrationStep| s@) =~= Seq::<StepView>::empty());
            return r;
        }
        let ghost all = self@;
        let mut i: usize = 0;
        assert(r@.map_values(|s: &MigrationStep| s@) =~= Seq::<StepView>::empty());
        while i < self.steps.len()
            invariant
                from != to,
                all == self@,
                i <= self@.len(),
                r@.map_values(|s: &MigrationStep| s@) == if from < to {
                    ascending(all.take(i as int), from, to)
                } else {
                    descending(all.take(i as int), from, to)
                },
            decreases self@.len() - i,
        {
            let s = &self.steps[i];
            let v = s.version();
            let ghost prev = r@.map_values(|s: &MigrationStep| s@);
            assert(all.take(i + 1).drop_last() == all.take(i as int));
            assert(all.take(i + 1).last() == s@);
            if from < to {
                if from < v && v <= to {
                    r.push(s);
                    assert(r@.map_values(|s: &MigrationStep| s@) =~= prev.push(s@));
                }
            } else {
                if to < v && v <= from {
                    r.insert(0, s);
                    assert(r@.map_values(|s: &MigrationStep| s@) =~= seq![s@] + prev);
                }
            }
            i = i + 1;
        }
        assert(all.take(i as int) == all);
        r
    }
}

} // verus!
