//! The migration engine: applies the catalogue's steps between two versions
//! to a working copy of a document.
use vstd::prelude::*;

use crate::catalogue::MigrationCatalogue;
use crate::document::{SettingsDocument, Tree};
use crate::error::{Direction, MigrationError};
use crate::migration::{
    direction_of, run_outcome, selected, step_error_fits, step_outcome, MigrationStep, StepView,
};

verus! {

/// Once a prefix of the steps has failed, so has every longer prefix, at
/// the same step.
proof fn lemma_failure_sticks(steps: Seq<StepView>, dir: Direction, m: Tree, n: int, i: int)
    requires
        0 <= n <= steps.len(),
        run_outcome(steps.take(n), dir, m) == Err::<Tree, int>(i),
    ensures
        run_outcome(steps, dir, m) == Err::<Tree, int>(i),
    decreases steps.len() - n,
{
    if n < steps.len() {
        assert(steps.take(n + 1).drop_last() == steps.take(n));
        lemma_failure_sticks(steps, dir, m, n + 1, i);
    } else {
        assert(steps.take(n) == steps);
    }
}

/// Runs migrations over a fixed catalogue. Between runs it holds no state
/// of a document: each run works on its own copy and either hands back the
/// migrated copy or reports the first step that failed.
pub struct MigrationEngine {
    catalogue: MigrationCatalogue,
}

impl MigrationEngine {
    pub closed spec fn catalogue_spec(&self) -> Seq<StepView> {
        self.catalogue@
    }

    pub fn new(catalogue: MigrationCatalogue) -> (r: MigrationEngine)
        ensures
            r.catalogue_spec() == catalogue@,
    {
        MigrationEngine { catalogue }
    }

    /// The catalogue the engine runs over.
    pub fn catalogue(&self) -> (r: &MigrationCatalogue)
        ensures
            r@ == self.catalogue_spec(),
    {
        &self.catalogue
    }

    /// Migrates `doc` from version `from` to version `to`. The direction is
    /// fixed once, forward unless `to` is older; the selected steps are then
    /// applied one at a time to a copy of `doc`. The first failure ends the
    /// run; the error names the failed step and carries the error it
    /// returned, and no later step is applied. `doc` itself is never
    /// changed.
    pub fn run(&self, doc: &SettingsDocument, from: u32, to: u32) -> (r: Result<SettingsDocument, MigrationError>)
        requires
            doc.wf(),
        ensures
            match run_outcome(selected(self.catalogue_spec(), from, to), direction_of(from, to), doc@) {
                Ok(m) => r matches Ok(d) && d.wf() && d@ == m,
                Err(i) => r matches Err(e) && {
                    &&& 0 <= i < selected(self.catalogue_spec(), from, to).len()
                    &&& e.version == selected(self.catalogue_spec(), from, to)[i].version
                    &&& e.direction == direction_of(from, to)
                    &&& run_outcome(selected(self.catalogue_spec(), from, to).take(i), direction_of(from, to), doc@) is Ok
                    &&& step_error_fits(
                        selected(self.catalogue_spec(), from, to)[i],
                        direction_of(from, to),
                        run_outcome(selected(self.catalogue_spec(), from, to).take(i), direction_of(from, to), doc@)->Ok_0,
                        e.cause,
                    )
                },
            },
    {
        let steps: Vec<&MigrationStep> = self.catalogue.select(from, to);
        let ghost sel = selected(self.catalogue@, from, to);
        let dir = if from <= to { Direction::Forward } else { Direction::Backward };
        let mut work = doc.duplicate();
        let mut i: usize = 0;
        assert(sel.take(0) =~= Seq::<StepView>::empty());
        while i < steps.len()
            invariant
                sel == steps@.map_values(|s: &MigrationStep| s@),
                sel == selected(self.catalogue@, from, to),
                dir == direction_of(from, to),
                work.wf(),
                i <= steps@.len(),
                run_outcome(sel.take(i as int), dir, doc@) == Ok::<Tree, int>(work@),
            decreases steps@.len() - i,
        {
            let step = steps[i];
            let ghost before = work@;
            assert(sel.take(i + 1).drop_last() == sel.take(i as int));
            assert(sel.take(i + 1).last() == step@);
            match step.apply(&mut work, dir) {
                Ok(()) => {},
                Err(cause) => {
                    proof {
                        assert(step_outcome(step@, dir, before) is None);
                        assert(run_outcome(sel.take(i + 1), dir, doc@) == Err::<Tree, int>(i as int));
                        assert(sel[i as int] == step@);
                        lemma_failure_sticks(sel, dir, doc@, i + 1, i as int);
                    }
                    return Err(MigrationError { version: step.version(), direction: dir, cause });
                },
            }
            i = i + 1;
        }
        assert(sel.take(i as int) == sel);
        Ok(work)
    }
}

/// A run stops at the first step that fails: with three steps where the
/// first succeeds and the second fails, the run reports the second, what
/// the first did is not part of the outcome, and the third is never
/// applied, whatever it would do.
pub proof fn lemma_abort_on_failure(a: StepView, b: StepView, c: StepView, dir: Direction, m: Tree)
    requires
        step_outcome(a, dir, m) is Some,
        step_outcome(b, dir, step_outcome(a, dir, m)->Some_0) is None,
    ensures
        run_outcome(seq![a, b, c], dir, m) == Err::<Tree, int>(1),
{
    let s = seq![a, b, c];
    assert(s.drop_last() == seq![a, b]);
    assert(seq![a, b].drop_last() == seq![a]);
    assert(seq![a].drop_last() == Seq::<StepView>::empty());
    assert(run_outcome(Seq::<StepView>::empty(), dir, m) == Ok::<Tree, int>(m));
    assert(run_outcome(seq![a], dir, m) == Ok::<Tree, int>(step_outcome(a, dir, m)->Some_0));
    assert(run_outcome(seq![a, b], dir, m) == Err::<Tree, int>(1));
}

} // verus!
