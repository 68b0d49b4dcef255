//! Migration steps: named, versioned changes of the settings document,
//! each with a forward and a backward transform.
use vstd::prelude::*;

use crate::document::{
    add_container_outcome, is_container_at, is_leaf_at, is_prefix, leaf_among,
    lemma_rename_back, path_view, rename_error_fits, rename_outcome, reports_leaf_on, well_shaped,
    without_subtree, NodeView, SettingsDocument, Tree,
};
use crate::error::{Direction, DocumentError};
use crate::text::copy_text;

verus! {

/// The paths a step introduces, as segment sequences.
pub open spec fn paths_view(ps: Seq<Vec<String>>) -> Seq<Seq<Seq<char>>> {
    ps.map_values(|p: Vec<String>| path_view(p@))
}

/// What a step changes between the version before it and its own.
pub enum ChangeView {
    /// New top-level prefixes, added as containers going forward and
    /// removed with everything beneath them going back.
    AddPrefixes(Seq<Seq<Seq<char>>>),
    /// A subtree moved from the first path to the second going forward,
    /// and back going back.
    Rename(Seq<Seq<char>>, Seq<Seq<char>>),
}

pub struct StepView {
    pub version: u32,
    pub change: ChangeView,
}

/// Adding each container of `ps` in turn; `None` once one of them meets a
/// leaf.
pub open spec fn add_all(m: Tree, ps: Seq<Seq<Seq<char>>>) -> Option<Tree>
    decreases ps.len(),
{
    if ps.len() == 0 {
        Some(m)
    } else {
        match add_all(m, ps.drop_last()) {
            Some(m1) => add_container_outcome(m1, ps.last()),
            None => None,
        }
    }
}

/// Removing each subtree of `ps` in turn.
pub open spec fn remove_all(m: Tree, ps: Seq<Seq<Seq<char>>>) -> Tree
    decreases ps.len(),
{
    if ps.len() == 0 {
        m
    } else {
        without_subtree(remove_all(m, ps.drop_last()), ps.last())
    }
}

/// What applying `step` in direction `dir` to `m` gives; `None` where the
/// step fails.
pub open spec fn step_outcome(step: StepView, dir: Direction, m: Tree) -> Option<Tree> {
    match step.change {
        ChangeView::AddPrefixes(ps) => match dir {
            Direction::Forward => add_all(m, ps),
            Direction::Backward => Some(remove_all(m, ps)),
        },
        ChangeView::Rename(from, to) => match dir {
            Direction::Forward => rename_outcome(m, from, to),
            Direction::Backward => rename_outcome(m, to, from),
        },
    }
}

/// Whether `e` truly describes why applying `step` in direction `dir` to
/// `m` fails: for an add-prefix step, a leaf found where one of its
/// prefixes needed a container; for a rename, why that rename cannot be
/// done.
pub open spec fn step_error_fits(step: StepView, dir: Direction, m: Tree, e: DocumentError) -> bool {
    match e {
        DocumentError::Tree(t) => match step.change {
            ChangeView::AddPrefixes(ps) => dir == Direction::Forward && exists|i: int|
                0 <= i < ps.len() && reports_leaf_on(m, #[trigger] ps[i], ps[i].len() as int, t),
            ChangeView::Rename(from, to) => match dir {
                Direction::Forward => rename_error_fits(m, from, to, t),
                Direction::Backward => rename_error_fits(m, to, from, t),
            },
        },
        DocumentError::Validation(_) => false,
    }
}

/// Applying `steps` in order: the final tree, or the index of the first
/// step that failed. No step after a failed one is applied.
pub open spec fn run_outcome(steps: Seq<StepView>, dir: Direction, m: Tree) -> Result<Tree, int>
    decreases steps.len(),
{
    if steps.len() == 0 {
        Ok(m)
    } else {
        match run_outcome(steps.drop_last(), dir, m) {
            Ok(m1) => match step_outcome(steps.last(), dir, m1) {
                Some(m2) => Ok(m2),
                None => Err(steps.len() - 1),
            },
            Err(i) => Err(i),
        }
    }
}

/// The direction of a run from `from` to `to`: forward unless `to` is
/// older.
pub open spec fn direction_of(from: u32, to: u32) -> Direction {
    if from <= to {
        Direction::Forward
    } else {
        Direction::Backward
    }
}

/// The steps with `from < version <= to`, in catalogue order.
pub open spec fn ascending(steps: Seq<StepView>, from: u32, to: u32) -> Seq<StepView>
    decreases steps.len(),
{
    if steps.len() == 0 {
        Seq::empty()
    } else {
        let rest = ascending(steps.drop_last(), from, to);
        let s = steps.last();
        if from < s.version && s.version <= to {
            rest.push(s)
        } else {
            rest
        }
    }
}

/// The steps with `to < version <= from`, in reverse catalogue order.
pub open spec fn descending(steps: Seq<StepView>, from: u32, to: u32) -> Seq<StepView>
    decreases steps.len(),
{
    if steps.len() == 0 {
        Seq::empty()
    } else {
        let rest = descending(steps.drop_last(), from, to);
        let s = steps.last();
        if to < s.version && s.version <= from {
            seq![s] + rest
        } else {
            rest
        }
    }
}

/// The steps a run from `from` to `to` applies, in the order it applies
/// them.
pub open spec fn selected(steps: Seq<StepView>, from: u32, to: u32) -> Seq<StepView> {
    if from < to {
        ascending(steps, from, to)
    } else if from > to {
        descending(steps, from, to)
    } else {
        Seq::empty()
    }
}

/// One change of the document's schema, identified by the version it
/// migrates to.
#[derive(Debug)]
pub struct MigrationStep {
    version: u32,
    description: String,
    change: Change,
}

#[derive(Debug)]
enum Change {
    AddPrefixes(Vec<Vec<String>>),
    Rename { from: Vec<String>, to: Vec<String> },
}

impl View for MigrationStep {
    type V = StepView;

    closed spec fn view(&self) -> StepView {
        StepView {
            version: self.version,
            change: match self.change {
                Change::AddPrefixes(ps) => ChangeView::AddPrefixes(paths_view(ps@)),
                Change::Rename { from, to } => ChangeView::Rename(path_view(from@), path_view(to@)),
            },
        }
    }
}

/// The version at which `settings.oci-defaults` was introduced.
pub const OCI_DEFAULTS_VERSION: u32 = 1;

/// The step that introduced `settings.oci-defaults`, the container of the
/// default OCI runtime settings (its capabilities and resource limits).
pub fn oci_defaults_step() -> (r: MigrationStep)
    ensures
        r@ == (StepView {
            version: OCI_DEFAULTS_VERSION,
            change: ChangeView::AddPrefixes(seq![seq!["settings"@, "oci-defaults"@]]),
        }),
{
    let path: Vec<String> = vec![String::from_str("settings"), String::from_str("oci-defaults")];
    let prefixes: Vec<Vec<String>> = vec![path];
    let ghost ps = prefixes@;
    let r = MigrationStep::add_prefixes(
        OCI_DEFAULTS_VERSION,
        String::from_str("add settings.oci-defaults for the default OCI runtime settings"),
        prefixes,
    );
    assert(paths_view(ps) =~= seq![seq!["settings"@, "oci-defaults"@]]) by {
        assert(path_view(ps[0]@) =~= seq!["settings"@, "oci-defaults"@]);
    }
    r
}

/// Adds (forward) or removes (backward) each of `prefixes` in turn.
fn apply_prefixes(prefixes: &Vec<Vec<String>>, doc: &mut SettingsDocument, dir: Direction) -> (r: Result<(), DocumentError>)
    requires
        old(doc).wf(),
    ensures
        final(doc).wf(),
        match step_outcome(StepView { version: 0, change: ChangeView::AddPrefixes(paths_view(prefixes@)) }, dir, old(doc)@) {
            Some(m) => r is Ok && final(doc)@ == m,
            None => r is Err,
        },
        r matches Err(e) ==> step_error_fits(
            StepView { version: 0, change: ChangeView::AddPrefixes(paths_view(prefixes@)) },
            dir,
            old(doc)@,
            e,
        ),
{
    let ghost ps = paths_view(prefixes@);
    let ghost m = doc@;
    let mut i: usize = 0;
    while i < prefixes.len()
        invariant
            doc.wf(),
            m == old(doc)@,
            ps == paths_view(prefixes@),
            i <= prefixes@.len(),
            match dir {
                Direction::Forward => add_all(m, ps.take(i as int)) == Some(doc@),
                Direction::Backward => remove_all(m, ps.take(i as int)) == doc@,
            },
            forall|q: Seq<Seq<char>>| is_leaf_at(doc@, q) ==> is_leaf_at(m, q),
        decreases prefixes@.len() - i,
    {
        assert(ps.take(i + 1).drop_last() == ps.take(i as int));
        assert(ps.take(i + 1).last() == path_view(prefixes@[i as int]@));
        let ghost before = doc@;
        match dir {
            Direction::Forward => {
                match doc.add_container(&prefixes[i]) {
                    Ok(()) => {},
                    Err(e) => {
                        proof {
                            assert(add_container_outcome(before, ps.take(i + 1).last()) is None);
                            lemma_add_all_fails(m, ps, i + 1);
                            assert(ps[i as int] == ps.take(i + 1).last());
                            assert(reports_leaf_on(m, ps[i as int], ps[i as int].len() as int, e));
                        }
                        return Err(DocumentError::Tree(e));
                    },
                }
            },
            Direction::Backward => {
                doc.remove(&prefixes[i]);
            },
        }
        assert forall|q: Seq<Seq<char>>| is_leaf_at(doc@, q) implies is_leaf_at(m, q) by {
            assert(is_leaf_at(before, q));
        }
        i = i + 1;
    }
    assert(ps.take(i as int) == ps);
    Ok(())
}

impl MigrationStep {
    /// A step that introduces the containers `prefixes` at `version`.
    pub fn add_prefixes(version: u32, description: String, prefixes: Vec<Vec<String>>) -> (r: MigrationStep)
        ensures
            r@ == (StepView { version, change: ChangeView::AddPrefixes(paths_view(prefixes@)) }),
            r.description_spec() == description@,
    {
        MigrationStep { version, description, change: Change::AddPrefixes(prefixes) }
    }

    /// A step that moves the subtree at `from` to `to` at `version`, and
    /// back when rolled back.
    pub fn rename(version: u32, description: String, from: Vec<String>, to: Vec<String>) -> (r: MigrationStep)
        ensures
            r@ == (StepView { version, change: ChangeView::Rename(path_view(from@), path_view(to@)) }),
            r.description_spec() == description@,
    {
        MigrationStep { version, description, change: Change::Rename { from, to } }
    }

    pub closed spec fn description_spec(&self) -> Seq<char> {
        self.description@
    }

    pub fn version(&self) -> (r: u32)
        ensures
            r == self@.version,
    {
        self.version
    }

    /// The human-readable account of the change.
    pub fn description(&self) -> (r: String)
        ensures
            r@ == self.description_spec(),
    {
        copy_text(&self.description)
    }

    /// Applies the step to `doc` in direction `dir`. On failure `doc` may
    /// hold part of the step's work; a run discards it.
    pub fn apply(&self, doc: &mut SettingsDocument, dir: Direction) -> (r: Result<(), DocumentError>)
        requires
            old(doc).wf(),
        ensures
            final(doc).wf(),
            match step_outcome(self@, dir, old(doc)@) {
                Some(m) => r is Ok && final(doc)@ == m,
                None => r is Err,
            },
            r matches Err(e) ==> step_error_fits(self@, dir, old(doc)@, e),
    {
        match &self.change {
            Change::AddPrefixes(prefixes) => apply_prefixes(prefixes, doc, dir),
            Change::Rename { from, to } => {
                let moved = match dir {
                    Direction::Forward => doc.rename(from, to),
                    Direction::Backward => doc.rename(to, from),
                };
                match moved {
                    Ok(()) => Ok(()),
                    Err(e) => Err(DocumentError::Tree(e)),
                }
            },
        }
    }

    /// Applies the step's forward transform.
    pub fn forward(&self, doc: &mut SettingsDocument) -> (r: Result<(), DocumentError>)
        requires
            old(doc).wf(),
        ensures
            final(doc).wf(),
            match step_outcome(self@, Direction::Forward, old(doc)@) {
                Some(m) => r is Ok && final(doc)@ == m,
                None => r is Err,
            },
            r matches Err(e) ==> step_error_fits(self@, Direction::Forward, old(doc)@, e),
    {
        self.apply(doc, Direction::Forward)
    }

    /// Applies the step's backward transform.
    pub fn backward(&self, doc: &mut SettingsDocument) -> (r: Result<(), DocumentError>)
        requires
            old(doc).wf(),
        ensures
            final(doc).wf(),
            match step_outcome(self@, Direction::Backward, old(doc)@) {
                Some(m) => r is Ok && final(doc)@ == m,
                None => r is Err,
            },
            r matches Err(e) ==> step_error_fits(self@, Direction::Backward, old(doc)@, e),
    {
        self.apply(doc, Direction::Backward)
    }
}

/// Once adding a prefix fails, adding the whole list fails.
proof fn lemma_add_all_fails(m: Tree, ps: Seq<Seq<Seq<char>>>, k: int)
    requires
        0 <= k <= ps.len(),
        add_all(m, ps.take(k)) is None,
    ensures
        add_all(m, ps) is None,
    decreases ps.len() - k,
{
    if k < ps.len() {
        assert(ps.take(k + 1).drop_last() == ps.take(k));
        lemma_add_all_fails(m, ps, k + 1);
    } else {
        assert(ps.take(k) == ps);
    }
}

proof fn lemma_add_present(m: Tree, p: Seq<Seq<char>>)
    requires
        well_shaped(m),
        is_container_at(m, p),
    ensures
        add_container_outcome(m, p) == Some(m),
{
    let w = choose|k: Seq<Seq<char>>| #[trigger] m.contains_key(k) && is_prefix(p, k);
    assert forall|k: int| 1 <= k <= p.len() implies !#[trigger] is_leaf_at(m, p.take(k)) by {
        if k < p.len() {
            assert(p.take(k) =~= w.take(k));
            assert(m.contains_key(w) && 0 < k < w.len());
        } else {
            assert(p.take(k) == p);
        }
    }
}

/// Going forward over a document that already holds each of the step's
/// prefixes as a container succeeds and changes nothing.
pub proof fn lemma_forward_keeps_present_prefixes(step: StepView, m: Tree)
    requires
        well_shaped(m),
        match step.change {
            ChangeView::AddPrefixes(ps) => forall|i: int| 0 <= i < ps.len() ==> is_container_at(m, #[trigger] ps[i]),
            ChangeView::Rename(_, _) => false,
        },
    ensures
        step_outcome(step, Direction::Forward, m) == Some(m),
{
    if let ChangeView::AddPrefixes(ps) = step.change {
        lemma_add_all_present(m, ps);
    }
}

proof fn lemma_add_all_present(m: Tree, ps: Seq<Seq<Seq<char>>>)
    requires
        well_shaped(m),
        forall|i: int| 0 <= i < ps.len() ==> is_container_at(m, #[trigger] ps[i]),
    ensures
        add_all(m, ps) == Some(m),
    decreases ps.len(),
{
    if ps.len() > 0 {
        lemma_add_all_present(m, ps.drop_last());
        assert(is_container_at(m, ps[ps.len() - 1]));
        lemma_add_present(m, ps.last());
    }
}

/// Every entry of `m` is a container that `ps` names.
spec fn only_named_containers(m: Tree, ps: Seq<Seq<Seq<char>>>) -> bool {
    forall|q: Seq<Seq<char>>|
        #[trigger] m.contains_key(q) ==> m[q] == NodeView::Container && exists|i: int| 0 <= i < ps.len() && ps[i] == q
}

proof fn lemma_add_all_on_empty(ps: Seq<Seq<Seq<char>>>)
    ensures
        add_all(Map::empty(), ps) is Some,
        only_named_containers(add_all(Map::empty(), ps)->Some_0, ps),
    decreases ps.len(),
{
    if ps.len() > 0 {
        let rest = ps.drop_last();
        let p = ps.last();
        lemma_add_all_on_empty(rest);
        let m = add_all(Map::empty(), rest)->Some_0;
        assert(!leaf_among(m, p, p.len() as int));
        let r = add_container_outcome(m, p)->Some_0;
        assert forall|q: Seq<Seq<char>>| #[trigger] r.contains_key(q)
            implies r[q] == NodeView::Container && exists|i: int| 0 <= i < ps.len() && ps[i] == q by {
            if m.contains_key(q) {
                let i = choose|i: int| 0 <= i < rest.len() && rest[i] == q;
                assert(ps[i] == q);
            } else {
                assert(ps[ps.len() - 1] == q);
            }
        }
    }
}

proof fn lemma_remove_all(m: Tree, ps: Seq<Seq<Seq<char>>>)
    ensures
        remove_all(m, ps) == Map::new(
            |q: Seq<Seq<char>>| m.contains_key(q) && forall|i: int| 0 <= i < ps.len() ==> !is_prefix(#[trigger] ps[i], q),
            |q: Seq<Seq<char>>| m[q],
        ),
    decreases ps.len(),
{
    if ps.len() > 0 {
        let rest = ps.drop_last();
        lemma_remove_all(m, rest);
        let r = remove_all(m, ps);
        let target = Map::new(
            |q: Seq<Seq<char>>| m.contains_key(q) && forall|i: int| 0 <= i < ps.len() ==> !is_prefix(#[trigger] ps[i], q),
            |q: Seq<Seq<char>>| m[q],
        );
        assert forall|q: Seq<Seq<char>>| r.contains_key(q) == target.contains_key(q) by {
            if r.contains_key(q) {
                assert forall|i: int| 0 <= i < ps.len() implies !is_prefix(#[trigger] ps[i], q) by {
                    if i < rest.len() {
                        assert(rest[i] == ps[i]);
                    }
                }
            }
            if target.contains_key(q) {
                assert forall|i: int| 0 <= i < rest.len() implies !is_prefix(#[trigger] rest[i], q) by {
                    assert(rest[i] == ps[i]);
                }
                assert(!is_prefix(ps[ps.len() - 1], q));
            }
        }
        assert(r =~= target);
    }
}

/// Going forward and then back over an empty document leaves it empty,
/// for every add-prefix step: going forward stores only the step's own
/// prefixes, and going back removes them with everything beneath.
pub proof fn lemma_forward_then_backward_on_empty(step: StepView)
    requires
        step.change is AddPrefixes,
    ensures
        step_outcome(step, Direction::Forward, Map::empty()) matches Some(m) && step_outcome(
            step,
            Direction::Backward,
            m,
        ) == Some(Map::<Seq<Seq<char>>, NodeView>::empty()),
{
    let ps = step.change->AddPrefixes_0;
    lemma_add_all_on_empty(ps);
    let m = add_all(Map::empty(), ps)->Some_0;
    lemma_remove_all(m, ps);
    let r = remove_all(m, ps);
    assert forall|q: Seq<Seq<char>>| !r.contains_key(q) by {
        if m.contains_key(q) {
            let i = choose|i: int| 0 <= i < ps.len() && ps[i] == q;
            assert(q.take(q.len() as int) == q);
            assert(is_prefix(ps[i], q));
        }
    }
    assert(r =~= Map::<Seq<Seq<char>>, NodeView>::empty());
}

/// A rename step applied forward and then backward restores the document.
pub proof fn lemma_rename_step_round_trip(step: StepView, m: Tree)
    requires
        well_shaped(m),
        step.change is Rename,
        step_outcome(step, Direction::Forward, m) is Some,
    ensures
        step_outcome(step, Direction::Backward, step_outcome(step, Direction::Forward, m)->Some_0) == Some(m),
{
    if let ChangeView::Rename(from, to) = step.change {
        lemma_rename_back(m, from, to);
    }
}

} // verus!
