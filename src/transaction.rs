use vstd::prelude::*;
use linked_hash_set::LinkedHashSet;
use crate::module::views;
use crate::path_set::{distinct, new_path_set, path_set_insert, path_set_to_vec, set_items};
use crate::update::{
    deepest_first, entry_steps, self_replace_only_last, sort_deepest_first, staged_plan, step_views,
    StagedEntry, Step, StepView,
};

verus! {

/// An update under way: its steps, how many of them are done, and what it
/// has changed so far (the paths it created, and the paths it moved into
/// the holding area, which keeps them under the same relative path).
#[derive(Debug)]
pub struct Transaction {
    pub steps: Vec<Step>,
    pub next: usize,
    pub created: LinkedHashSet<String>,
    pub moved: Vec<String>,
    pub failed: bool,
}

/// What undoes a failed update: the created paths to delete, children
/// before their folders, then the moved paths to bring back, deepest first.
#[derive(Debug)]
pub struct Rollback {
    pub remove: Vec<String>,
    pub restore: Vec<String>,
}

/// The path that a step creates, if it creates one.
pub open spec fn creates(s: StepView) -> Option<Seq<char>> {
    match s {
        StepView::CreateDir(r, fresh) => if fresh {
            Some(r)
        } else {
            None
        },
        StepView::Copy(r) => Some(r),
        _ => None,
    }
}

impl Transaction {
    pub open spec fn wf(&self) -> bool {
        let v = step_views(self.steps@);
        &&& self.next <= self.steps@.len()
        &&& self_replace_only_last(v)
        &&& distinct(set_items(self.created))
        &&& forall|x: Seq<char>|
            #[trigger] set_items(self.created).contains(x) <==> exists|k: int|
                0 <= k < self.next && creates(#[trigger] v[k]) == Some(x)
        &&& forall|m: int|
            0 <= m < self.moved@.len() ==> exists|k: int|
                0 <= k < self.next && v[k] == StepView::MoveAside(#[trigger] self.moved@[m]@)
    }

    /// Starts an update with the given steps.
    pub fn new(steps: Vec<Step>) -> (r: Transaction)
        requires
            self_replace_only_last(step_views(steps@)),
        ensures
            r.wf(),
            r.steps == steps,
            r.next == 0,
            !r.failed,
            set_items(r.created).len() == 0,
            r.moved@.len() == 0,
    {
        Transaction { steps, next: 0, created: new_path_set(), moved: Vec::new(), failed: false }
    }

    /// The step to perform now; none once the update failed or every step
    /// is done.  The executable is only replaced as the very last step.
    pub fn current(&self) -> (r: Option<&Step>)
        requires
            self.wf(),
        ensures
            match r {
                Some(s) => !self.failed && self.next < self.steps@.len() && *s
                    == self.steps@[self.next as int],
                None => self.failed || self.next == self.steps@.len(),
            },
            r matches Some(Step::SelfReplace { .. }) ==> self.next == self.steps@.len() - 1,
    {
        if self.failed || self.next >= self.steps.len() {
            return None;
        }
        let s = &self.steps[self.next];
        proof {
            if s is SelfReplace {
                assert(step_views(self.steps@)[self.next as int] is SelfReplace);
            }
        }
        Some(s)
    }

    /// Every step is done.
    pub fn is_committed(&self) -> (r: bool)
        ensures
            r == (!self.failed && self.next == self.steps@.len()),
    {
        !self.failed && self.next == self.steps.len()
    }

    /// The current step succeeded: its effect is recorded and the next
    /// step becomes current.
    pub fn complete_step(&mut self)
        requires
            old(self).wf(),
            !old(self).failed,
            old(self).next < old(self).steps@.len(),
        ensures
            final(self).wf(),
            final(self).steps == old(self).steps,
            final(self).next == old(self).next + 1,
            !final(self).failed,
            forall|x: Seq<char>|
                #[trigger] set_items(final(self).created).contains(x) <==> (set_items(
                    old(self).created,
                ).contains(x) || creates(old(self).steps@[old(self).next as int]@) == Some(x)),
            final(self).moved@ == (match old(self).steps@[old(self).next as int] {
                Step::MoveAside { rel } => old(self).moved@.push(rel),
                _ => old(self).moved@,
            }),
    {
        let ghost v = step_views(self.steps@);
        let ghost n = self.next as int;
        let ghost created0 = set_items(self.created);
        let ghost moved0 = self.moved@;
        let len = self.steps.len();
        let n0 = self.next;
        match &self.steps[self.next] {
            Step::CreateDir { rel, fresh } => {
                if *fresh {
                    path_set_insert(&mut self.created, rel.clone());
                }
            },
            Step::Copy { rel } => {
                path_set_insert(&mut self.created, rel.clone());
            },
            Step::MoveAside { rel } => {
                self.moved.push(rel.clone());
            },
            Step::SelfReplace { .. } => {},
        }
        assert(n0 < len);
        self.next = n0 + 1;
        proof {
            assert(v[n] == self.steps@[n]@);
            assert forall|x: Seq<char>|
                #[trigger] set_items(self.created).contains(x) <==> exists|k: int|
                    0 <= k < self.next && creates(#[trigger] v[k]) == Some(x) by {
                if set_items(self.created).contains(x) {
                    if creates(v[n]) == Some(x) {
                    } else {
                        assert(created0.contains(x));
                        let k = choose|k: int| 0 <= k < n && creates(#[trigger] v[k]) == Some(x);
                    }
                }
                if exists|k: int| 0 <= k < self.next && creates(#[trigger] v[k]) == Some(x) {
                    let k = choose|k: int| 0 <= k < self.next && creates(#[trigger] v[k]) == Some(x);
                    if k < n {
                        assert(created0.contains(x));
                    }
                }
            }
            assert forall|m: int| 0 <= m < self.moved@.len() implies exists|k: int|
                0 <= k < self.next && v[k] == StepView::MoveAside(#[trigger] self.moved@[m]@) by {
                if m < moved0.len() {
                    assert(self.moved@[m] == moved0[m]);
                    let k = choose|k: int| 0 <= k < n && v[k] == StepView::MoveAside(#[trigger] moved0[m]@);
                    assert(v[k] == StepView::MoveAside(self.moved@[m]@));
                } else {
                    assert(v[n] == StepView::MoveAside(self.moved@[m]@));
                }
            }
        }
    }

    /// The current step found nothing to move aside: the update goes on.
    pub fn skip_step(&mut self)
        requires
            old(self).wf(),
            !old(self).failed,
            old(self).next < old(self).steps@.len(),
            old(self).steps@[old(self).next as int] is MoveAside,
        ensures
            final(self).wf(),
            final(self).steps == old(self).steps,
            final(self).next == old(self).next + 1,
            !final(self).failed,
            set_items(final(self).created) == set_items(old(self).created),
            final(self).moved == old(self).moved,
    {
        let ghost v = step_views(self.steps@);
        let ghost n = self.next as int;
        let len = self.steps.len();
        assert(self.next < len);
        self.next = self.next + 1;
        proof {
            assert(v[n] is MoveAside);
            assert forall|x: Seq<char>|
                #[trigger] set_items(self.created).contains(x) <==> exists|k: int|
                    0 <= k < self.next && creates(#[trigger] v[k]) == Some(x) by {
                if exists|k: int| 0 <= k < self.next && creates(#[trigger] v[k]) == Some(x) {
                    let k = choose|k: int| 0 <= k < self.next && creates(#[trigger] v[k]) == Some(x);
                    assert(k < n);
                }
            }
            assert forall|m: int| 0 <= m < self.moved@.len() implies exists|k: int|
                0 <= k < self.next && v[k] == StepView::MoveAside(#[trigger] self.moved@[m]@) by {
                assert(old(self).moved@[m] == self.moved@[m]);
                let k = choose|k: int|
                    0 <= k < n && v[k] == StepView::MoveAside(#[trigger] old(self).moved@[m]@);
            }
        }
    }

    /// The current step failed for good.  The update stops; unless the
    /// failed step was the replacement of the executable, which comes after
    /// everything else is in place, all it changed is to be undone.
    pub fn fail_step(&mut self) -> (r: Rollback)
        requires
            old(self).wf(),
            !old(self).failed,
            old(self).next < old(self).steps@.len(),
        ensures
            final(self).wf(),
            final(self).failed,
            final(self).steps == old(self).steps,
            final(self).next == old(self).next,
            set_items(final(self).created) == set_items(old(self).created),
            final(self).moved == old(self).moved,
            old(self).steps@[old(self).next as int] is SelfReplace ==> r.remove@.len() == 0
                && r.restore@.len() == 0,
            !(old(self).steps@[old(self).next as int] is SelfReplace) ==> {
                &&& forall|x: Seq<char>|
                    #[trigger] views(r.remove@).contains(x) <==> set_items(old(self).created).contains(x)
                &&& forall|x: Seq<char>|
                    #[trigger] views(r.restore@).contains(x) <==> views(old(self).moved@).contains(x)
                &&& deepest_first(views(r.remove@))
                &&& deepest_first(views(r.restore@))
                &&& crate::update::no_dups(views(r.remove@))
            },
    {
        let is_self = match &self.steps[self.next] {
            Step::SelfReplace { .. } => true,
            _ => false,
        };
        self.failed = true;
        if is_self {
            return Rollback { remove: Vec::new(), restore: Vec::new() };
        }
        let created = path_set_to_vec(&self.created);
        let remove = sort_deepest_first(&created);
        let restore = sort_deepest_first(&self.moved);
        Rollback { remove, restore }
    }
}

/// The tree after a rollback: every created path deleted, then every moved
/// path brought back from the holding area.
pub open spec fn rolled_back<C>(
    tree: Map<Seq<char>, C>,
    held: Map<Seq<char>, C>,
    created: Set<Seq<char>>,
    moved: Set<Seq<char>>,
) -> Map<Seq<char>, C> {
    Map::new(
        |x: Seq<char>|
            moved.contains(x) || (tree.contains_key(x) && !created.contains(x)),
        |x: Seq<char>|
            if moved.contains(x) {
                held[x]
            } else {
                tree[x]
            },
    )
}

/// Undoing an interrupted update gives back the tree it started from
/// (paths and contents), provided that the update only created paths that
/// were absent or that it had moved aside, kept in the holding area what it
/// moved, and left every other path alone.
pub proof fn lemma_rollback_restores_tree<C>(
    before: Map<Seq<char>, C>,
    tree: Map<Seq<char>, C>,
    held: Map<Seq<char>, C>,
    created: Set<Seq<char>>,
    moved: Set<Seq<char>>,
)
    requires
        forall|x: Seq<char>| #[trigger] moved.contains(x) ==> before.contains_key(x)
            && held.contains_key(x) && held[x] == before[x],
        forall|x: Seq<char>|
            #[trigger] created.contains(x) ==> !before.contains_key(x) || moved.contains(x),
        forall|x: Seq<char>|
            #[trigger] tree.contains_key(x) <==> (created.contains(x) || (before.contains_key(x)
                && !moved.contains(x))),
        forall|x: Seq<char>|
            before.contains_key(x) && !moved.contains(x) && !created.contains(x) ==> #[trigger] tree[x]
                == before[x],
    ensures
        rolled_back(tree, held, created, moved) == before,
{
    let r = rolled_back(tree, held, created, moved);
    assert forall|x: Seq<char>| #[trigger] r.contains_key(x) <==> before.contains_key(x) by {
        if before.contains_key(x) && !moved.contains(x) {
            assert(!created.contains(x));
        }
    }
    assert forall|x: Seq<char>| r.contains_key(x) implies #[trigger] r[x] == before[x] by {
        if !moved.contains(x) {
            assert(!created.contains(x));
        }
    }
    assert(r =~= before);
}

/// Every step of the plan that creates a path creates it where the tree had
/// nothing (by the staged entry's account), or right after the step that
/// moved the old entry aside.
pub proof fn lemma_plan_creates_over_absent(staged: Seq<StagedEntry>, exe: Option<Seq<char>>, i: int)
    requires
        0 <= i < staged_plan(staged, exe).len(),
        creates(staged_plan(staged, exe)[i]) is Some,
    ensures
        ({
            let steps = staged_plan(staged, exe);
            let r = creates(steps[i])->0;
            (exists|k: int| 0 <= k < staged.len() && staged[k].rel@ == r && !staged[k].dst_exists)
                || (i > 0 && steps[i - 1] == StepView::MoveAside(r))
        }),
    decreases staged.len(),
{
    let steps = staged_plan(staged, exe);
    let a = staged_plan(staged.drop_last(), exe);
    let e = staged.last();
    let b = entry_steps(e, exe);
    assert(steps == a + b);
    let n = staged.len() - 1;
    assert(staged[n] == e);
    if i < a.len() {
        assert(steps[i] == a[i]);
        lemma_plan_creates_over_absent(staged.drop_last(), exe, i);
        let r = creates(a[i])->0;
        if exists|k: int|
            0 <= k < staged.drop_last().len() && staged.drop_last()[k].rel@ == r
                && !staged.drop_last()[k].dst_exists {
            let k = choose|k: int|
                0 <= k < staged.drop_last().len() && staged.drop_last()[k].rel@ == r
                    && !staged.drop_last()[k].dst_exists;
            assert(staged[k] == staged.drop_last()[k]);
        } else {
            assert(steps[i - 1] == a[i - 1]);
        }
    } else {
        let j = i - a.len();
        assert(steps[i] == b[j]);
        if j == 1 {
            assert(steps[i - 1] == b[0]);
        }
    }
}

} // verus!
