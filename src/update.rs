use vstd::prelude::*;
use crate::module::views;
use crate::path::{depth, is_ancestor, is_ancestor_of, path_depth};
use crate::text::{chars_of, str_eq};

verus! {

/// One entry of the extracted release, relative to its root, with what the
/// destination holds at the same place.
#[derive(Debug, Clone)]
pub struct StagedEntry {
    pub rel: String,
    pub is_dir: bool,
    pub dst_exists: bool,
    pub same_content: bool,
}

/// One operation of an update, on a path relative to the destination.
#[derive(Debug, Clone)]
pub enum Step {
    /// Make sure the folder exists; `fresh` when it did not before.
    CreateDir { rel: String, fresh: bool },
    /// Move the destination entry into the holding area, to restore it on
    /// failure.
    MoveAside { rel: String },
    /// Copy the staged file to the destination.
    Copy { rel: String },
    /// Replace the running executable with the staged file.
    SelfReplace { rel: String },
}

/// A step with its path as characters.
pub enum StepView {
    CreateDir(Seq<char>, bool),
    MoveAside(Seq<char>),
    Copy(Seq<char>),
    SelfReplace(Seq<char>),
}

impl View for Step {
    type V = StepView;

    open spec fn view(&self) -> StepView {
        match self {
            Step::CreateDir { rel, fresh } => StepView::CreateDir(rel@, *fresh),
            Step::MoveAside { rel } => StepView::MoveAside(rel@),
            Step::Copy { rel } => StepView::Copy(rel@),
            Step::SelfReplace { rel } => StepView::SelfReplace(rel@),
        }
    }
}

/// The steps as seen by contracts.
pub open spec fn step_views(s: Seq<Step>) -> Seq<StepView> {
    s.map_values(|x: Step| x@)
}

/// What the update does for one staged entry.
pub open spec fn entry_steps(e: StagedEntry, exe: Option<Seq<char>>) -> Seq<StepView> {
    if e.is_dir {
        seq![StepView::CreateDir(e.rel@, !e.dst_exists)]
    } else if exe == Some(e.rel@) {
        Seq::<StepView>::empty()
    } else if e.dst_exists && e.same_content {
        Seq::<StepView>::empty()
    } else if e.dst_exists {
        seq![StepView::MoveAside(e.rel@), StepView::Copy(e.rel@)]
    } else {
        seq![StepView::Copy(e.rel@)]
    }
}

/// The steps for the staged entries, in their order.
pub open spec fn staged_plan(staged: Seq<StagedEntry>, exe: Option<Seq<char>>) -> Seq<StepView>
    decreases staged.len(),
{
    if staged.len() == 0 {
        Seq::<StepView>::empty()
    } else {
        staged_plan(staged.drop_last(), exe) + entry_steps(staged.last(), exe)
    }
}

pub open spec fn staged_rel(staged: Seq<StagedEntry>, x: Seq<char>) -> bool {
    exists|i: int| 0 <= i < staged.len() && (#[trigger] staged[i]).rel@ == x
}

/// The running executable is among the staged files.
pub open spec fn exe_staged(staged: Seq<StagedEntry>, exe: Option<Seq<char>>) -> bool {
    exe is Some && exists|i: int|
        0 <= i < staged.len() && !(#[trigger] staged[i]).is_dir && staged[i].rel@ == exe->0
}

pub open spec fn self_step(staged: Seq<StagedEntry>, exe: Option<Seq<char>>) -> Seq<StepView> {
    if exe_staged(staged, exe) {
        seq![StepView::SelfReplace(exe->0)]
    } else {
        Seq::<StepView>::empty()
    }
}

/// A path of the old tree that the release does not have.
pub open spec fn stale(prev: Seq<Seq<char>>, staged: Seq<StagedEntry>, x: Seq<char>) -> bool {
    prev.contains(x) && !staged_rel(staged, x)
}

/// A stale path that no stale folder holds: removing it removes what is
/// under it.
pub open spec fn leftover(prev: Seq<Seq<char>>, staged: Seq<StagedEntry>, x: Seq<char>) -> bool {
    stale(prev, staged, x) && !exists|y: Seq<char>| stale(prev, staged, y) && is_ancestor(y, x)
}

/// Under the folder of installed modules, which an incremental update keeps.
pub open spec fn protected(x: Seq<char>) -> bool {
    x == "Module"@ || (x.len() > 7 && x.subrange(0, 7) == "Module/"@)
}

pub open spec fn to_remove(
    prev: Seq<Seq<char>>,
    staged: Seq<StagedEntry>,
    clean_modules: bool,
    x: Seq<char>,
) -> bool {
    leftover(prev, staged, x) && (clean_modules || !protected(x))
}

/// Deeper paths come first.
pub open spec fn deepest_first(s: Seq<Seq<char>>) -> bool {
    forall|i: int, j: int| 0 <= i < j < s.len() ==> depth(#[trigger] s[i]) >= depth(#[trigger] s[j])
}

pub open spec fn no_dups(s: Seq<Seq<char>>) -> bool {
    forall|i: int, j: int| 0 <= i < j < s.len() ==> s[i] != s[j]
}

/// What a move-aside step acts on.
pub open spec fn moved_rel(s: StepView) -> Seq<char> {
    match s {
        StepView::MoveAside(r) => r,
        _ => Seq::<char>::empty(),
    }
}

/// The plan of an update: the steps for the staged entries in their order;
/// then the leftovers moved aside, each once, deepest first; then, when the
/// running executable is among the staged files, its replacement.
pub open spec fn is_update_plan(
    steps: Seq<StepView>,
    prev: Seq<Seq<char>>,
    staged: Seq<StagedEntry>,
    exe: Option<Seq<char>>,
    clean_modules: bool,
) -> bool {
    let a = staged_plan(staged, exe);
    let c = self_step(staged, exe);
    let lo = a.len() as int;
    let hi = steps.len() - c.len();
    &&& lo <= hi
    &&& steps.subrange(0, lo) == a
    &&& steps.subrange(hi, steps.len() as int) == c
    &&& forall|i: int| lo <= i < hi ==> (#[trigger] steps[i]) is MoveAside
    &&& forall|i: int|
        lo <= i < hi ==> to_remove(prev, staged, clean_modules, moved_rel(#[trigger] steps[i]))
    &&& forall|x: Seq<char>|
        to_remove(prev, staged, clean_modules, x) ==> exists|i: int|
            lo <= i < hi && moved_rel(#[trigger] steps[i]) == x
    &&& deepest_first(steps.subrange(lo, hi).map_values(|s: StepView| moved_rel(s)))
    &&& no_dups(steps.subrange(lo, hi).map_values(|s: StepView| moved_rel(s)))
}

pub proof fn lemma_push_contains(s: Seq<Seq<char>>, v: Seq<char>, x: Seq<char>)
    ensures
        s.push(v).contains(x) <==> (s.contains(x) || x == v),
{
    if s.push(v).contains(x) {
        let k = choose|k: int| 0 <= k < s.push(v).len() && s.push(v)[k] == x;
        if k < s.len() {
            assert(s[k] == x);
        }
    }
    if s.contains(x) {
        let k = choose|k: int| 0 <= k < s.len() && s[k] == x;
        assert(s.push(v)[k] == x);
    }
    if x == v {
        assert(s.push(v)[s.len() as int] == v);
    }
}

pub proof fn lemma_views_push(s: Seq<String>, v: String)
    ensures
        views(s.push(v)) == views(s).push(v@),
{
    assert(views(s.push(v)) =~= views(s).push(v@));
}

/// No step but the last replaces the executable.
pub open spec fn self_replace_only_last(steps: Seq<StepView>) -> bool {
    forall|i: int| 0 <= i < steps.len() - 1 ==> !(#[trigger] steps[i] is SelfReplace)
}

pub proof fn lemma_staged_plan_no_self(staged: Seq<StagedEntry>, exe: Option<Seq<char>>)
    ensures
        forall|i: int|
            0 <= i < staged_plan(staged, exe).len() ==> !(#[trigger] staged_plan(staged, exe)[i] is SelfReplace),
    decreases staged.len(),
{
    if staged.len() > 0 {
        lemma_staged_plan_no_self(staged.drop_last(), exe);
        let a = staged_plan(staged.drop_last(), exe);
        let b = entry_steps(staged.last(), exe);
        assert forall|i: int|
            0 <= i < staged_plan(staged, exe).len() implies !(#[trigger] staged_plan(
            staged,
            exe,
        )[i] is SelfReplace) by {
            if i < a.len() {
                assert(staged_plan(staged, exe)[i] == a[i]);
            } else {
                assert(staged_plan(staged, exe)[i] == b[i - a.len()]);
            }
        }
    }
}

/// In an update plan the executable is replaced at most once, by the last
/// step, and exactly when it is among the staged files.
pub proof fn lemma_self_replace_last(
    steps: Seq<StepView>,
    prev: Seq<Seq<char>>,
    staged: Seq<StagedEntry>,
    exe: Option<Seq<char>>,
    clean_modules: bool,
)
    requires
        is_update_plan(steps, prev, staged, exe, clean_modules),
    ensures
        self_replace_only_last(steps),
        exe_staged(staged, exe) <==> (steps.len() > 0 && steps.last() is SelfReplace),
{
    let a = staged_plan(staged, exe);
    let c = self_step(staged, exe);
    let lo = a.len() as int;
    let hi = steps.len() - c.len();
    lemma_staged_plan_no_self(staged, exe);
    assert forall|i: int| 0 <= i < steps.len() - 1 implies !(#[trigger] steps[i] is SelfReplace) by {
        if i < lo {
            assert(steps[i] == steps.subrange(0, lo)[i]);
        } else if i < hi {
        } else {
            assert(c.len() == 1);
            assert(i == steps.len() - 1);
        }
    }
    if steps.len() > 0 && steps.last() is SelfReplace {
        if !exe_staged(staged, exe) {
            let i = steps.len() - 1;
            if i < lo {
                assert(steps[i] == steps.subrange(0, lo)[i]);
            }
        }
    }
    if exe_staged(staged, exe) {
        assert(steps.last() == steps.subrange(hi, steps.len() as int)[0]);
    }
}

/// Children come before the folders that hold them.
pub proof fn lemma_deepest_first_children_first(s: Seq<Seq<char>>, i: int, j: int)
    requires
        deepest_first(s),
        0 <= i < s.len(),
        0 <= j < s.len(),
        is_ancestor(s[j], s[i]),
    ensures
        i < j,
{
    crate::path::lemma_ancestor_shallower(s[j], s[i]);
    if j < i {
        assert(depth(s[j]) >= depth(s[i]));
    }
}

/// The steps of the update from `prev` (the paths of the current tree) to
/// `staged` (the extracted release).  `exe` is the running executable, when
/// it lies in the tree; `clean_modules` lets leftovers under `Module` go.
#[verifier::loop_isolation(false)]
pub fn plan_update(
    prev: &Vec<String>,
    staged: &Vec<StagedEntry>,
    exe: Option<&String>,
    clean_modules: bool,
) -> (r: Vec<Step>)
    ensures
        is_update_plan(
            step_views(r@),
            views(prev@),
            staged@,
            match exe {
                Some(e) => Some(e@),
                None => None,
            },
            clean_modules,
        ),
{
    let ghost ex = match exe {
        Some(e) => Some(e@),
        None => None,
    };
    let mut steps: Vec<Step> = Vec::new();
    let mut exe_seen = false;
    let mut i: usize = 0;
    while i < staged.len()
        invariant
            i <= staged@.len(),
            ex == (match exe {
                Some(e) => Some(e@),
                None => None,
            }),
            step_views(steps@) == staged_plan(staged@.subrange(0, i as int), ex),
            exe_seen == exe_staged(staged@.subrange(0, i as int), ex),
        decreases staged.len() - i,
    {
        let ghost pre = staged@.subrange(0, i as int + 1);
        assert(pre.drop_last() =~= staged@.subrange(0, i as int));
        assert(pre.last() == staged@[i as int]);
        let ghost before = step_views(steps@);
        let e = &staged[i];
        let is_exe = match exe {
            Some(x) => str_eq(e.rel.as_str(), x.as_str()),
            None => false,
        };
        if e.is_dir {
            steps.push(Step::CreateDir { rel: e.rel.clone(), fresh: !e.dst_exists });
        } else if is_exe {
            exe_seen = true;
        } else if e.dst_exists && e.same_content {
        } else if e.dst_exists {
            steps.push(Step::MoveAside { rel: e.rel.clone() });
            steps.push(Step::Copy { rel: e.rel.clone() });
        } else {
            steps.push(Step::Copy { rel: e.rel.clone() });
        }
        assert(step_views(steps@) =~= before + entry_steps(staged@[i as int], ex));
        proof {
            if exe_staged(pre, ex) && !exe_staged(staged@.subrange(0, i as int), ex) {
                let k = choose|k: int| 0 <= k < pre.len() && !(#[trigger] pre[k]).is_dir && pre[k].rel@ == ex->0;
                if k < i {
                    assert(staged@.subrange(0, i as int)[k] == pre[k]);
                }
            }
            if exe_staged(staged@.subrange(0, i as int), ex) {
                let k = choose|k: int|
                    0 <= k < i && !(#[trigger] staged@.subrange(0, i as int)[k]).is_dir && staged@.subrange(0, i as int)[k].rel@ == ex->0;
                assert(pre[k] == staged@.subrange(0, i as int)[k]);
            }
            if !e.is_dir && is_exe {
                assert(pre[i as int] == staged@[i as int]);
            }
        }
        i = i + 1;
    }
    assert(staged@.subrange(0, staged@.len() as int) =~= staged@);
    let ghost lo = steps@.len() as int;
    let ghost a = step_views(steps@);
    let gone = removal_order(prev, staged, clean_modules);
    let mut k: usize = 0;
    while k < gone.len()
        invariant
            k <= gone@.len(),
            step_views(steps@).len() == lo + k,
            step_views(steps@).subrange(0, lo) == a,
            forall|m: int|
                0 <= m < k ==> step_views(steps@)[lo + m] == StepView::MoveAside(
                    #[trigger] gone@[m]@,
                ),
        decreases gone.len() - k,
    {
        let ghost before = step_views(steps@);
        steps.push(Step::MoveAside { rel: gone[k].clone() });
        assert(step_views(steps@) =~= before.push(StepView::MoveAside(gone@[k as int]@)));
        assert(step_views(steps@).subrange(0, lo) =~= before.subrange(0, lo));
        k = k + 1;
    }
    let ghost hi = steps@.len() as int;
    let ghost mid = step_views(steps@).subrange(lo, hi).map_values(|s: StepView| moved_rel(s));
    assert(mid =~= views(gone@)) by {
        assert forall|m: int| 0 <= m < mid.len() implies mid[m] == views(gone@)[m] by {
            assert(step_views(steps@)[lo + m] == StepView::MoveAside(gone@[m]@));
        }
    }
    let ghost before = step_views(steps@);
    if exe_seen {
        match exe {
            Some(x) => {
                steps.push(Step::SelfReplace { rel: x.clone() });
            },
            None => {},
        }
    }
    proof {
        let v = step_views(steps@);
        if exe_seen {
            assert(v =~= before.push(StepView::SelfReplace(ex->0)));
            assert(v.subrange(hi, v.len() as int) =~= self_step(staged@, ex));
        } else {
            assert(v =~= before);
            assert(v.subrange(hi, v.len() as int) =~= self_step(staged@, ex));
        }
        assert(v.subrange(0, lo) =~= a);
        assert(v.subrange(lo, hi) =~= before.subrange(lo, hi));
        assert forall|m: int| lo <= m < hi implies (#[trigger] v[m]) is MoveAside by {
            assert(v[m] == before[m]);
            assert(before[lo + (m - lo)] == StepView::MoveAside(gone@[m - lo]@));
        }
        assert forall|m: int| lo <= m < hi implies to_remove(
            views(prev@),
            staged@,
            clean_modules,
            moved_rel(#[trigger] v[m]),
        ) by {
            assert(v[m] == before[m]);
            assert(before[lo + (m - lo)] == StepView::MoveAside(gone@[m - lo]@));
            assert(views(gone@)[m - lo] == gone@[m - lo]@);
            assert(views(gone@).contains(gone@[m - lo]@));
        }
        assert forall|x: Seq<char>| to_remove(views(prev@), staged@, clean_modules, x) implies exists|m: int|
            lo <= m < hi && moved_rel(#[trigger] v[m]) == x by {
            assert(views(gone@).contains(x));
            let g = choose|g: int| 0 <= g < views(gone@).len() && views(gone@)[g] == x;
            assert(v[lo + g] == before[lo + g]);
            assert(before[lo + g] == StepView::MoveAside(gone@[g]@));
            assert(moved_rel(v[lo + g]) == x);
        }
        assert(v.subrange(lo, hi).map_values(|s: StepView| moved_rel(s)) =~= mid);
    }
    steps
}

/// The leftovers of an update, each once, deepest first.
#[verifier::loop_isolation(false)]
pub fn removal_order(prev: &Vec<String>, staged: &Vec<StagedEntry>, clean_modules: bool) -> (r: Vec<
    String,
>)
    ensures
        forall|x: Seq<char>|
            views(r@).contains(x) <==> to_remove(views(prev@), staged@, clean_modules, x),
        deepest_first(views(r@)),
        no_dups(views(r@)),
{
    let stale_paths = stale_of(prev, staged);
    let mut kept: Vec<String> = Vec::new();
    let mut i: usize = 0;
    while i < stale_paths.len()
        invariant
            i <= stale_paths@.len(),
            forall|x: Seq<char>|
                views(stale_paths@).contains(x) <==> stale(views(prev@), staged@, x),
            no_dups(views(stale_paths@)),
            forall|x: Seq<char>|
                views(kept@).contains(x) <==> (views(stale_paths@).subrange(0, i as int).contains(x)
                    && to_remove(views(prev@), staged@, clean_modules, x)),
            no_dups(views(kept@)),
        decreases stale_paths.len() - i,
    {
        let p = &stale_paths[i];
        let mut under_stale = false;
        let mut j: usize = 0;
        while j < stale_paths.len()
            invariant
                forall|x: Seq<char>|
                    views(stale_paths@).contains(x) <==> stale(views(prev@), staged@, x),
                no_dups(views(stale_paths@)),
                forall|x: Seq<char>|
                    views(kept@).contains(x) <==> (views(stale_paths@).subrange(0, i as int).contains(x)
                        && to_remove(views(prev@), staged@, clean_modules, x)),
                no_dups(views(kept@)),
                j <= stale_paths@.len(),
                i < stale_paths@.len(),
                *p == stale_paths@[i as int],
                under_stale == exists|k: int|
                    0 <= k < j && is_ancestor(#[trigger] views(stale_paths@)[k], p@),
            decreases stale_paths.len() - j,
        {
            let a = is_ancestor_of(&stale_paths[j], p);
            assert(views(stale_paths@)[j as int] == stale_paths@[j as int]@);
            if a {
                under_stale = true;
            }
            proof {
                if !a && !under_stale {
                    assert forall|k: int| 0 <= k < j + 1 implies !is_ancestor(
                        #[trigger] views(stale_paths@)[k],
                        p@,
                    ) by {
                        if k < j {
                        }
                    }
                }
            }
            j = j + 1;
        }
        let keep = !under_stale && (clean_modules || !is_protected(p));
        let ghost before = views(kept@);
        let ghost pre = views(stale_paths@).subrange(0, i as int);
        let ghost pre1 = views(stale_paths@).subrange(0, i as int + 1);
        proof {
            assert(pre1 =~= pre.push(p@));
            assert(views(stale_paths@)[i as int] == p@);
            assert(views(stale_paths@).contains(p@));
            if under_stale {
                let k = choose|k: int| 0 <= k < stale_paths@.len() && is_ancestor(#[trigger] views(stale_paths@)[k], p@);
                assert(views(stale_paths@).contains(views(stale_paths@)[k]));
            }
            if !under_stale {
                assert forall|y: Seq<char>| stale(views(prev@), staged@, y) implies !is_ancestor(y, p@) by {
                    assert(views(stale_paths@).contains(y));
                    let k = choose|k: int| 0 <= k < views(stale_paths@).len() && views(stale_paths@)[k] == y;
                    assert(!is_ancestor(views(stale_paths@)[k], p@));
                }
            }
        }
        if keep {
            kept.push(p.clone());
            proof {
                assert(views(kept@) =~= before.push(p@));
                assert forall|a: int, b: int| 0 <= a < b < views(kept@).len() implies views(kept@)[a] != views(kept@)[b] by {
                    if b == views(kept@).len() - 1 {
                        if views(kept@)[a] == p@ {
                            assert(before.contains(p@));
                            let k = choose|k: int| 0 <= k < pre.len() && pre[k] == p@;
                            assert(views(stale_paths@)[k] == views(stale_paths@)[i as int]);
                        }
                    } else {
                        assert(views(kept@)[a] == before[a]);
                        assert(views(kept@)[b] == before[b]);
                    }
                }
                assert forall|x: Seq<char>| views(kept@).contains(x) <==> (pre1.contains(x) && to_remove(views(prev@), staged@, clean_modules, x)) by {
                    if views(kept@).contains(x) {
                        let k = choose|k: int| 0 <= k < views(kept@).len() && views(kept@)[k] == x;
                        if k < before.len() {
                            assert(before[k] == x);
                            assert(before.contains(x));
                            let q = choose|q: int| 0 <= q < pre.len() && pre[q] == x;
                            assert(pre1[q] == x);
                        } else {
                            assert(pre1[i as int] == x);
                        }
                    }
                    if pre1.contains(x) && to_remove(views(prev@), staged@, clean_modules, x) {
                        let q = choose|q: int| 0 <= q < pre1.len() && pre1[q] == x;
                        if q < i {
                            assert(pre[q] == x);
                            assert(pre.contains(x));
                            assert(before.contains(x));
                            let k = choose|k: int| 0 <= k < before.len() && before[k] == x;
                            assert(views(kept@)[k] == x);
                        } else {
                            assert(views(kept@)[before.len() as int] == x);
                        }
                    }
                }
            }
        } else {
            proof {
                assert(views(kept@) == before);
                assert forall|x: Seq<char>| views(kept@).contains(x) <==> (pre1.contains(x) && to_remove(views(prev@), staged@, clean_modules, x)) by {
                    if views(kept@).contains(x) {
                        let q = choose|q: int| 0 <= q < pre.len() && pre[q] == x;
                        assert(pre1[q] == x);
                    }
                    if pre1.contains(x) && to_remove(views(prev@), staged@, clean_modules, x) {
                        let q = choose|q: int| 0 <= q < pre1.len() && pre1[q] == x;
                        if q < i {
                            assert(pre[q] == x);
                        } else {
                            assert(x == p@);
                        }
                    }
                }
            }
        }
        i = i + 1;
    }
    assert(views(stale_paths@).subrange(0, stale_paths@.len() as int) =~= views(stale_paths@));
    sort_deepest_first(&kept)
}

/// `p` is the folder of installed modules or lies under it.
fn is_protected(p: &String) -> (r: bool)
    ensures
        r == protected(p@),
{
    let cs = chars_of(p.as_str());
    proof {
        reveal_strlit("Module");
        reveal_strlit("Module/");
    }
    if str_eq(p.as_str(), "Module") {
        return true;
    }
    if cs.len() <= 7 {
        return false;
    }
    let r = cs[0] == 'M' && cs[1] == 'o' && cs[2] == 'd' && cs[3] == 'u' && cs[4] == 'l' && cs[5]
        == 'e' && cs[6] == '/';
    let ghost lit = seq!['M', 'o', 'd', 'u', 'l', 'e', '/'];
    assert("Module/"@ =~= lit);
    let ghost head = p@.subrange(0, 7);
    assert(head[0] == cs@[0] && head[1] == cs@[1] && head[2] == cs@[2] && head[3] == cs@[3]
        && head[4] == cs@[4] && head[5] == cs@[5] && head[6] == cs@[6]);
    if r {
        assert(head =~= lit);
    } else {
        assert(head != lit) by {
            if head == lit {
                assert(head[0] == lit[0] && head[1] == lit[1] && head[2] == lit[2] && head[3]
                    == lit[3] && head[4] == lit[4] && head[5] == lit[5] && head[6] == lit[6]);
            }
        }
    }
    r
}

/// The paths of `prev` that no staged entry has, each once.
fn stale_of(prev: &Vec<String>, staged: &Vec<StagedEntry>) -> (r: Vec<String>)
    ensures
        forall|x: Seq<char>| views(r@).contains(x) <==> stale(views(prev@), staged@, x),
        no_dups(views(r@)),
{
    let mut out: Vec<String> = Vec::new();
    let mut i: usize = 0;
    while i < prev.len()
        invariant
            i <= prev@.len(),
            forall|x: Seq<char>|
                #[trigger] views(out@).contains(x) <==> (views(prev@).subrange(0, i as int).contains(x)
                    && !staged_rel(staged@, x)),
            no_dups(views(out@)),
        decreases prev.len() - i,
    {
        let p = &prev[i];
        let mut in_staged = false;
        let mut j: usize = 0;
        while j < staged.len()
            invariant
                forall|x: Seq<char>|
                    #[trigger] views(out@).contains(x) <==> (views(prev@).subrange(0, i as int).contains(x)
                        && !staged_rel(staged@, x)),
                no_dups(views(out@)),
                i < prev@.len(),
                *p == prev@[i as int],
                j <= staged@.len(),
                in_staged == exists|k: int| 0 <= k < j && (#[trigger] staged@[k]).rel@ == p@,
            decreases staged.len() - j,
        {
            let same = str_eq(staged[j].rel.as_str(), p.as_str());
            if same {
                in_staged = true;
            }
            proof {
                if !same && !in_staged {
                    assert forall|k: int| 0 <= k < j + 1 implies (#[trigger] staged@[k]).rel@ != p@ by {
                        if k < j {
                        }
                    }
                }
            }
            j = j + 1;
        }
        let mut already = false;
        let mut j: usize = 0;
        while j < out.len()
            invariant
                forall|x: Seq<char>|
                    #[trigger] views(out@).contains(x) <==> (views(prev@).subrange(0, i as int).contains(x)
                        && !staged_rel(staged@, x)),
                no_dups(views(out@)),
                i < prev@.len(),
                *p == prev@[i as int],
                j <= out@.len(),
                already == exists|k: int| 0 <= k < j && (#[trigger] out@[k])@ == p@,
            decreases out.len() - j,
        {
            let same = str_eq(out[j].as_str(), p.as_str());
            if same {
                already = true;
            }
            proof {
                if !same && !already {
                    assert forall|k: int| 0 <= k < j + 1 implies (#[trigger] out@[k])@ != p@ by {
                        if k < j {
                        }
                    }
                }
            }
            j = j + 1;
        }
        let ghost before = views(out@);
        let ghost pre = views(prev@).subrange(0, i as int);
        let ghost pre1 = views(prev@).subrange(0, i as int + 1);
        proof {
            assert(pre1 =~= pre.push(p@));
            assert(views(prev@)[i as int] == p@);
            if already {
                let k = choose|k: int| 0 <= k < out@.len() && (#[trigger] out@[k])@ == p@;
                assert(before[k] == p@);
            }
            if before.contains(p@) {
                let k = choose|k: int| 0 <= k < before.len() && before[k] == p@;
                assert(out@[k]@ == p@);
            }
            if staged_rel(staged@, p@) {
                let k = choose|k: int| 0 <= k < staged@.len() && (#[trigger] staged@[k]).rel@ == p@;
            }
        }
        if !in_staged && !already {
            let ghost out0 = out@;
            out.push(p.clone());
            proof {
                lemma_views_push(out0, *p);
                assert forall|a: int, b: int| 0 <= a < b < views(out@).len() implies views(out@)[a] != views(out@)[b] by {
                    if b == views(out@).len() - 1 {
                        assert(views(out@)[a] == before[a]);
                        assert(before.contains(before[a]));
                    } else {
                        assert(views(out@)[a] == before[a]);
                        assert(views(out@)[b] == before[b]);
                    }
                }
            }
        }
        proof {
            assert forall|x: Seq<char>| views(out@).contains(x) <==> (pre1.contains(x) && !staged_rel(staged@, x)) by {
                lemma_push_contains(pre, p@, x);
                lemma_push_contains(before, p@, x);
            }
        }
        i = i + 1;
    }
    assert(views(prev@).subrange(0, prev@.len() as int) =~= views(prev@));
    out
}

/// The same paths, deepest first; equally deep ones keep their order.
#[verifier::loop_isolation(false)]
pub fn sort_deepest_first(paths: &Vec<String>) -> (r: Vec<String>)
    ensures
        forall|x: Seq<char>| views(r@).contains(x) <==> views(paths@).contains(x),
        deepest_first(views(r@)),
        no_dups(views(paths@)) ==> no_dups(views(r@)),
{
    let mut max: usize = 0;
    let mut i: usize = 0;
    while i < paths.len()
        invariant
            i <= paths@.len(),
            forall|k: int| 0 <= k < i ==> depth(#[trigger] paths@[k]@) <= max,
        decreases paths.len() - i,
    {
        let d = path_depth(&paths[i]);
        if d > max {
            max = d;
        }
        i = i + 1;
    }
    let mut out: Vec<String> = Vec::new();
    let mut level: usize = max;
    let mut finished = false;
    while !finished
        invariant
            level <= max,
            forall|k: int| 0 <= k < paths@.len() ==> depth(#[trigger] paths@[k]@) <= max,
            finished ==> forall|x: Seq<char>|
                views(out@).contains(x) <==> views(paths@).contains(x),
            !finished ==> forall|x: Seq<char>|
                views(out@).contains(x) <==> (views(paths@).contains(x) && depth(x) > level),
            deepest_first(views(out@)),
            no_dups(views(paths@)) ==> no_dups(views(out@)),
            !finished ==> forall|k: int| 0 <= k < out@.len() ==> depth(#[trigger] out@[k]@) > level,
        decreases level + if finished {
            0int
        } else {
            1int
        },
    {
        let mut j: usize = 0;
        while j < paths.len()
            invariant
                j <= paths@.len(),
                forall|x: Seq<char>|
                    views(out@).contains(x) <==> (views(paths@).contains(x) && depth(x) > level) || (
                    views(paths@).subrange(0, j as int).contains(x) && depth(x) == level),
                deepest_first(views(out@)),
                no_dups(views(paths@)) ==> no_dups(views(out@)),
                forall|k: int| 0 <= k < out@.len() ==> depth(#[trigger] out@[k]@) >= level,
            decreases paths.len() - j,
        {
            let ghost before = views(out@);
            let ghost pre = views(paths@).subrange(0, j as int);
            let ghost pre1 = views(paths@).subrange(0, j as int + 1);
            assert(pre1 =~= pre.push(paths@[j as int]@));
            let d = path_depth(&paths[j]);
            if d == level {
                let ghost x0 = paths@[j as int]@;
                proof {
                    if before.contains(x0) && no_dups(views(paths@)) {
                        let k = choose|k: int| 0 <= k < before.len() && before[k] == x0;
                        if depth(x0) > level {
                        } else {
                            let q = choose|q: int| 0 <= q < pre.len() && pre[q] == x0;
                            assert(views(paths@)[q] == views(paths@)[j as int]);
                        }
                    }
                }
                out.push(paths[j].clone());
                proof {
                    assert(views(out@) =~= before.push(x0));
                    assert forall|a: int, b: int| 0 <= a < b < views(out@).len() implies depth(
                        #[trigger] views(out@)[a],
                    ) >= depth(#[trigger] views(out@)[b]) by {
                        assert(views(out@)[a] == out@[a]@);
                    }
                    if no_dups(views(paths@)) {
                        assert forall|a: int, b: int| 0 <= a < b < views(out@).len() implies views(out@)[a] != views(out@)[b] by {
                            if b == views(out@).len() - 1 {
                                assert(views(out@)[a] == before[a]);
                                assert(before.contains(before[a]));
                            } else {
                                assert(views(out@)[a] == before[a]);
                                assert(views(out@)[b] == before[b]);
                            }
                        }
                    }
                }
            }
            proof {
                assert forall|x: Seq<char>| views(out@).contains(x) <==> ((views(paths@).contains(x) && depth(x) > level) || (pre1.contains(x) && depth(x) == level)) by {
                    if views(out@).contains(x) {
                        let k = choose|k: int| 0 <= k < views(out@).len() && views(out@)[k] == x;
                        if k < before.len() {
                            assert(before[k] == x);
                            assert(before.contains(x));
                            if !(views(paths@).contains(x) && depth(x) > level) {
                                let q = choose|q: int| 0 <= q < pre.len() && pre[q] == x;
                                assert(pre1[q] == x);
                            }
                        } else {
                            assert(pre1[j as int] == x);
                        }
                    }
                    if pre1.contains(x) && depth(x) == level {
                        let q = choose|q: int| 0 <= q < pre1.len() && pre1[q] == x;
                        if q < j {
                            assert(pre[q] == x);
                            assert(pre.contains(x));
                            assert(before.contains(x));
                            let k = choose|k: int| 0 <= k < before.len() && before[k] == x;
                            assert(views(out@)[k] == x);
                        } else {
                            assert(views(out@)[before.len() as int] == x);
                        }
                    }
                    if views(paths@).contains(x) && depth(x) > level {
                        assert(before.contains(x));
                        let k = choose|k: int| 0 <= k < before.len() && before[k] == x;
                        assert(views(out@)[k] == x);
                    }
                }
            }
            j = j + 1;
        }
        assert(views(paths@).subrange(0, paths@.len() as int) =~= views(paths@));
        if level == 0 {
            finished = true;
        } else {
            level = level - 1;
            proof {
                assert forall|k: int| 0 <= k < out@.len() implies depth(#[trigger] out@[k]@) > level by {
                    assert(views(out@)[k] == out@[k]@);
                }
            }
        }
    }
    out
}

} // verus!
