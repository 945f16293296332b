use vstd::prelude::*;

use crate::path::EntryPath;

verus! {

/// One unit of work for the background scanner: a directory to visit, whether
/// to queue its subdirectories too, and whether its arrival resets the scan
/// stopwatch.
#[derive(Debug)]
pub struct ScanTask {
    /// The directory to visit.
    pub path: EntryPath,
    /// Whether the subdirectories are queued as further recursive tasks.
    pub recursive: bool,
    /// Whether the scan stopwatch should go back to zero for this unit of work.
    pub reset_stopwatch: bool,
}

/// Mathematical view of a scan task.
pub struct TaskView {
    /// Parts of the directory's path.
    pub path: Seq<Seq<char>>,
    /// Whether the task recurses.
    pub recursive: bool,
    /// Whether the task resets the stopwatch.
    pub reset_stopwatch: bool,
}

impl View for ScanTask {
    type V = TaskView;

    open spec fn view(&self) -> TaskView {
        TaskView { path: self.path@, recursive: self.recursive, reset_stopwatch: self.reset_stopwatch }
    }
}

/// Whether the pending task `e` survives the arrival of `task`: it is not the
/// same task, and a recursive newcomer swallows every task at or below its
/// own path.
pub open spec fn task_kept(e: TaskView, task: TaskView) -> bool {
    &&& e != task
    &&& (!task.recursive || !(task.path == e.path || task.path.is_prefix_of(e.path)))
}

impl ScanTask {
    /// Merges a new task into the pending queue: drops every pending task the
    /// newcomer subsumes — its duplicates and, for a recursive newcomer,
    /// everything at or below its path — keeps the rest in order, and appends
    /// the newcomer.
    #[verifier::spinoff_prover]
    pub fn merge_to_queue(queue: &mut Vec<ScanTask>, task: ScanTask)
        ensures
            final(queue)@.map_values(|t: ScanTask| t@) == old(queue)@.map_values(
                |t: ScanTask| t@,
            ).filter(|e: TaskView| task_kept(e, task@)).push(task@),
    {
        let ghost q0 = old(queue)@.map_values(|t: ScanTask| t@);
        let ghost tv = task@;
        let mut out: Vec<ScanTask> = Vec::new();
        let mut rest = Vec::new();
        core::mem::swap(queue, &mut rest);
        proof {
            reveal(Seq::filter);
            assert(q0.take(0) =~= Seq::<TaskView>::empty());
            assert(out@.map_values(|t: ScanTask| t@) =~= Seq::<TaskView>::empty());
        }
        let n = rest.len();
        let mut i: usize = 0;
        while i < n
            invariant
                n == rest@.len(),
                0 <= i <= n,
                tv == task@,
                q0 == rest@.map_values(|t: ScanTask| t@),
                out@.map_values(|t: ScanTask| t@) == q0.take(i as int).filter(
                    |e: TaskView| task_kept(e, tv),
                ),
            decreases n - i,
        {
            proof {
                reveal(Seq::filter);
                assert(q0.take(i + 1).drop_last() =~= q0.take(i as int));
                assert(q0.take(i + 1).last() == q0[i as int]);
            }
            let e = &rest[i];
            let same = e.recursive == task.recursive && e.reset_stopwatch == task.reset_stopwatch
                && e.path.eq(&task.path);
            let swallowed = task.recursive && match task.path.partial_cmp(&e.path) {
                Some(core::cmp::Ordering::Less) => true,
                Some(core::cmp::Ordering::Equal) => true,
                _ => false,
            };
            let keep = !same && !swallowed;
            proof {
                assert(q0[i as int] == rest@[i as int]@);
                assert(q0[i as int].path == e.path@);
                if same {
                    assert(q0[i as int] == tv);
                }
                if !same {
                    assert(q0[i as int] != tv) by {
                        if q0[i as int].recursive == tv.recursive
                            && q0[i as int].reset_stopwatch == tv.reset_stopwatch {
                            assert(e.path@ != task.path@);
                        }
                    }
                }
                assert(swallowed == (tv.recursive && (tv.path == q0[i as int].path
                    || tv.path.is_prefix_of(q0[i as int].path))));
                assert(keep == task_kept(q0[i as int], tv));
            }
            if keep {
                let ghost om = out@.map_values(|t: ScanTask| t@);
                let kept = ScanTask {
                    path: e.path.clone(),
                    recursive: e.recursive,
                    reset_stopwatch: e.reset_stopwatch,
                };
                proof {
                    assert(kept@ == q0[i as int]);
                }
                out.push(kept);
                proof {
                    assert(out@.map_values(|t: ScanTask| t@) =~= om.push(q0[i as int]));
                }
            }
            i = i + 1;
        }
        proof {
            assert(q0.take(n as int) =~= q0);
        }
        let ghost om = out@.map_values(|t: ScanTask| t@);
        out.push(task);
        proof {
            assert(out@.map_values(|t: ScanTask| t@) =~= om.push(tv));
        }
        core::mem::swap(queue, &mut out);
    }
}

/// Law: coalescing only ever drops work the newcomer covers. A pending task
/// leaves the queue only if it is the newcomer's duplicate, or the newcomer
/// is recursive and the pending task's directory lies at or below the
/// newcomer's, so the newcomer's walk visits every directory the dropped
/// task would have visited.
pub proof fn lemma_coalesce_covers(q0: Seq<TaskView>, q1: Seq<TaskView>, task: TaskView, e: TaskView)
    requires
        q1 == q0.filter(|x: TaskView| task_kept(x, task)).push(task),
        q0.contains(e),
        !q1.contains(e),
    ensures
        e == task || (task.recursive && (task.path == e.path || task.path.is_prefix_of(e.path))),
{
    if e != task && !(task.recursive && (task.path == e.path || task.path.is_prefix_of(e.path))) {
        let w = choose|w: int| 0 <= w < q0.len() && q0[w] == e;
        lemma_filter_keeps_task(q0, |x: TaskView| task_kept(x, task), w);
        let f = q0.filter(|x: TaskView| task_kept(x, task));
        let w2 = choose|w2: int| 0 <= w2 < f.len() && f[w2] == e;
        assert(q1[w2] == e);
    }
}

/// An element of a run that satisfies the predicate lands in the filtered run.
proof fn lemma_filter_keeps_task(ks: Seq<TaskView>, p: spec_fn(TaskView) -> bool, w: int)
    requires
        0 <= w < ks.len(),
        p(ks[w]),
    ensures
        ks.filter(p).contains(ks[w]),
    decreases ks.len(),
{
    reveal(Seq::filter);
    if ks.len() > 0 {
        let d = ks.drop_last();
        if w == ks.len() - 1 {
            assert(ks.filter(p).last() == ks[w]);
        } else {
            lemma_filter_keeps_task(d, p, w);
            assert(d[w] == ks[w]);
            let f = d.filter(p);
            let x = choose|x: int| 0 <= x < f.len() && f[x] == ks[w];
            if p(ks.last()) {
                assert(ks.filter(p)[x] == ks[w]);
            } else {
                assert(ks.filter(p) == f);
            }
        }
    }
}

} // verus!
