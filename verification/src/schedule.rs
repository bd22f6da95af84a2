use vstd::prelude::*;

verus! {

/// An entry of the world's run order: a system that may run on any thread,
/// one that runs on the world's thread, one that may create and remove
/// entities, or a barrier between parallel groups.
#[derive(Clone, Copy, Debug, PartialEq, Eq, Structural)]
pub enum Priority {
    Send(usize),
    ThreadLocal(usize),
    Creation(usize),
    Barrier,
}

/// One step of a run: the systems of the run order at positions
/// `start .. end`, all of them `Send`, run in parallel; or one system of the
/// world's thread; or one creation system.
#[derive(Clone, Copy, Debug, PartialEq, Eq, Structural)]
pub enum Step {
    Parallel(usize, usize),
    ThreadLocal(usize),
    Creation(usize),
}

/// The end of the run of `Send` entries that starts at `k`.
pub open spec fn send_run_end(q: Seq<Priority>, k: int) -> int
    decreases q.len() - k,
{
    if k < q.len() && q[k] is Send {
        send_run_end(q, k + 1)
    } else {
        k
    }
}

/// The steps that run the entries of `q` from position `k` on.
pub open spec fn steps_from(q: Seq<Priority>, k: int) -> Seq<Step>
    decreases q.len() - k, 1int,
{
    if k < 0 || k >= q.len() {
        Seq::empty()
    } else {
        match q[k] {
            Priority::Send(_) => {
                let e = send_run_end(q, k);
                if k < e <= q.len() {
                    seq![Step::Parallel(k as usize, e as usize)] + steps_from(q, e)
                } else {
                    Seq::empty()
                }
            },
            Priority::ThreadLocal(i) => seq![Step::ThreadLocal(i)] + steps_from(q, k + 1),
            Priority::Creation(i) => seq![Step::Creation(i)] + steps_from(q, k + 1),
            Priority::Barrier => steps_from(q, k + 1),
        }
    }
}

proof fn lemma_send_run_end(q: Seq<Priority>, k: int)
    requires
        0 <= k <= q.len(),
    ensures
        k <= send_run_end(q, k) <= q.len(),
        forall|j: int| k <= j < send_run_end(q, k) ==> #[trigger] q[j] is Send,
        send_run_end(q, k) < q.len() ==> !(q[send_run_end(q, k)] is Send),
    decreases q.len() - k,
{
    if k < q.len() && q[k] is Send {
        lemma_send_run_end(q, k + 1);
    }
}

/// Every parallel step covers a non-empty run of `Send` entries of the run
/// order, and a run of `Send` entries is never split: the entry after it is
/// not `Send`.
pub proof fn lemma_parallel_steps_are_send_runs(q: Seq<Priority>, k: int, n: int)
    requires
        0 <= k,
        q.len() <= usize::MAX,
        0 <= n < steps_from(q, k).len(),
        steps_from(q, k)[n] is Parallel,
    ensures
        ({
            let (s, e) = (steps_from(q, k)[n]->Parallel_0 as int, steps_from(q, k)[n]->Parallel_1 as int);
            &&& k <= s < e <= q.len()
            &&& forall|j: int| s <= j < e ==> #[trigger] q[j] is Send
            &&& e < q.len() ==> !(q[e] is Send)
        }),
    decreases q.len() - k,
{
    if 0 <= k < q.len() {
        match q[k] {
            Priority::Send(_) => {
                lemma_send_run_end(q, k);
                lemma_send_run_end(q, k + 1);
                let e = send_run_end(q, k);
                assert(k < e <= q.len());
                if n > 0 {
                    assert(steps_from(q, k)[n] == steps_from(q, e)[n - 1]);
                    lemma_parallel_steps_are_send_runs(q, e, n - 1);
                }
            },
            Priority::Barrier => {
                lemma_parallel_steps_are_send_runs(q, k + 1, n);
            },
            _ => {
                assert(n > 0);
                assert(steps_from(q, k)[n] == steps_from(q, k + 1)[n - 1]);
                lemma_parallel_steps_are_send_runs(q, k + 1, n - 1);
            },
        }
    }
}

/// The systems of the run order from position `k` on that run on their own,
/// in run order, each as the step that runs it: `ThreadLocal(i)` runs
/// thread-local system `i` and `Creation(i)` creation system `i`.
pub open spec fn single_systems(q: Seq<Priority>, k: int) -> Seq<Step>
    decreases q.len() - k,
{
    if k < 0 || k >= q.len() {
        Seq::empty()
    } else {
        match q[k] {
            Priority::ThreadLocal(i) => seq![Step::ThreadLocal(i)] + single_systems(q, k + 1),
            Priority::Creation(i) => seq![Step::Creation(i)] + single_systems(q, k + 1),
            _ => single_systems(q, k + 1),
        }
    }
}

/// The steps of `s` that are not parallel groups, in order.
pub open spec fn non_parallel(s: Seq<Step>) -> Seq<Step>
    decreases s.len(),
{
    if s.len() == 0 {
        Seq::empty()
    } else if s[0] is Parallel {
        non_parallel(s.drop_first())
    } else {
        seq![s[0]] + non_parallel(s.drop_first())
    }
}

proof fn lemma_non_parallel_concat(a: Seq<Step>, b: Seq<Step>)
    ensures
        non_parallel(a + b) == non_parallel(a) + non_parallel(b),
    decreases a.len(),
{
    if a.len() == 0 {
        assert(a + b =~= b);
        assert(non_parallel(a) + non_parallel(b) =~= non_parallel(b));
    } else {
        assert((a + b).drop_first() =~= a.drop_first() + b);
        assert((a + b)[0] == a[0]);
        lemma_non_parallel_concat(a.drop_first(), b);
        if !(a[0] is Parallel) {
            assert(seq![a[0]] + (non_parallel(a.drop_first()) + non_parallel(b)) =~= (seq![a[0]] + non_parallel(
                a.drop_first(),
            )) + non_parallel(b));
        }
    }
}

proof fn lemma_single_systems_skip_sends(q: Seq<Priority>, k: int, e: int)
    requires
        0 <= k <= e <= q.len(),
        forall|j: int| k <= j < e ==> #[trigger] q[j] is Send,
    ensures
        single_systems(q, k) == single_systems(q, e),
    decreases e - k,
{
    if k < e {
        assert(q[k] is Send);
        lemma_single_systems_skip_sends(q, k + 1, e);
    }
}

/// Every thread-local and every creation system of the run order runs
/// exactly once, as its own step naming the same system, and in run order:
/// leaving out the parallel groups, the steps are the thread-local and
/// creation entries of the run order, each with its index kept.
pub proof fn lemma_single_steps_follow_run_order(q: Seq<Priority>, k: int)
    requires
        0 <= k,
        q.len() <= usize::MAX,
    ensures
        non_parallel(steps_from(q, k)) == single_systems(q, k),
    decreases q.len() - k,
{
    if k < q.len() {
        match q[k] {
            Priority::Send(_) => {
                lemma_send_run_end(q, k);
                let e = send_run_end(q, k);
                lemma_send_run_end(q, k + 1);
                assert(k < e);
                lemma_single_steps_follow_run_order(q, e);
                lemma_non_parallel_concat(seq![Step::Parallel(k as usize, e as usize)], steps_from(q, e));
                let one = seq![Step::Parallel(k as usize, e as usize)];
                assert(one.drop_first() =~= Seq::<Step>::empty());
                assert(non_parallel(one) == non_parallel(one.drop_first()));
                assert(non_parallel(one) =~= Seq::<Step>::empty());
                lemma_single_systems_skip_sends(q, k, e);
                assert(non_parallel(steps_from(q, k)) =~= non_parallel(steps_from(q, e)));
            },
            Priority::Barrier => {
                lemma_single_steps_follow_run_order(q, k + 1);
            },
            _ => {
                lemma_single_steps_follow_run_order(q, k + 1);
                let one = seq![steps_from(q, k)[0]];
                assert(steps_from(q, k) =~= one + steps_from(q, k + 1));
                lemma_non_parallel_concat(one, steps_from(q, k + 1));
                assert(one.drop_first() =~= Seq::<Step>::empty());
                assert(!(one[0] is Parallel));
                assert(non_parallel(one.drop_first()) =~= Seq::<Step>::empty());
                assert(non_parallel(one) == seq![one[0]] + non_parallel(one.drop_first()));
                assert(non_parallel(one) =~= one);
            },
        }
    }
}

/// Every `Send` system of the run order runs in some parallel step that
/// covers its position.
pub proof fn lemma_send_systems_covered(q: Seq<Priority>, k: int, j: int)
    requires
        0 <= k <= j < q.len(),
        q.len() <= usize::MAX,
        q[j] is Send,
    ensures
        exists|n: int|
            0 <= n < steps_from(q, k).len() && #[trigger] steps_from(q, k)[n] is Parallel && steps_from(q, k)[n]->Parallel_0
                <= j < steps_from(q, k)[n]->Parallel_1,
    decreases q.len() - k,
{
    match q[k] {
        Priority::Send(_) => {
            lemma_send_run_end(q, k);
            lemma_send_run_end(q, k + 1);
            let e = send_run_end(q, k);
            assert(k < e);
            if j < e {
                assert(steps_from(q, k)[0] == Step::Parallel(k as usize, e as usize));
            } else {
                lemma_send_systems_covered(q, e, j);
                let n = choose|n: int|
                    0 <= n < steps_from(q, e).len() && #[trigger] steps_from(q, e)[n] is Parallel
                        && steps_from(q, e)[n]->Parallel_0 <= j < steps_from(q, e)[n]->Parallel_1;
                assert(steps_from(q, k)[n + 1] == steps_from(q, e)[n]);
            }
        },
        Priority::Barrier => {
            lemma_send_systems_covered(q, k + 1, j);
        },
        _ => {
            assert(j != k);
            lemma_send_systems_covered(q, k + 1, j);
            let n = choose|n: int|
                0 <= n < steps_from(q, k + 1).len() && #[trigger] steps_from(q, k + 1)[n] is Parallel
                    && steps_from(q, k + 1)[n]->Parallel_0 <= j < steps_from(q, k + 1)[n]->Parallel_1;
            assert(steps_from(q, k)[n + 1] == steps_from(q, k + 1)[n]);
        },
    }
}

/// Splits the run order into steps: each maximal run of consecutive `Send`
/// systems becomes one parallel step, every other system a step of its own,
/// and barriers only separate parallel runs.
pub fn schedule(queue: &[Priority]) -> (r: Vec<Step>)
    ensures
        r@ == steps_from(queue@, 0),
{
    let ghost q = queue@;
    let mut out: Vec<Step> = Vec::new();
    let mut i: usize = 0;
    while i < queue.len()
        invariant
            q == queue@,
            0 <= i <= q.len(),
            out@ + steps_from(q, i as int) == steps_from(q, 0),
        decreases q.len() - i,
    {
        match queue[i] {
            Priority::Send(_) => {
                let start = i;
                proof {
                    lemma_send_run_end(q, start as int);
                }
                while i < queue.len() && matches!(queue[i], Priority::Send(_))
                    invariant
                        q == queue@,
                        start <= i <= send_run_end(q, start as int),
                        send_run_end(q, start as int) <= q.len(),
                        forall|j: int| start <= j < send_run_end(q, start as int) ==> #[trigger] q[j] is Send,
                        send_run_end(q, start as int) < q.len() ==> !(q[send_run_end(q, start as int)] is Send),
                    decreases q.len() - i,
                {
                    i = i + 1;
                }
                proof {
                    let e = send_run_end(q, start as int);
                    if i < e {
                        assert(q[i as int] is Send);
                    }
                    assert(i as int == e);
                    assert(steps_from(q, start as int) == seq![Step::Parallel(start, i)] + steps_from(q, i as int));
                    assert((out@.push(Step::Parallel(start, i))) + steps_from(q, i as int) =~= out@ + steps_from(
                        q,
                        start as int,
                    ));
                }
                out.push(Step::Parallel(start, i));
            },
            Priority::ThreadLocal(s) => {
                proof {
                    assert((out@.push(Step::ThreadLocal(s))) + steps_from(q, i + 1) =~= out@ + steps_from(q, i as int));
                }
                out.push(Step::ThreadLocal(s));
                i = i + 1;
            },
            Priority::Creation(s) => {
                proof {
                    assert((out@.push(Step::Creation(s))) + steps_from(q, i + 1) =~= out@ + steps_from(q, i as int));
                }
                out.push(Step::Creation(s));
                i = i + 1;
            },
            Priority::Barrier => {
                i = i + 1;
            },
        }
    }
    proof {
        assert(steps_from(q, i as int) == Seq::<Step>::empty());
        assert(out@ =~= out@ + Seq::<Step>::empty());
    }
    out
}

} // verus!
