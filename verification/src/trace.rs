use vstd::prelude::*;

verus! {

/// Point `k + 1` of `path` is what `step` gave for point `k`.
pub open spec fn stepped_at<P, S: Fn(P) -> Option<P>>(step: S, path: Seq<P>, k: int) -> bool {
    step.ensures((path[k],), Some(path[k + 1]))
}

/// Every point of `path` after the first is the step taken from the
/// point before it.
pub open spec fn steps_along<P, S: Fn(P) -> Option<P>>(step: S, path: Seq<P>) -> bool {
    forall|k: int| 0 <= k < path.len() - 1 ==> #[trigger] stepped_at(step, path, k)
}

/// Point `k` of `path`, reached after `k` steps from `seed`, was judged
/// not to close the loop (the check is told the seed, the index `k - 1` of
/// the step that made the point, and the point).
pub open spec fn declined_at<P, C: Fn(P, usize, P) -> bool>(
    closes: C,
    seed: P,
    path: Seq<P>,
    k: int,
) -> bool {
    closes.ensures((seed, (k - 1) as usize, path[k]), false)
}

/// Points `1 .. m` of `path` were each judged not to close the loop.
pub open spec fn declined_before<P, C: Fn(P, usize, P) -> bool>(
    closes: C,
    seed: P,
    path: Seq<P>,
    m: int,
) -> bool {
    forall|k: int| 1 <= k < m ==> #[trigger] declined_at(closes, seed, path, k)
}

/// What a trace without the closed-loop rule gives: nothing when the seed
/// lies outside; else the seed followed by successive steps, at most
/// `max_steps` of them, ending early only where a step fails.
pub open spec fn traced_open<P, I: Fn(P) -> bool, S: Fn(P) -> Option<P>>(
    inside: I,
    step: S,
    seed: P,
    max_steps: int,
    path: Seq<P>,
) -> bool {
    if path.len() == 0 {
        inside.ensures((seed,), false)
    } else {
        &&& inside.ensures((seed,), true)
        &&& path[0] == seed
        &&& path.len() <= max_steps + 1
        &&& steps_along(step, path)
        &&& (path.len() == max_steps + 1 || step.ensures((path.last(),), None))
    }
}

/// What a trace with the closed-loop rule gives. `path` is the trajectory
/// of `traced_open`, except that where `close_on_loop` holds the point
/// after each step is checked by `closes`; at the first point that closes
/// the loop the trace stops and appends the seed, and `closed` is set.
pub open spec fn traced<P, I: Fn(P) -> bool, S: Fn(P) -> Option<P>, C: Fn(P, usize, P) -> bool>(
    inside: I,
    step: S,
    closes: C,
    seed: P,
    max_steps: int,
    close_on_loop: bool,
    path: Seq<P>,
    closed: bool,
) -> bool {
    let traj = if closed { path.drop_last() } else { path };
    if path.len() == 0 {
        !closed && inside.ensures((seed,), false)
    } else {
        &&& inside.ensures((seed,), true)
        &&& traj.len() >= 1
        &&& traj[0] == seed
        &&& traj.len() <= max_steps + 1
        &&& steps_along(step, traj)
        &&& (close_on_loop ==> declined_before(
            closes,
            seed,
            traj,
            if closed { traj.len() - 1 } else { traj.len() as int },
        ))
        &&& if closed {
            &&& close_on_loop
            &&& traj.len() >= 2
            &&& path.last() == seed
            &&& closes.ensures((seed, (traj.len() - 2) as usize, traj.last()), true)
        } else {
            traj.len() == max_steps + 1 || step.ensures((traj.last(),), None)
        }
    }
}

/// Traces a path from `seed`: if `inside` rejects the seed the path is
/// empty; otherwise it holds the seed and then, for up to `max_steps`
/// steps, the point that `step` gives for the last one, stopping at the
/// first step that fails. With `close_on_loop`, each new point is offered
/// to `closes` together with the seed and the index of the step that made
/// it; when it answers `true` the seed is appended and the path is
/// reported closed.
pub fn trace_until_close<P: Copy, I, S, C>(
    seed: P,
    inside: &I,
    step: &S,
    max_steps: usize,
    close_on_loop: bool,
    closes: &C,
) -> (r: (Vec<P>, bool)) where I: Fn(P) -> bool, S: Fn(P) -> Option<P>, C: Fn(P, usize, P) -> bool
    requires
        inside.requires((seed,)),
        forall|p: P| step.requires((p,)),
        forall|q: P, k: usize, p: P| closes.requires((q, k, p)),
    ensures
        traced(*inside, *step, *closes, seed, max_steps as int, close_on_loop, r.0@, r.1),
{
    let mut path: Vec<P> = Vec::new();
    if !inside(seed) {
        return (path, false);
    }
    path.push(seed);
    let mut current = seed;
    let mut step_idx: usize = 0;
    while step_idx < max_steps
        invariant
            forall|p: P| step.requires((p,)),
            forall|q: P, k: usize, p: P| closes.requires((q, k, p)),
            inside.ensures((seed,), true),
            step_idx <= max_steps,
            path.len() == step_idx + 1,
            path@[0] == seed,
            current == path@[step_idx as int],
            steps_along(*step, path@),
            close_on_loop ==> declined_before(*closes, seed, path@, path.len() as int),
        decreases max_steps - step_idx,
    {
        match step(current) {
            None => {
                return (path, false);
            },
            Some(next) => {
                let ghost old_path = path@;
                path.push(next);
                proof {
                    assert forall|k: int| 0 <= k < path@.len() - 1 implies #[trigger] stepped_at(
                        *step,
                        path@,
                        k,
                    ) by {
                        if k < old_path.len() - 1 {
                            assert(stepped_at(*step, old_path, k));
                        }
                    }
                }
                if close_on_loop && closes(seed, step_idx, next) {
                    proof {
                        assert forall|k: int| 1 <= k < path@.len() - 1 implies #[trigger] declined_at(
                            *closes,
                            seed,
                            path@,
                            k,
                        ) by {
                            assert(declined_at(*closes, seed, old_path, k));
                        }
                    }
                    let ghost traj = path@;
                    path.push(seed);
                    assert(path@.drop_last() =~= traj);
                    return (path, true);
                }
                proof {
                    if close_on_loop {
                        assert forall|k: int| 1 <= k < path@.len() implies #[trigger] declined_at(
                            *closes,
                            seed,
                            path@,
                            k,
                        ) by {
                            if k < old_path.len() {
                                assert(declined_at(*closes, seed, old_path, k));
                            }
                        }
                    }
                }
                current = next;
                step_idx = step_idx + 1;
            },
        }
    }
    (path, false)
}

/// Traces a path from `seed` without the closed-loop rule: empty if
/// `inside` rejects the seed, else the seed and the points of up to
/// `max_steps` successive steps, stopping at the first step that fails.
pub fn trace<P: Copy, I, S>(seed: P, inside: &I, step: &S, max_steps: usize) -> (path: Vec<P>) where
    I: Fn(P) -> bool,
    S: Fn(P) -> Option<P>,

    requires
        inside.requires((seed,)),
        forall|p: P| step.requires((p,)),
    ensures
        traced_open(*inside, *step, seed, max_steps as int, path@),
{
    let never = |_q: P, _k: usize, _p: P| -> (b: bool)
        ensures
            !b,
        { false };
    let (path, closed) = trace_until_close(seed, inside, step, max_steps, false, &never);
    proof {
        if closed {
            assert(false);
        }
    }
    path
}

/// A trace reported closed is a loop: it holds at least three points and
/// its last point is the seed it started from.
pub proof fn lemma_closed_trace_is_loop<
    P,
    I: Fn(P) -> bool,
    S: Fn(P) -> Option<P>,
    C: Fn(P, usize, P) -> bool,
>(
    inside: I,
    step: S,
    closes: C,
    seed: P,
    max_steps: int,
    close_on_loop: bool,
    path: Seq<P>,
)
    requires
        traced(inside, step, closes, seed, max_steps, close_on_loop, path, true),
    ensures
        close_on_loop,
        path.len() >= 3,
        path[0] == seed,
        path.last() == seed,
{
    assert(path.drop_last()[0] == path[0]);
}

/// With the closed-loop rule switched off, a trace is never reported
/// closed and gives exactly the paths of a plain trace, whatever `closes`
/// would have answered.
pub proof fn lemma_trace_without_closing<
    P,
    I: Fn(P) -> bool,
    S: Fn(P) -> Option<P>,
    C: Fn(P, usize, P) -> bool,
>(inside: I, step: S, closes: C, seed: P, max_steps: int, path: Seq<P>, closed: bool)
    ensures
        traced(inside, step, closes, seed, max_steps, false, path, closed) <==> (!closed
            && traced_open(inside, step, seed, max_steps, path)),
{
}

/// `inside` gives one answer per point.
pub open spec fn test_is_deterministic<P, I: Fn(P) -> bool>(inside: I) -> bool {
    forall|p: P, a: bool, b: bool|
        #[trigger] inside.ensures((p,), a) && #[trigger] inside.ensures((p,), b) ==> a == b
}

/// `step` gives one result per point.
pub open spec fn step_is_deterministic<P, S: Fn(P) -> Option<P>>(step: S) -> bool {
    forall|p: P, a: Option<P>, b: Option<P>|
        #[trigger] step.ensures((p,), a) && #[trigger] step.ensures((p,), b) ==> a == b
}

/// `closes` gives one answer per seed, step index and point.
pub open spec fn closing_is_deterministic<P, C: Fn(P, usize, P) -> bool>(closes: C) -> bool {
    forall|q: P, k: usize, p: P, a: bool, b: bool|
        #[trigger] closes.ensures((q, k, p), a) && #[trigger] closes.ensures((q, k, p), b) ==> a
            == b
}

/// Two step chains from one start agree wherever both are defined.
proof fn lemma_chains_agree<P, S: Fn(P) -> Option<P>>(step: S, a: Seq<P>, b: Seq<P>, k: int)
    requires
        step_is_deterministic(step),
        steps_along(step, a),
        steps_along(step, b),
        a.len() > 0,
        b.len() > 0,
        a[0] == b[0],
        0 <= k < a.len(),
        k < b.len(),
    ensures
        a[k] == b[k],
    decreases k,
{
    if k > 0 {
        lemma_chains_agree(step, a, b, k - 1);
        assert(stepped_at(step, a, k - 1));
        assert(stepped_at(step, b, k - 1));
    }
}

/// With deterministic `inside` and `step`, raising the step budget only
/// extends a plain trace: the trace with budget `m` is the first
/// `m + 1` points (or all) of the trace with budget `n >= m`.
pub proof fn lemma_open_trace_extends<P, I: Fn(P) -> bool, S: Fn(P) -> Option<P>>(
    inside: I,
    step: S,
    seed: P,
    m: int,
    n: int,
    a: Seq<P>,
    b: Seq<P>,
)
    requires
        test_is_deterministic(inside),
        step_is_deterministic(step),
        0 <= m <= n,
        traced_open(inside, step, seed, m, a),
        traced_open(inside, step, seed, n, b),
    ensures
        a == b.take(if m + 1 < b.len() { m + 1 } else { b.len() as int }),
{
    let bound = if m + 1 < b.len() { m + 1 } else { b.len() as int };
    if a.len() == 0 {
        assert(b.len() == 0);
        assert(a =~= b.take(bound));
    } else {
        assert(b.len() > 0);
        if a.len() < b.len() && a.len() < m + 1 {
            let k = a.len() - 1;
            lemma_chains_agree(step, a, b, k);
            assert(stepped_at(step, b, k));
            assert(false);
        }
        if b.len() < a.len() {
            let k = b.len() - 1;
            lemma_chains_agree(step, a, b, k);
            assert(stepped_at(step, a, k));
            assert(false);
        }
        assert(a.len() == bound);
        assert forall|k: int| 0 <= k < a.len() implies a[k] == b.take(bound)[k] by {
            lemma_chains_agree(step, a, b, k);
        }
        assert(a =~= b.take(bound));
    }
}

/// With deterministic `inside` and `step`, a plain trace is a function of
/// its inputs: two traces from one seed with one budget are equal.
pub proof fn lemma_open_trace_unique<P, I: Fn(P) -> bool, S: Fn(P) -> Option<P>>(
    inside: I,
    step: S,
    seed: P,
    max_steps: int,
    a: Seq<P>,
    b: Seq<P>,
)
    requires
        test_is_deterministic(inside),
        step_is_deterministic(step),
        0 <= max_steps,
        traced_open(inside, step, seed, max_steps, a),
        traced_open(inside, step, seed, max_steps, b),
    ensures
        a == b,
{
    lemma_open_trace_extends(inside, step, seed, max_steps, max_steps, a, b);
    assert(b.take(b.len() as int) =~= b);
}

/// Of two closing traces from one seed with deterministic closures, the
/// trajectory of neither is shorter than the other's.
proof fn lemma_closing_no_shorter<
    P,
    I: Fn(P) -> bool,
    S: Fn(P) -> Option<P>,
    C: Fn(P, usize, P) -> bool,
>(
    inside: I,
    step: S,
    closes: C,
    seed: P,
    max_steps: int,
    close_on_loop: bool,
    p1: Seq<P>,
    c1: bool,
    p2: Seq<P>,
    c2: bool,
)
    requires
        step_is_deterministic(step),
        closing_is_deterministic(closes),
        traced(inside, step, closes, seed, max_steps, close_on_loop, p1, c1),
        traced(inside, step, closes, seed, max_steps, close_on_loop, p2, c2),
        p1.len() > 0,
        p2.len() > 0,
    ensures
        (if c1 { p1.drop_last() } else { p1 }).len() >= (if c2 { p2.drop_last() } else { p2 }).len(),
{
    let t1 = if c1 { p1.drop_last() } else { p1 };
    let t2 = if c2 { p2.drop_last() } else { p2 };
    if t1.len() < t2.len() {
        let k = t1.len() - 1;
        lemma_chains_agree(step, t1, t2, k);
        if c1 {
            assert(declined_at(closes, seed, t2, k));
            assert(false);
        } else {
            assert(stepped_at(step, t2, k));
            assert(false);
        }
    }
}

/// With deterministic closures, a trace with the closed-loop rule is a
/// function of its inputs: two such traces from one seed with one budget
/// give the same path and the same closed flag.
pub proof fn lemma_closing_trace_unique<
    P,
    I: Fn(P) -> bool,
    S: Fn(P) -> Option<P>,
    C: Fn(P, usize, P) -> bool,
>(
    inside: I,
    step: S,
    closes: C,
    seed: P,
    max_steps: int,
    close_on_loop: bool,
    p1: Seq<P>,
    c1: bool,
    p2: Seq<P>,
    c2: bool,
)
    requires
        test_is_deterministic(inside),
        step_is_deterministic(step),
        closing_is_deterministic(closes),
        traced(inside, step, closes, seed, max_steps, close_on_loop, p1, c1),
        traced(inside, step, closes, seed, max_steps, close_on_loop, p2, c2),
    ensures
        p1 == p2,
        c1 == c2,
{
    if p1.len() == 0 {
        assert(p2.len() == 0);
    } else {
        assert(p2.len() > 0);
        lemma_closing_no_shorter(inside, step, closes, seed, max_steps, close_on_loop, p1, c1, p2, c2);
        lemma_closing_no_shorter(inside, step, closes, seed, max_steps, close_on_loop, p2, c2, p1, c1);
        let t1 = if c1 { p1.drop_last() } else { p1 };
        let t2 = if c2 { p2.drop_last() } else { p2 };
        assert forall|k: int| 0 <= k < t1.len() implies t1[k] == t2[k] by {
            lemma_chains_agree(step, t1, t2, k);
        }
        assert(t1 =~= t2);
        if c1 && !c2 {
            assert(declined_at(closes, seed, t2, t2.len() - 1));
            assert(false);
        }
        if c2 && !c1 {
            assert(declined_at(closes, seed, t1, t1.len() - 1));
            assert(false);
        }
        if c1 {
            assert(p1 =~= t1.push(seed));
            assert(p2 =~= t2.push(seed));
        }
    }
}

/// With deterministic `inside` and `step`, a trace with the closed-loop
/// rule switched off is the plain trace, whatever `closes` would answer.
pub proof fn lemma_trace_without_closing_is_plain<
    P,
    I: Fn(P) -> bool,
    S: Fn(P) -> Option<P>,
    C: Fn(P, usize, P) -> bool,
>(
    inside: I,
    step: S,
    closes: C,
    seed: P,
    max_steps: int,
    p1: Seq<P>,
    c1: bool,
    p2: Seq<P>,
)
    requires
        test_is_deterministic(inside),
        step_is_deterministic(step),
        0 <= max_steps,
        traced(inside, step, closes, seed, max_steps, false, p1, c1),
        traced_open(inside, step, seed, max_steps, p2),
    ensures
        p1 == p2,
        !c1,
{
    lemma_trace_without_closing(inside, step, closes, seed, max_steps, p1, c1);
    lemma_open_trace_unique(inside, step, seed, max_steps, p1, p2);
}

} // verus!
