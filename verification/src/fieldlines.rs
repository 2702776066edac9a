use vstd::prelude::*;
use crate::trace::{
    closing_is_deterministic, lemma_closed_trace_is_loop, lemma_closing_trace_unique,
    lemma_open_trace_unique, lemma_trace_without_closing, step_is_deterministic,
    test_is_deterministic, trace, trace_until_close, traced, traced_open,
};

verus! {

/// Number of integration steps per trace when the caller names none.
pub const DEFAULT_MAX_STEPS: usize = 16384;

/// Why a field-line request is refused before any tracing.
#[derive(Debug, Clone, Copy, PartialEq, Eq, Structural)]
pub enum FieldlineError {
    /// One of the coordinate axes has fewer than two points.
    TooFewAxisPoints,
    /// No footpoints were given.
    MissingFootpoints,
    /// The footpoint coordinate lists differ in length.
    FootpointLengthMismatch,
    /// A field component does not hold one sample per grid node.
    FieldLengthMismatch { bx_len: usize, by_len: usize, nx: usize, ny: usize },
}

impl FieldlineError {
    /// The message that goes with the error; for a field length mismatch,
    /// the part before the reported lengths.
    pub fn message(&self) -> (m: &'static str)
        ensures
            *self == FieldlineError::TooFewAxisPoints ==> m@
                == "x1 and x2 must each contain at least 2 points"@,
            *self == FieldlineError::MissingFootpoints ==> m@
                == "Footpoints not provided. Please provide x0 and y0."@,
            *self == FieldlineError::FootpointLengthMismatch ==> m@
                == "x0 and y0 must have the same length"@,
            *self is FieldLengthMismatch ==> m@ == "Field arrays must have length nx * ny"@,
    {
        match self {
            FieldlineError::TooFewAxisPoints => "x1 and x2 must each contain at least 2 points",
            FieldlineError::MissingFootpoints => "Footpoints not provided. Please provide x0 and y0.",
            FieldlineError::FootpointLengthMismatch => "x0 and y0 must have the same length",
            FieldlineError::FieldLengthMismatch { .. } => "Field arrays must have length nx * ny",
        }
    }
}

/// Both coordinate axes need at least two points.
pub fn check_axes(nx: usize, ny: usize) -> (r: Result<(), FieldlineError>)
    ensures
        r == (if nx < 2 || ny < 2 {
            Err::<(), FieldlineError>(FieldlineError::TooFewAxisPoints)
        } else {
            Ok(())
        }),
{
    if nx < 2 || ny < 2 {
        Err(FieldlineError::TooFewAxisPoints)
    } else {
        Ok(())
    }
}

/// Pairs the footpoint coordinates into seeds: both lists must be given
/// (else `MissingFootpoints`) and of one length (else
/// `FootpointLengthMismatch`); seed `i` is `(x0[i], y0[i])`.
pub fn pair_footpoints<T: Copy>(x0: Option<Vec<T>>, y0: Option<Vec<T>>) -> (r: Result<
    Vec<(T, T)>,
    FieldlineError,
>)
    ensures
        (x0 is None || y0 is None) ==> r == Err::<Vec<(T, T)>, FieldlineError>(
            FieldlineError::MissingFootpoints,
        ),
        (x0 is Some && y0 is Some && x0->0.len() != y0->0.len()) ==> r == Err::<
            Vec<(T, T)>,
            FieldlineError,
        >(FieldlineError::FootpointLengthMismatch),
        (x0 is Some && y0 is Some && x0->0.len() == y0->0.len()) ==> r is Ok && r->Ok_0.len()
            == x0->0.len() && (forall|i: int|
            0 <= i < x0->0.len() ==> #[trigger] r->Ok_0@[i] == (x0->0@[i], y0->0@[i])),
{
    let xs = match x0 {
        Some(v) => v,
        None => return Err(FieldlineError::MissingFootpoints),
    };
    let ys = match y0 {
        Some(v) => v,
        None => return Err(FieldlineError::MissingFootpoints),
    };
    if xs.len() != ys.len() {
        return Err(FieldlineError::FootpointLengthMismatch);
    }
    let mut seeds: Vec<(T, T)> = Vec::new();
    let n = xs.len();
    for i in 0..n
        invariant
            n == xs.len(),
            n == ys.len(),
            seeds.len() == i,
            forall|k: int| 0 <= k < i ==> #[trigger] seeds@[k] == (xs@[k], ys@[k]),
    {
        seeds.push((xs[i], ys[i]));
    }
    Ok(seeds)
}

/// Each field component holds one sample per node of the `nx` by `ny` grid.
pub fn check_field_lengths(nx: usize, ny: usize, bx_len: usize, by_len: usize) -> (r: Result<
    (),
    FieldlineError,
>)
    ensures
        r == (if bx_len != nx * ny || by_len != nx * ny {
            Err::<(), FieldlineError>(
                FieldlineError::FieldLengthMismatch { bx_len, by_len, nx, ny },
            )
        } else {
            Ok(())
        }),
{
    let fits = match nx.checked_mul(ny) {
        Some(n) => bx_len == n && by_len == n,
        None => false,
    };
    if fits {
        Ok(())
    } else {
        Err(FieldlineError::FieldLengthMismatch { bx_len, by_len, nx, ny })
    }
}

/// The number of steps and the closed-loop switch, with their defaults:
/// `DEFAULT_MAX_STEPS` steps, and closing on.
pub fn integration_defaults(numsteps: Option<usize>, close: Option<bool>) -> (r: (usize, bool))
    ensures
        r.0 == (match numsteps {
            Some(n) => n,
            None => DEFAULT_MAX_STEPS,
        }),
        r.1 == (match close {
            Some(c) => c,
            None => true,
        }),
{
    let max_steps = match numsteps {
        Some(n) => n,
        None => DEFAULT_MAX_STEPS,
    };
    let close_on_loop = match close {
        Some(c) => c,
        None => true,
    };
    (max_steps, close_on_loop)
}

/// The line made of a backward and a forward trace from one seed: the
/// backward trace read from its far end back to the seed, then the forward
/// trace after the seed.
pub open spec fn joined<P>(backward: Seq<P>, forward: Seq<P>) -> Seq<P> {
    backward.reverse() + (if forward.len() == 0 {
        Seq::empty()
    } else {
        forward.drop_first()
    })
}

/// A field line runs from the far end of the backward trace through the
/// seed to the far end of the forward trace: going back from the seed's
/// slot one reads the backward trace, going on from it the forward trace.
pub proof fn lemma_joined_through_seed<P>(backward: Seq<P>, forward: Seq<P>)
    requires
        backward.len() >= 1,
        forward.len() >= 1,
        backward[0] == forward[0],
    ensures
        joined(backward, forward).len() == backward.len() + forward.len() - 1,
        forall|k: int|
            0 <= k < backward.len() ==> joined(backward, forward)[backward.len() - 1 - k]
                == #[trigger] backward[k],
        forall|k: int|
            0 <= k < forward.len() ==> joined(backward, forward)[backward.len() - 1 + k]
                == #[trigger] forward[k],
{
    let line = joined(backward, forward);
    let n = backward.len();
    assert forall|k: int| 0 <= k < forward.len() implies line[n - 1 + k] == #[trigger] forward[k] by {
        if k == 0 {
            assert(line[n - 1] == backward[0]);
        } else {
            assert(line[n - 1 + k] == forward.drop_first()[k - 1]);
        }
    }
}

/// Joins a backward and a forward trace from one seed into a line.
pub fn join_line<P: Copy>(backward: &Vec<P>, forward: &Vec<P>) -> (line: Vec<P>)
    ensures
        line@ == joined(backward@, forward@),
{
    let blen = backward.len();
    let mut line: Vec<P> = Vec::new();
    let mut i: usize = blen;
    while i > 0
        invariant
            blen == backward.len(),
            i <= blen,
            line.len() == blen - i,
            forall|k: int| 0 <= k < line.len() ==> line@[k] == backward@[blen - 1 - k],
        decreases i,
    {
        i = i - 1;
        line.push(backward[i]);
    }
    assert(line@ =~= backward@.reverse());
    let flen = forward.len();
    let mut j: usize = 1;
    while j < flen
        invariant
            blen == backward.len(),
            flen == forward.len(),
            1 <= j,
            j <= flen || j == 1,
            line.len() == blen + j - 1,
            forall|k: int| 0 <= k < blen ==> line@[k] == backward@.reverse()[k],
            forall|k: int| blen <= k < line.len() ==> line@[k] == forward@[k - blen + 1],
        decreases flen - j,
    {
        line.push(forward[j]);
        j = j + 1;
    }
    proof {
        let tail: Seq<P> = if flen == 0 {
            Seq::empty()
        } else {
            forward@.drop_first()
        };
        if flen == 0 {
            assert(line.len() == blen);
        } else {
            assert(j == flen);
            assert(tail.len() == flen - 1);
        }
        assert(line.len() == blen + tail.len());
        assert forall|k: int| blen <= k < line.len() implies line@[k] == tail[k - blen] by {
            assert(tail[k - blen] == forward@[k - blen + 1]);
        }
        assert(line@ =~= backward@.reverse() + tail);
    }
    line
}

/// `line` is what a field line from `seed` comes to: the forward trace
/// (with the closed-loop rule) when it closed on itself after more than
/// two points; else the joined backward and forward traces (the backward
/// one without the rule) when they hold more than one point; else nothing.
pub open spec fn field_line_from<
    P,
    I: Fn(P) -> bool,
    S: Fn(P) -> Option<P>,
    B: Fn(P) -> Option<P>,
    C: Fn(P, usize, P) -> bool,
>(
    inside: I,
    forward: S,
    backward: B,
    closes: C,
    seed: P,
    max_steps: int,
    close_on_loop: bool,
    line: Option<Seq<P>>,
) -> bool {
    exists|fwd: Seq<P>, closed: bool|
        #[trigger] traced(inside, forward, closes, seed, max_steps, close_on_loop, fwd, closed) && if closed
            && fwd.len() > 2 {
            line == Some(fwd)
        } else {
            exists|bwd: Seq<P>|
                #[trigger] traced_open(inside, backward, seed, max_steps, bwd) && line == (if joined(
                    bwd,
                    fwd,
                ).len() > 1 {
                    Some(joined(bwd, fwd))
                } else {
                    None
                })
        }
}

/// With the closed-loop rule switched off and deterministic `inside`,
/// `forward` and `backward`, the field line through `seed` is the plain
/// backward trace joined to the plain forward trace (dropped when it has
/// fewer than two points), whatever `closes` would answer.
pub proof fn lemma_field_line_without_closing<
    P,
    I: Fn(P) -> bool,
    S: Fn(P) -> Option<P>,
    B: Fn(P) -> Option<P>,
    C: Fn(P, usize, P) -> bool,
>(
    inside: I,
    forward: S,
    backward: B,
    closes: C,
    seed: P,
    max_steps: int,
    line: Option<Seq<P>>,
    fwd: Seq<P>,
    bwd: Seq<P>,
)
    requires
        test_is_deterministic(inside),
        step_is_deterministic(forward),
        step_is_deterministic(backward),
        0 <= max_steps,
        field_line_from(inside, forward, backward, closes, seed, max_steps, false, line),
        traced_open(inside, forward, seed, max_steps, fwd),
        traced_open(inside, backward, seed, max_steps, bwd),
    ensures
        line == (if joined(bwd, fwd).len() > 1 {
            Some(joined(bwd, fwd))
        } else {
            None
        }),
{
    let (f, c) = choose|f: Seq<P>, c: bool|
        #[trigger] traced(inside, forward, closes, seed, max_steps, false, f, c) && if c && f.len()
            > 2 {
            line == Some(f)
        } else {
            exists|b: Seq<P>|
                #[trigger] traced_open(inside, backward, seed, max_steps, b) && line == (if joined(
                    b,
                    f,
                ).len() > 1 {
                    Some(joined(b, f))
                } else {
                    None
                })
        };
    lemma_trace_without_closing(inside, forward, closes, seed, max_steps, f, c);
    lemma_open_trace_unique(inside, forward, seed, max_steps, f, fwd);
    let b = choose|b: Seq<P>|
        #[trigger] traced_open(inside, backward, seed, max_steps, b) && line == (if joined(
            b,
            f,
        ).len() > 1 {
            Some(joined(b, f))
        } else {
            None
        });
    lemma_open_trace_unique(inside, backward, seed, max_steps, b, bwd);
}

/// The view of an optional line.
pub open spec fn line_view<P>(line: Option<Vec<P>>) -> Option<Seq<P>> {
    match line {
        Some(v) => Some(v@),
        None => None,
    }
}

/// Traces the field line through `seed`: forward with `forward` steps and
/// the closed-loop rule; if that did not close a loop of more than two
/// points, backward with `backward` steps, and the two are joined. A line
/// of fewer than two points is dropped.
pub fn field_line<P: Copy, I, S, B, C>(
    seed: P,
    inside: &I,
    forward: &S,
    backward: &B,
    max_steps: usize,
    close_on_loop: bool,
    closes: &C,
) -> (line: Option<Vec<P>>) where
    I: Fn(P) -> bool,
    S: Fn(P) -> Option<P>,
    B: Fn(P) -> Option<P>,
    C: Fn(P, usize, P) -> bool,

    requires
        inside.requires((seed,)),
        forall|p: P| forward.requires((p,)),
        forall|p: P| backward.requires((p,)),
        forall|q: P, k: usize, p: P| closes.requires((q, k, p)),
    ensures
        field_line_from(
            *inside,
            *forward,
            *backward,
            *closes,
            seed,
            max_steps as int,
            close_on_loop,
            line_view(line),
        ),
{
    let (fwd, closed) = trace_until_close(seed, inside, forward, max_steps, close_on_loop, closes);
    if closed && fwd.len() > 2 {
        return Some(fwd);
    }
    let bwd = trace(seed, inside, backward, max_steps);
    let line = join_line(&bwd, &fwd);
    if line.len() > 1 {
        Some(line)
    } else {
        None
    }
}

/// The lines that were kept, in order, from one optional line per seed.
pub open spec fn kept_lines<P>(outs: Seq<Option<Seq<P>>>) -> Seq<Seq<P>>
    decreases outs.len(),
{
    if outs.len() == 0 {
        Seq::empty()
    } else {
        let rest = kept_lines(outs.drop_last());
        match outs.last() {
            Some(l) => rest.push(l),
            None => rest,
        }
    }
}

/// `lines` are the field lines through `seeds`, in the order of the seeds,
/// with the seeds that gave no line skipped.
pub open spec fn lines_from<
    P,
    I: Fn(P) -> bool,
    S: Fn(P) -> Option<P>,
    B: Fn(P) -> Option<P>,
    C: Fn(P, usize, P) -> bool,
>(
    inside: I,
    forward: S,
    backward: B,
    closes: C,
    seeds: Seq<P>,
    max_steps: int,
    close_on_loop: bool,
    lines: Seq<Seq<P>>,
) -> bool {
    exists|outs: Seq<Option<Seq<P>>>|
        #![trigger kept_lines(outs)]
        outs.len() == seeds.len() && (forall|i: int|
            0 <= i < seeds.len() ==> #[trigger] field_line_from(
                inside,
                forward,
                backward,
                closes,
                seeds[i],
                max_steps,
                close_on_loop,
                outs[i],
            )) && lines == kept_lines(outs)
}

/// The views of a list of lines.
pub open spec fn lines_view<P>(lines: Seq<Vec<P>>) -> Seq<Seq<P>> {
    lines.map_values(|v: Vec<P>| v@)
}

/// Traces the field line through each seed in turn (see `field_line`) and
/// keeps the lines that were found, in the order of the seeds.
pub fn find_lines<P: Copy, I, S, B, C>(
    seeds: &Vec<P>,
    inside: &I,
    forward: &S,
    backward: &B,
    max_steps: usize,
    close_on_loop: bool,
    closes: &C,
) -> (lines: Vec<Vec<P>>) where
    I: Fn(P) -> bool,
    S: Fn(P) -> Option<P>,
    B: Fn(P) -> Option<P>,
    C: Fn(P, usize, P) -> bool,

    requires
        forall|p: P| inside.requires((p,)),
        forall|p: P| forward.requires((p,)),
        forall|p: P| backward.requires((p,)),
        forall|q: P, k: usize, p: P| closes.requires((q, k, p)),
    ensures
        lines_from(
            *inside,
            *forward,
            *backward,
            *closes,
            seeds@,
            max_steps as int,
            close_on_loop,
            lines_view(lines@),
        ),
{
    let mut lines: Vec<Vec<P>> = Vec::new();
    let ghost mut outs: Seq<Option<Seq<P>>> = Seq::empty();
    let n = seeds.len();
    for i in 0..n
        invariant
            n == seeds.len(),
            forall|p: P| inside.requires((p,)),
            forall|p: P| forward.requires((p,)),
            forall|p: P| backward.requires((p,)),
            forall|q: P, k: usize, p: P| closes.requires((q, k, p)),
            outs.len() == i,
            forall|j: int|
                0 <= j < i ==> #[trigger] field_line_from(
                    *inside,
                    *forward,
                    *backward,
                    *closes,
                    seeds@[j],
                    max_steps as int,
                    close_on_loop,
                    outs[j],
                ),
            lines_view(lines@) == kept_lines(outs),
    {
        let found = field_line(seeds[i], inside, forward, backward, max_steps, close_on_loop, closes);
        let ghost out = line_view(found);
        let ghost prev = outs;
        proof {
            outs = outs.push(out);
            assert(outs.drop_last() =~= prev);
        }
        match found {
            Some(line) => {
                lines.push(line);
                assert(lines_view(lines@) =~= kept_lines(prev).push(out->0));
            },
            None => {},
        }
    }
    lines
}

/// A forward trace that closes a loop of more than two points is the
/// whole field line: the loop, ending at the seed, with nothing of the
/// backward trace before it.
pub proof fn lemma_closed_loop_is_the_line<
    P,
    I: Fn(P) -> bool,
    S: Fn(P) -> Option<P>,
    B: Fn(P) -> Option<P>,
    C: Fn(P, usize, P) -> bool,
>(
    inside: I,
    forward: S,
    backward: B,
    closes: C,
    seed: P,
    max_steps: int,
    close_on_loop: bool,
    line: Option<Seq<P>>,
    fwd: Seq<P>,
)
    requires
        test_is_deterministic(inside),
        step_is_deterministic(forward),
        step_is_deterministic(backward),
        closing_is_deterministic(closes),
        0 <= max_steps,
        field_line_from(inside, forward, backward, closes, seed, max_steps, close_on_loop, line),
        traced(inside, forward, closes, seed, max_steps, close_on_loop, fwd, true),
        fwd.len() > 2,
    ensures
        line == Some(fwd),
        fwd[0] == seed,
        fwd.last() == seed,
{
    let (f, c) = choose|f: Seq<P>, c: bool|
        #[trigger] traced(inside, forward, closes, seed, max_steps, close_on_loop, f, c) && if c
            && f.len() > 2 {
            line == Some(f)
        } else {
            exists|b: Seq<P>|
                #[trigger] traced_open(inside, backward, seed, max_steps, b) && line == (if joined(
                    b,
                    f,
                ).len() > 1 {
                    Some(joined(b, f))
                } else {
                    None
                })
        };
    lemma_closing_trace_unique(
        inside,
        forward,
        closes,
        seed,
        max_steps,
        close_on_loop,
        f,
        c,
        fwd,
        true,
    );
    lemma_closed_trace_is_loop(inside, forward, closes, seed, max_steps, close_on_loop, fwd);
}

/// A forward trace that did not close, whether loop closing is on or off
/// and however much of the step budget it used, is joined with the
/// backward trace: the line is the backward trace reversed, then the
/// forward trace after the seed, `len(bwd) + len(fwd) - 1` points, kept
/// when that is more than one; a seed outside the grid gives no line.
pub proof fn lemma_open_forward_joins_backward<
    P,
    I: Fn(P) -> bool,
    S: Fn(P) -> Option<P>,
    B: Fn(P) -> Option<P>,
    C: Fn(P, usize, P) -> bool,
>(
    inside: I,
    forward: S,
    backward: B,
    closes: C,
    seed: P,
    max_steps: int,
    close_on_loop: bool,
    line: Option<Seq<P>>,
    fwd: Seq<P>,
    bwd: Seq<P>,
)
    requires
        test_is_deterministic(inside),
        step_is_deterministic(forward),
        step_is_deterministic(backward),
        closing_is_deterministic(closes),
        0 <= max_steps,
        field_line_from(inside, forward, backward, closes, seed, max_steps, close_on_loop, line),
        traced(inside, forward, closes, seed, max_steps, close_on_loop, fwd, false),
        traced_open(inside, backward, seed, max_steps, bwd),
    ensures
        fwd.len() == 0 ==> line == None::<Seq<P>>,
        fwd.len() > 0 && bwd.len() + fwd.len() > 2 ==> line == Some(
            bwd.reverse() + fwd.subrange(1, fwd.len() as int),
        ),
        fwd.len() > 0 && bwd.len() + fwd.len() > 2 ==> line->0.len() == bwd.len() + fwd.len()
            - 1,
        fwd.len() > 0 && bwd.len() + fwd.len() <= 2 ==> line == None::<Seq<P>>,
{
    let (f, c) = choose|f: Seq<P>, c: bool|
        #[trigger] traced(inside, forward, closes, seed, max_steps, close_on_loop, f, c) && if c
            && f.len() > 2 {
            line == Some(f)
        } else {
            exists|b: Seq<P>|
                #[trigger] traced_open(inside, backward, seed, max_steps, b) && line == (if joined(
                    b,
                    f,
                ).len() > 1 {
                    Some(joined(b, f))
                } else {
                    None
                })
        };
    lemma_closing_trace_unique(
        inside,
        forward,
        closes,
        seed,
        max_steps,
        close_on_loop,
        f,
        c,
        fwd,
        false,
    );
    let b = choose|b: Seq<P>|
        #[trigger] traced_open(inside, backward, seed, max_steps, b) && line == (if joined(
            b,
            f,
        ).len() > 1 {
            Some(joined(b, f))
        } else {
            None
        });
    lemma_open_trace_unique(inside, backward, seed, max_steps, b, bwd);
    if fwd.len() == 0 {
        assert(bwd.len() == 0);
        assert(joined(bwd, fwd).len() == 0);
    } else {
        assert(bwd.len() > 0);
        assert(bwd.reverse().len() == bwd.len());
        assert(joined(bwd, fwd) == bwd.reverse() + fwd.subrange(1, fwd.len() as int));
    }
}

/// With deterministic closures, a seed has one field line: two results
/// for one seed agree.
pub proof fn lemma_field_line_unique<
    P,
    I: Fn(P) -> bool,
    S: Fn(P) -> Option<P>,
    B: Fn(P) -> Option<P>,
    C: Fn(P, usize, P) -> bool,
>(
    inside: I,
    forward: S,
    backward: B,
    closes: C,
    seed: P,
    max_steps: int,
    close_on_loop: bool,
    l1: Option<Seq<P>>,
    l2: Option<Seq<P>>,
)
    requires
        test_is_deterministic(inside),
        step_is_deterministic(forward),
        step_is_deterministic(backward),
        closing_is_deterministic(closes),
        0 <= max_steps,
        field_line_from(inside, forward, backward, closes, seed, max_steps, close_on_loop, l1),
        field_line_from(inside, forward, backward, closes, seed, max_steps, close_on_loop, l2),
    ensures
        l1 == l2,
{
    let (f1, c1) = choose|f: Seq<P>, c: bool|
        #[trigger] traced(inside, forward, closes, seed, max_steps, close_on_loop, f, c) && if c
            && f.len() > 2 {
            l1 == Some(f)
        } else {
            exists|b: Seq<P>|
                #[trigger] traced_open(inside, backward, seed, max_steps, b) && l1 == (if joined(
                    b,
                    f,
                ).len() > 1 {
                    Some(joined(b, f))
                } else {
                    None
                })
        };
    let (f2, c2) = choose|f: Seq<P>, c: bool|
        #[trigger] traced(inside, forward, closes, seed, max_steps, close_on_loop, f, c) && if c
            && f.len() > 2 {
            l2 == Some(f)
        } else {
            exists|b: Seq<P>|
                #[trigger] traced_open(inside, backward, seed, max_steps, b) && l2 == (if joined(
                    b,
                    f,
                ).len() > 1 {
                    Some(joined(b, f))
                } else {
                    None
                })
        };
    lemma_closing_trace_unique(
        inside,
        forward,
        closes,
        seed,
        max_steps,
        close_on_loop,
        f1,
        c1,
        f2,
        c2,
    );
    if !(c1 && f1.len() > 2) {
        let b1 = choose|b: Seq<P>|
            #[trigger] traced_open(inside, backward, seed, max_steps, b) && l1 == (if joined(
                b,
                f1,
            ).len() > 1 {
                Some(joined(b, f1))
            } else {
                None
            });
        let b2 = choose|b: Seq<P>|
            #[trigger] traced_open(inside, backward, seed, max_steps, b) && l2 == (if joined(
                b,
                f2,
            ).len() > 1 {
                Some(joined(b, f2))
            } else {
                None
            });
        lemma_open_trace_unique(inside, backward, seed, max_steps, b1, b2);
    }
}

/// No seeds, no lines.
pub proof fn lemma_no_seeds_no_lines<
    P,
    I: Fn(P) -> bool,
    S: Fn(P) -> Option<P>,
    B: Fn(P) -> Option<P>,
    C: Fn(P, usize, P) -> bool,
>(
    inside: I,
    forward: S,
    backward: B,
    closes: C,
    max_steps: int,
    close_on_loop: bool,
    lines: Seq<Seq<P>>,
)
    requires
        lines_from(inside, forward, backward, closes, Seq::empty(), max_steps, close_on_loop, lines),
    ensures
        lines.len() == 0,
{
    let outs = choose|outs: Seq<Option<Seq<P>>>|
        #![trigger kept_lines(outs)]
        outs.len() == 0 && (forall|i: int|
            0 <= i < 0 ==> #[trigger] field_line_from(
                inside,
                forward,
                backward,
                closes,
                Seq::<P>::empty()[i],
                max_steps,
                close_on_loop,
                outs[i],
            )) && lines == kept_lines(outs);
}

/// Adding a seed at the end adds its line, if it has one, at the end of
/// the lines and leaves the lines of the earlier seeds as they were, in
/// their order: the lines follow the order of the seeds.
pub proof fn lemma_lines_append_seed<
    P,
    I: Fn(P) -> bool,
    S: Fn(P) -> Option<P>,
    B: Fn(P) -> Option<P>,
    C: Fn(P, usize, P) -> bool,
>(
    inside: I,
    forward: S,
    backward: B,
    closes: C,
    seeds: Seq<P>,
    seed: P,
    max_steps: int,
    close_on_loop: bool,
    before: Seq<Seq<P>>,
    after: Seq<Seq<P>>,
    line: Option<Seq<P>>,
)
    requires
        test_is_deterministic(inside),
        step_is_deterministic(forward),
        step_is_deterministic(backward),
        closing_is_deterministic(closes),
        0 <= max_steps,
        lines_from(inside, forward, backward, closes, seeds, max_steps, close_on_loop, before),
        lines_from(
            inside,
            forward,
            backward,
            closes,
            seeds.push(seed),
            max_steps,
            close_on_loop,
            after,
        ),
        field_line_from(inside, forward, backward, closes, seed, max_steps, close_on_loop, line),
    ensures
        after == (match line {
            Some(l) => before.push(l),
            None => before,
        }),
{
    let more = seeds.push(seed);
    let oa = choose|outs: Seq<Option<Seq<P>>>|
        #![trigger kept_lines(outs)]
        outs.len() == seeds.len() && (forall|i: int|
            0 <= i < seeds.len() ==> #[trigger] field_line_from(
                inside,
                forward,
                backward,
                closes,
                seeds[i],
                max_steps,
                close_on_loop,
                outs[i],
            )) && before == kept_lines(outs);
    let ob = choose|outs: Seq<Option<Seq<P>>>|
        #![trigger kept_lines(outs)]
        outs.len() == more.len() && (forall|i: int|
            0 <= i < more.len() ==> #[trigger] field_line_from(
                inside,
                forward,
                backward,
                closes,
                more[i],
                max_steps,
                close_on_loop,
                outs[i],
            )) && after == kept_lines(outs);
    assert forall|i: int| 0 <= i < seeds.len() implies ob[i] == oa[i] by {
        assert(more[i] == seeds[i]);
        assert(field_line_from(
            inside,
            forward,
            backward,
            closes,
            more[i],
            max_steps,
            close_on_loop,
            ob[i],
        ));
        assert(field_line_from(
            inside,
            forward,
            backward,
            closes,
            seeds[i],
            max_steps,
            close_on_loop,
            oa[i],
        ));
        lemma_field_line_unique(
            inside,
            forward,
            backward,
            closes,
            seeds[i],
            max_steps,
            close_on_loop,
            ob[i],
            oa[i],
        );
    }
    assert(ob.drop_last() =~= oa);
    let n = seeds.len() as int;
    assert(more[n] == seed);
    assert(field_line_from(
        inside,
        forward,
        backward,
        closes,
        more[n],
        max_steps,
        close_on_loop,
        ob[n],
    ));
    lemma_field_line_unique(
        inside,
        forward,
        backward,
        closes,
        seed,
        max_steps,
        close_on_loop,
        ob[n],
        line,
    );
}

} // verus!
