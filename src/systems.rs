//! The three passes of a tick over the body registry, and the tick itself.
//!
//! A body is any `Copy` value; what a pass does to one body, or to one pair,
//! is a function handed in by the caller. The passes fix which bodies each
//! call sees and in which order the results are written back.
use vstd::prelude::*;
use crate::schedule::{ordered_pairs, ordered_schedule, unordered_pairs, unordered_schedule};
use crate::state::{pause_system, Paused};

verus! {

/// One gravity step: for the pair `(i, j)`, body `i` of `before` is pulled by
/// body `j` of `attractors`, and no other body changes.
pub open spec fn pulled<T, P: Fn(T, T) -> T>(
    pull: P,
    attractors: Seq<T>,
    before: Seq<T>,
    pair: (usize, usize),
    after: Seq<T>,
) -> bool {
    let i = pair.0 as int;
    let j = pair.1 as int;
    &&& after.len() == before.len()
    &&& call_ensures(pull, (before[i], attractors[j]), after[i])
    &&& forall|k: int| 0 <= k < before.len() && k != i ==> #[trigger] after[k] == before[k]
}

/// `trace` is the registry before and after each gravity step of `schedule`,
/// every attractor read from the registry as it was when the pass began.
pub open spec fn pulls_in_order<T, P: Fn(T, T) -> T>(
    pull: P,
    attractors: Seq<T>,
    schedule: Seq<(usize, usize)>,
    trace: Seq<Seq<T>>,
) -> bool {
    &&& trace.len() == schedule.len() + 1
    &&& forall|k: int|
        0 <= k < schedule.len() ==> pulled(pull, attractors, #[trigger] trace[k], schedule[k], trace[k + 1])
}

/// The gravity pass takes `before` to `after`: every body is pulled by every
/// other body, attractee by attractee in insertion order, each pull seeing the
/// attractors as they were before the pass.
pub open spec fn gravity_pass<T, P: Fn(T, T) -> T>(pull: P, before: Seq<T>, after: Seq<T>) -> bool {
    exists|trace: Seq<Seq<T>>|
        #[trigger] pulls_in_order(pull, before, ordered_schedule(before.len()), trace) && trace[0] == before
            && trace.last() == after
}

/// The integration pass takes `before` to `after`: each body is advanced on
/// its own.
pub open spec fn velocity_pass<T, A: Fn(T) -> T>(advance: A, before: Seq<T>, after: Seq<T>) -> bool {
    &&& after.len() == before.len()
    &&& forall|i: int| 0 <= i < before.len() ==> call_ensures(advance, (before[i],), #[trigger] after[i])
}

/// One collision step: the pair `(i, j)` of `before` is resolved into bodies
/// `i` and `j` of `after`, and no other body changes.
pub open spec fn pair_resolved<T, R: Fn(T, T) -> (T, T)>(
    resolve: R,
    before: Seq<T>,
    pair: (usize, usize),
    after: Seq<T>,
) -> bool {
    let i = pair.0 as int;
    let j = pair.1 as int;
    &&& after.len() == before.len()
    &&& call_ensures(resolve, (before[i], before[j]), (after[i], after[j]))
    &&& forall|k: int| 0 <= k < before.len() && k != i && k != j ==> #[trigger] after[k] == before[k]
}

/// `trace` is the registry before and after each collision step of
/// `schedule`, each step seeing what the steps before it wrote.
pub open spec fn resolves_in_order<T, R: Fn(T, T) -> (T, T)>(
    resolve: R,
    schedule: Seq<(usize, usize)>,
    trace: Seq<Seq<T>>,
) -> bool {
    &&& trace.len() == schedule.len() + 1
    &&& forall|k: int|
        0 <= k < schedule.len() ==> pair_resolved(resolve, #[trigger] trace[k], schedule[k], trace[k + 1])
}

/// The collision pass takes `before` to `after`: every unordered pair is
/// resolved once, in insertion order, one after the other.
pub open spec fn collision_pass<T, R: Fn(T, T) -> (T, T)>(resolve: R, before: Seq<T>, after: Seq<T>) -> bool {
    exists|trace: Seq<Seq<T>>|
        #[trigger] resolves_in_order(resolve, unordered_schedule(before.len()), trace) && trace[0] == before
            && trace.last() == after
}

/// An element-by-element copy of `bodies`.
fn copy_of<T: Copy>(bodies: &Vec<T>) -> (r: Vec<T>)
    ensures
        r@ == bodies@,
{
    let mut r: Vec<T> = Vec::new();
    let mut c: usize = 0;
    while c < bodies.len()
        invariant
            c <= bodies.len(),
            r@ == bodies@.take(c as int),
        decreases bodies.len() - c,
    {
        r.push(bodies[c]);
        proof {
            assert(bodies@.take(c + 1) =~= bodies@.take(c as int).push(bodies@[c as int]));
        }
        c += 1;
    }
    assert(r@ =~= bodies@);
    r
}

/// Gravity: every body is pulled by every other body. `pull(attractee,
/// attractor)` returns the attractee with its velocity changed; the attractor
/// is always read as it was when the pass began.
pub fn gravity_system<T: Copy, P: Fn(T, T) -> T>(bodies: &mut Vec<T>, pull: P)
    requires
        forall|a: T, b: T| call_requires(pull, (a, b)),
    ensures
        gravity_pass(pull, old(bodies)@, final(bodies)@),
{
    let n = bodies.len();
    let attractors = copy_of(bodies);
    let pairs = ordered_pairs(n);
    proof {
        crate::schedule::lemma_ordered_schedule(n);
    }
    let ghost mut trace: Seq<Seq<T>> = seq![bodies@];
    let mut k: usize = 0;
    while k < pairs.len()
        invariant
            forall|a: T, b: T| call_requires(pull, (a, b)),
            pairs@ == ordered_schedule(n as nat),
            forall|i: usize, j: usize| #[trigger] pairs@.contains((i, j)) <==> i < n && j < n && i != j,
            k <= pairs.len(),
            n == bodies.len(),
            attractors@ == old(bodies)@,
            attractors.len() == n,
            trace.len() == k + 1,
            trace[0] == old(bodies)@,
            trace[k as int] == bodies@,
            pulls_in_order(pull, attractors@, pairs@.take(k as int), trace),
        decreases pairs.len() - k,
    {
        let (i, j) = pairs[k];
        assert(pairs@.contains((i, j)));
        let moved = pull(bodies[i], attractors[j]);
        let ghost prev = bodies@;
        bodies.set(i, moved);
        proof {
            assert(pulled(pull, attractors@, prev, (i, j), bodies@));
            let t = trace.push(bodies@);
            assert forall|m: int| 0 <= m < k + 1 implies pulled(pull, attractors@, #[trigger] t[m], pairs@.take(k + 1)[m], t[m + 1]) by {
                if m < k {
                    assert(t[m] == trace[m] && t[m + 1] == trace[m + 1]);
                    assert(pairs@.take(k + 1)[m] == pairs@.take(k as int)[m]);
                }
            }
            trace = t;
        }
        k += 1;
    }
    assert(pairs@.take(k as int) =~= pairs@);
    assert(pulls_in_order(pull, old(bodies)@, ordered_schedule(old(bodies)@.len()), trace));
}

/// Integration: each body is advanced on its own by `advance`, which moves
/// its position by its velocity over the elapsed time.
pub fn velocity_system<T: Copy, A: Fn(T) -> T>(bodies: &mut Vec<T>, advance: A)
    requires
        forall|a: T| call_requires(advance, (a,)),
    ensures
        velocity_pass(advance, old(bodies)@, final(bodies)@),
{
    let n = bodies.len();
    let mut i: usize = 0;
    while i < n
        invariant
            forall|a: T| call_requires(advance, (a,)),
            i <= n,
            n == bodies.len(),
            forall|k: int| i <= k < n ==> bodies@[k] == old(bodies)@[k],
            forall|k: int| 0 <= k < i ==> call_ensures(advance, (old(bodies)@[k],), #[trigger] bodies@[k]),
        decreases n - i,
    {
        let moved = advance(bodies[i]);
        bodies.set(i, moved);
        i += 1;
    }
}

/// Collision: every unordered pair is handed to `resolve`, once, in insertion
/// order, and the two bodies it returns are written back before the next pair
/// is read.
pub fn collision_system<T: Copy, R: Fn(T, T) -> (T, T)>(bodies: &mut Vec<T>, resolve: R)
    requires
        forall|a: T, b: T| call_requires(resolve, (a, b)),
    ensures
        collision_pass(resolve, old(bodies)@, final(bodies)@),
{
    let n = bodies.len();
    let pairs = unordered_pairs(n);
    proof {
        crate::schedule::lemma_unordered_schedule(n);
    }
    let ghost mut trace: Seq<Seq<T>> = seq![bodies@];
    let mut k: usize = 0;
    while k < pairs.len()
        invariant
            forall|a: T, b: T| call_requires(resolve, (a, b)),
            pairs@ == unordered_schedule(n as nat),
            forall|i: usize, j: usize| #[trigger] pairs@.contains((i, j)) <==> i < j < n,
            k <= pairs.len(),
            n == bodies.len(),
            trace.len() == k + 1,
            trace[0] == old(bodies)@,
            trace[k as int] == bodies@,
            resolves_in_order(resolve, pairs@.take(k as int), trace),
        decreases pairs.len() - k,
    {
        let (i, j) = pairs[k];
        assert(pairs@.contains((i, j)));
        let (a, b) = resolve(bodies[i], bodies[j]);
        let ghost prev = bodies@;
        bodies.set(i, a);
        bodies.set(j, b);
        proof {
            assert(pair_resolved(resolve, prev, (i, j), bodies@));
            let t = trace.push(bodies@);
            assert forall|m: int| 0 <= m < k + 1 implies pair_resolved(resolve, #[trigger] t[m], pairs@.take(k + 1)[m], t[m + 1]) by {
                if m < k {
                    assert(t[m] == trace[m] && t[m + 1] == trace[m + 1]);
                    assert(pairs@.take(k + 1)[m] == pairs@.take(k as int)[m]);
                }
            }
            trace = t;
        }
        k += 1;
    }
    assert(pairs@.take(k as int) =~= pairs@);
    assert(resolves_in_order(resolve, unordered_schedule(old(bodies)@.len()), trace));
}

/// One tick takes the run state `mode` and the registry `before` to
/// `next_mode` and `after`: the toggle signal is applied first; then, if the
/// state is running, gravity, integration and collision run in that order,
/// each on what the one before produced; if it is paused, no body changes.
pub open spec fn tick_outcome<T, P: Fn(T, T) -> T, A: Fn(T) -> T, R: Fn(T, T) -> (T, T)>(
    pull: P,
    advance: A,
    resolve: R,
    mode: Paused,
    toggle: bool,
    before: Seq<T>,
    next_mode: Paused,
    after: Seq<T>,
) -> bool {
    &&& next_mode == (if toggle { mode.flipped() } else { mode })
    &&& if next_mode.0 {
        after == before
    } else {
        exists|g: Seq<T>, v: Seq<T>|
            #![trigger velocity_pass(advance, g, v)]
            gravity_pass(pull, before, g) && velocity_pass(advance, g, v) && collision_pass(resolve, v, after)
    }
}

/// Runs one tick: applies the toggle signal to `mode`, then, unless the
/// simulation is paused, runs the gravity, integration and collision passes
/// over `bodies` in that order.
pub fn physics_tick<T: Copy, P: Fn(T, T) -> T, A: Fn(T) -> T, R: Fn(T, T) -> (T, T)>(
    mode: &mut Paused,
    toggle: bool,
    bodies: &mut Vec<T>,
    pull: P,
    advance: A,
    resolve: R,
)
    requires
        forall|a: T, b: T| call_requires(pull, (a, b)),
        forall|a: T| call_requires(advance, (a,)),
        forall|a: T, b: T| call_requires(resolve, (a, b)),
    ensures
        tick_outcome(pull, advance, resolve, *old(mode), toggle, old(bodies)@, *final(mode), final(bodies)@),
{
    pause_system(mode, toggle);
    if mode.is_running() {
        gravity_system(bodies, pull);
        let ghost g = bodies@;
        velocity_system(bodies, advance);
        let ghost v = bodies@;
        collision_system(bodies, resolve);
        assert(velocity_pass(advance, g, v));
    }
}

/// A tick in the paused state without a toggle signal leaves every body as it
/// was, and the simulation paused.
pub proof fn lemma_paused_tick_freezes<T, P: Fn(T, T) -> T, A: Fn(T) -> T, R: Fn(T, T) -> (T, T)>(
    pull: P,
    advance: A,
    resolve: R,
    before: Seq<T>,
    next_mode: Paused,
    after: Seq<T>,
)
    requires
        tick_outcome(pull, advance, resolve, Paused(true), false, before, next_mode, after),
    ensures
        after == before,
        next_mode == Paused(true),
{
}

/// When every body attracts every other, each unordered pair `{i, j}` gives
/// two gravity contributions, one pulling `i` towards `j` and one pulling `j`
/// towards `i`, and neither is made twice.
pub proof fn lemma_gravity_pairs_both_ways(n: usize, i: usize, j: usize)
    requires
        i < n,
        j < n,
        i != j,
    ensures
        ordered_schedule(n as nat).contains((i, j)),
        ordered_schedule(n as nat).contains((j, i)),
        ordered_schedule(n as nat).no_duplicates(),
{
    crate::schedule::lemma_ordered_schedule(n);
    let s = ordered_schedule(n as nat);
    assert(s.contains((i, j)));
    assert(s.contains((j, i)));
    assert forall|a: int, b: int| 0 <= a < s.len() && 0 <= b < s.len() && a != b implies s[a] != s[b] by {
        if a < b {
            assert(crate::schedule::lex_lt(s[a], s[b]));
        } else {
            assert(crate::schedule::lex_lt(s[b], s[a]));
        }
    }
}

/// Collision resolution visits each unordered pair `{i, j}` of distinct
/// bodies once, as `(i, j)` with `i < j`.
pub proof fn lemma_collision_pairs_once(n: usize, i: usize, j: usize)
    requires
        i < j < n,
    ensures
        unordered_schedule(n as nat).contains((i, j)),
        !unordered_schedule(n as nat).contains((j, i)),
        unordered_schedule(n as nat).no_duplicates(),
{
    crate::schedule::lemma_unordered_schedule(n);
    let s = unordered_schedule(n as nat);
    assert(s.contains((i, j)));
    assert(!s.contains((j, i)));
    assert forall|a: int, b: int| 0 <= a < s.len() && 0 <= b < s.len() && a != b implies s[a] != s[b] by {
        if a < b {
            assert(crate::schedule::lex_lt(s[a], s[b]));
        } else {
            assert(crate::schedule::lex_lt(s[b], s[a]));
        }
    }
}

} // verus!
