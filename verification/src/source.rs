//! Sources of uniform random draws.
//!
//! A [`Sampler`](crate::Sampler) never owns a generator: every draw takes a
//! caller-supplied [`RandomSource`].  Two sources are provided here — a
//! deterministic one that replays a fixed script of values, and one backed
//! by the thread-local generator of the `rand` crate.

use vstd::prelude::*;

use rand::Rng;

verus! {

/// A caller-supplied source of uniform draws.
///
/// Each call hands back one value below the requested bound and advances
/// the draw count by one.  Nothing more is promised of the value itself:
/// the sampler's contracts hold for every possible outcome.  The draw
/// count is ghost bookkeeping that lets callers state exactly how much
/// randomness an operation consumed.
pub trait RandomSource {
    /// How many draws have been made from this source.
    spec fn draws(&self) -> nat;

    /// Draw the next value, in `[0, bound)`.
    fn next_below(&mut self, bound: u64) -> (r: u64)
        requires
            bound >= 1,
        ensures
            r < bound,
            final(self).draws() == old(self).draws() + 1,
    ;
}

/// A deterministic source that replays a fixed script of values, cycling
/// when the script is exhausted.  Draws depend only on the script and on
/// how many draws were made before, which makes runs repeatable.
pub struct ScriptedSource {
    values: Vec<u64>,
    cursor: usize,
    drawn: Ghost<nat>,
}

impl ScriptedSource {
    /// The script the source replays.
    pub closed spec fn script(&self) -> Seq<u64> {
        self.values@
    }

    /// The position in the script that the next draw reads.
    pub closed spec fn cursor(&self) -> int {
        self.cursor as int
    }

    /// The source is never out of script: the cursor stays in range.
    pub closed spec fn wf(&self) -> bool {
        &&& self.values@.len() > 0
        &&& (self.cursor as int) < self.values@.len()
    }

    /// Build a source from a script of values.  An empty script is replaced
    /// by the single value `0`, so that a draw is always possible.
    pub fn from_values(values: Vec<u64>) -> (s: Self)
        ensures
            s.wf(),
            s.script() == if values@.len() == 0 {
                seq![0u64]
            } else {
                values@
            },
            s.cursor() == 0,
            s.draws() == 0,
    {
        let vs = if values.len() == 0 {
            let mut one: Vec<u64> = Vec::new();
            one.push(0);
            proof {
                assert(one@ =~= seq![0u64]);
            }
            one
        } else {
            values
        };
        ScriptedSource { values: vs, cursor: 0, drawn: Ghost(0) }
    }
}

impl RandomSource for ScriptedSource {
    closed spec fn draws(&self) -> nat {
        self.drawn@
    }

    /// The draw is exactly the scripted value at the cursor, reduced below
    /// the bound, and the cursor advances one step, cycling at the end.
    fn next_below(&mut self, bound: u64) -> (r: u64)
        ensures
            final(self).script() == old(self).script(),
            old(self).wf() ==> final(self).wf(),
            old(self).wf() ==> r == old(self).script()[old(self).cursor()] % bound,
            old(self).wf() ==> final(self).cursor() == (if old(self).cursor() + 1
                == old(self).script().len() {
                0int
            } else {
                old(self).cursor() + 1
            }),
    {
        self.drawn = Ghost(self.drawn@ + 1);
        if self.values.len() == 0 {
            return 0;
        }
        let cur = if self.cursor < self.values.len() {
            self.cursor
        } else {
            0
        };
        let r = self.values[cur] % bound;
        self.cursor = if cur + 1 == self.values.len() {
            0
        } else {
            cur + 1
        };
        r
    }
}

/// A source backed by the thread-local generator of the `rand` crate.
pub struct ThreadRngSource {
    rng: rand::rngs::ThreadRng,
    drawn: Ghost<nat>,
}

#[verifier::external_type_specification]
#[verifier::external_body]
pub struct ExThreadRng(rand::rngs::ThreadRng);

/// Relies on `rand::Rng::gen_range` over `0..bound`: the result lies in the
/// given range, which is non-empty because the bound is at least one.
#[verifier::external_body]
fn gen_range_below(rng: &mut rand::rngs::ThreadRng, bound: u64) -> (r: u64)
    requires
        bound >= 1,
    ensures
        r < bound,
{
    rng.gen_range(0..bound)
}

/// Relies on `rand::thread_rng`: obtains a handle to the thread-local
/// generator, seeded by the system.
#[verifier::external_body]
fn obtain_thread_rng() -> rand::rngs::ThreadRng {
    rand::thread_rng()
}

impl ThreadRngSource {
    /// A fresh handle to the thread-local generator, with no draws made.
    pub fn new() -> (s: Self)
        ensures
            s.draws() == 0,
    {
        ThreadRngSource { rng: obtain_thread_rng(), drawn: Ghost(0) }
    }
}

impl RandomSource for ThreadRngSource {
    closed spec fn draws(&self) -> nat {
        self.drawn@
    }

    fn next_below(&mut self, bound: u64) -> (r: u64) {
        self.drawn = Ghost(self.drawn@ + 1);
        gen_range_below(&mut self.rng, bound)
    }
}

} // verus!
