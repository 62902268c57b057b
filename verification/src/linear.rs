//! Linear interpolation converter.
//!
//! The converter slides a two-sample window over the input and places each
//! output between the two by its fractional position.  With a rational ratio
//! the position is an integer residue `pos` modulo the step denominator, so
//! the phase is exact: each output is the pair `(prev, curr)` together with
//! the exact coefficient `pos / denom`.  Evaluating the mix on concrete
//! sample values is left to the embedding application, which keeps this
//! module free of machine arithmetic on the samples themselves.

use vstd::prelude::*;

use crate::Error;
use crate::ratio::Ratio;
use crate::ratio::red_denom;
use crate::ratio::red_numer;
use crate::ratio::supported_pair;

verus! {

/// Lifecycle of the streaming state: waiting for the very first input,
/// running, or suspended after the input ran dry mid-advance.
pub enum Phase {
    First,
    Normal,
    Suspend,
}

/// One output command: the sample lies between `from` and `to`, at fraction
/// `coef_num / coef_den` of the way (0 gives `from`, 1 would give `to`).
pub struct Lerp<T> {
    pub from: T,
    pub to: T,
    pub coef_num: u64,
    pub coef_den: u64,
}

/// Streaming state of the linear converter: the two-sample window, the step
/// as a fraction `numer / denom` of an input period, and the integer phase
/// `pos` in units of `1 / denom`.
pub struct Converter<T> {
    pub phase: Phase,
    pub prev: T,
    pub curr: T,
    pub numer: u64,
    pub denom: u64,
    pub pos: u64,
}

/// Structural invariant of a converter: the step is a positive fraction
/// whose parts leave the phase arithmetic room in a machine word, and the
/// phase never runs more than one step past the denominator.
pub open spec fn wf<T>(c: Converter<T>) -> bool {
    &&& 1 <= c.numer <= 2305843009213693952
    &&& 1 <= c.denom <= 2305843009213693952
    &&& c.pos < c.denom + c.numer
}

/// One pull on the converter, as a mathematical transition: from state `c`
/// with `input[cur..]` still unread, to the next state, the new read
/// position, and either an output command or `None` when the input ran dry.
pub open spec fn step<T>(c: Converter<T>, input: Seq<T>, cur: int) -> (Converter<T>, int, Option<
    Lerp<T>,
>)
    decreases input.len() - cur,
{
    match c.phase {
        Phase::First => {
            if 0 <= cur < input.len() {
                let c1 = Converter {
                    phase: Phase::Normal,
                    prev: c.prev,
                    curr: input[cur],
                    numer: c.numer,
                    denom: c.denom,
                    pos: c.numer,
                };
                step(c1, input, cur + 1)
            } else {
                (c, cur, None)
            }
        },
        Phase::Suspend => {
            if 0 <= cur < input.len() {
                let c1 = Converter {
                    phase: Phase::Normal,
                    prev: c.prev,
                    curr: input[cur],
                    numer: c.numer,
                    denom: c.denom,
                    pos: c.pos,
                };
                step(c1, input, cur + 1)
            } else {
                (c, cur, None)
            }
        },
        Phase::Normal => {
            if c.pos >= c.denom {
                if 0 <= cur < input.len() {
                    let c1 = Converter {
                        phase: Phase::Normal,
                        prev: c.curr,
                        curr: input[cur],
                        numer: c.numer,
                        denom: c.denom,
                        pos: (c.pos - c.denom) as u64,
                    };
                    step(c1, input, cur + 1)
                } else {
                    let c1 = Converter {
                        phase: Phase::Suspend,
                        prev: c.curr,
                        curr: c.curr,
                        numer: c.numer,
                        denom: c.denom,
                        pos: (c.pos - c.denom) as u64,
                    };
                    (c1, cur, None)
                }
            } else {
                let c1 = Converter {
                    phase: Phase::Normal,
                    prev: c.prev,
                    curr: c.curr,
                    numer: c.numer,
                    denom: c.denom,
                    pos: (c.pos + c.numer) as u64,
                };
                let out = Lerp { from: c.prev, to: c.curr, coef_num: c.pos, coef_den: c.denom };
                (c1, cur, Some(out))
            }
        },
    }
}

/// The state a freshly minted converter starts in: window filled with `fill`,
/// phase zero, step equal to the reciprocal of the conversion ratio.
pub open spec fn fresh_converter<T>(ratio: Ratio, fill: T) -> Converter<T> {
    Converter {
        phase: Phase::First,
        prev: fill,
        curr: fill,
        numer: ratio.denom as u64,
        denom: ratio.numer as u64,
        pos: 0,
    }
}

impl<T: Copy> Converter<T> {
    /// Pull the next output command, reading input samples from
    /// `input[*cursor..]` as needed.
    ///
    /// Returns `None` when the input ran dry; the converter then suspends and
    /// a later call may resume with more input.  The call performs exactly
    /// the transition `step` describes.
    pub fn next_sample(&mut self, input: &Vec<T>, cursor: &mut usize) -> (r: Option<Lerp<T>>)
        requires
            wf(*old(self)),
            *old(cursor) <= input@.len(),
        ensures
            wf(*final(self)),
            *old(cursor) <= *final(cursor) <= input@.len(),
            (*final(self), *final(cursor) as int, r) == step(
                *old(self),
                input@,
                *old(cursor) as int,
            ),
    {
        let ghost c0 = *old(self);
        let ghost cur0 = *old(cursor) as int;
        match self.phase {
            Phase::First => {
                if *cursor < input.len() {
                    self.curr = input[*cursor];
                    *cursor += 1;
                    self.pos = self.numer;
                    self.phase = Phase::Normal;
                } else {
                    return None;
                }
            },
            Phase::Suspend => {
                if *cursor < input.len() {
                    self.curr = input[*cursor];
                    *cursor += 1;
                    self.phase = Phase::Normal;
                } else {
                    return None;
                }
            },
            Phase::Normal => {},
        }
        while self.pos >= self.denom
            invariant
                wf(*self),
                self.phase is Normal,
                *cursor <= input@.len(),
                step(c0, input@, cur0) == step(*self, input@, *cursor as int),
                cur0 <= *cursor as int,
                c0 == *old(self),
                cur0 == *old(cursor) as int,
            decreases input@.len() - *cursor as int,
        {
            self.pos = self.pos - self.denom;
            self.prev = self.curr;
            if *cursor < input.len() {
                self.curr = input[*cursor];
                *cursor += 1;
            } else {
                self.phase = Phase::Suspend;
                return None;
            }
        }
        let r = Lerp { from: self.prev, to: self.curr, coef_num: self.pos, coef_den: self.denom };
        self.pos = self.pos + self.numer;
        Some(r)
    }
}

/// Iterate `n` pulls from state `c`, collecting the outputs produced.
pub open spec fn run<T>(c: Converter<T>, input: Seq<T>, cur: int, n: nat) -> (Converter<T>, int, Seq<
    Lerp<T>,
>)
    decreases n,
{
    if n == 0 {
        (c, cur, Seq::empty())
    } else {
        let (c1, cur1, out) = step(c, input, cur);
        let (c2, cur2, outs) = run(c1, input, cur1, (n - 1) as nat);
        match out {
            Some(l) => (c2, cur2, seq![l] + outs),
            None => (c2, cur2, outs),
        }
    }
}

/// A run of `n` pulls produces at most `n` outputs.
pub proof fn lemma_run_len<T>(c: Converter<T>, input: Seq<T>, cur: int, n: nat)
    ensures
        run(c, input, cur, n).2.len() <= n,
    decreases n,
{
    if n > 0 {
        let (c1, cur1, out) = step(c, input, cur);
        lemma_run_len(c1, input, cur1, (n - 1) as nat);
    }
}

/// Reading from a longer input cannot change a pull that already produced an
/// output: the transition depends only on the samples actually read.
pub proof fn lemma_step_prefix<T>(c: Converter<T>, input1: Seq<T>, input2: Seq<T>, cur: int)
    requires
        input1.len() <= input2.len(),
        input2.take(input1.len() as int) == input1,
        0 <= cur,
        step(c, input1, cur).2 is Some,
    ensures
        step(c, input2, cur) == step(c, input1, cur),
    decreases input1.len() - cur,
{
    assert(forall|i: int|
        0 <= i < input1.len() ==> input1[i] == #[trigger] input2.take(input1.len() as int)[i]);
    match c.phase {
        Phase::First => {
            let c1 = Converter {
                phase: Phase::Normal,
                prev: c.prev,
                curr: input1[cur],
                numer: c.numer,
                denom: c.denom,
                pos: c.numer,
            };
            lemma_step_prefix(c1, input1, input2, cur + 1);
        },
        Phase::Suspend => {
            let c1 = Converter {
                phase: Phase::Normal,
                prev: c.prev,
                curr: input1[cur],
                numer: c.numer,
                denom: c.denom,
                pos: c.pos,
            };
            lemma_step_prefix(c1, input1, input2, cur + 1);
        },
        Phase::Normal => {
            if c.pos >= c.denom {
                let c1 = Converter {
                    phase: Phase::Normal,
                    prev: c.curr,
                    curr: input1[cur],
                    numer: c.numer,
                    denom: c.denom,
                    pos: (c.pos - c.denom) as u64,
                };
                lemma_step_prefix(c1, input1, input2, cur + 1);
            }
        },
    }
}

/// Suspending on a short input and resuming on an extension of it behaves
/// exactly as if the whole input had been available from the start.
pub proof fn lemma_step_resume<T>(c: Converter<T>, input1: Seq<T>, input2: Seq<T>, cur: int)
    requires
        input1.len() <= input2.len(),
        input2.take(input1.len() as int) == input1,
        0 <= cur <= input1.len(),
        step(c, input1, cur).2 is None,
    ensures
        step(step(c, input1, cur).0, input2, step(c, input1, cur).1) == step(c, input2, cur),
    decreases input1.len() - cur,
{
    assert(forall|i: int|
        0 <= i < input1.len() ==> input1[i] == #[trigger] input2.take(input1.len() as int)[i]);
    match c.phase {
        Phase::First => {
            if cur < input1.len() {
                let c1 = Converter {
                    phase: Phase::Normal,
                    prev: c.prev,
                    curr: input1[cur],
                    numer: c.numer,
                    denom: c.denom,
                    pos: c.numer,
                };
                lemma_step_resume(c1, input1, input2, cur + 1);
            }
        },
        Phase::Suspend => {
            if cur < input1.len() {
                let c1 = Converter {
                    phase: Phase::Normal,
                    prev: c.prev,
                    curr: input1[cur],
                    numer: c.numer,
                    denom: c.denom,
                    pos: c.pos,
                };
                lemma_step_resume(c1, input1, input2, cur + 1);
            }
        },
        Phase::Normal => {
            if c.pos >= c.denom {
                if cur < input1.len() {
                    let c1 = Converter {
                        phase: Phase::Normal,
                        prev: c.curr,
                        curr: input1[cur],
                        numer: c.numer,
                        denom: c.denom,
                        pos: (c.pos - c.denom) as u64,
                    };
                    lemma_step_resume(c1, input1, input2, cur + 1);
                }
            }
        },
    }
}

/// With a window already holding the constant `x` and a constant tail of
/// input, one pull keeps the window constant and any output mixes `x` with
/// itself — so a constant stream is reproduced exactly once the warm-up
/// window has been flushed.
pub proof fn lemma_step_constant<T>(c: Converter<T>, input: Seq<T>, cur: int, x: T)
    requires
        c.prev == x,
        c.curr == x,
        forall|i: int| cur <= i < input.len() ==> input[i] == x,
    ensures
        ({
            let (c1, cur1, out) = step(c, input, cur);
            &&& c1.prev == x
            &&& c1.curr == x
            &&& (out matches Some(l) ==> l.from == x && l.to == x)
        }),
    decreases input.len() - cur,
{
    match c.phase {
        Phase::First => {
            if 0 <= cur < input.len() {
                let c1 = Converter {
                    phase: Phase::Normal,
                    prev: c.prev,
                    curr: input[cur],
                    numer: c.numer,
                    denom: c.denom,
                    pos: c.numer,
                };
                lemma_step_constant(c1, input, cur + 1, x);
            }
        },
        Phase::Suspend => {
            if 0 <= cur < input.len() {
                let c1 = Converter {
                    phase: Phase::Normal,
                    prev: c.prev,
                    curr: input[cur],
                    numer: c.numer,
                    denom: c.denom,
                    pos: c.pos,
                };
                lemma_step_constant(c1, input, cur + 1, x);
            }
        },
        Phase::Normal => {
            if c.pos >= c.denom {
                if 0 <= cur < input.len() {
                    let c1 = Converter {
                        phase: Phase::Normal,
                        prev: c.curr,
                        curr: input[cur],
                        numer: c.numer,
                        denom: c.denom,
                        pos: (c.pos - c.denom) as u64,
                    };
                    lemma_step_constant(c1, input, cur + 1, x);
                }
            }
        },
    }
}

/// Every output command is a proper interpolation: its coefficient is a
/// fraction strictly below one, over the converter's step denominator.
pub proof fn lemma_output_coefficient<T>(c: Converter<T>, input: Seq<T>, cur: int)
    requires
        step(c, input, cur).2 is Some,
    ensures
        ({
            let l = step(c, input, cur).2.unwrap();
            &&& l.coef_num < l.coef_den
            &&& l.coef_den == c.denom
        }),
    decreases input.len() - cur,
{
    match c.phase {
        Phase::First => {
            if 0 <= cur < input.len() {
                let c1 = Converter {
                    phase: Phase::Normal,
                    prev: c.prev,
                    curr: input[cur],
                    numer: c.numer,
                    denom: c.denom,
                    pos: c.numer,
                };
                lemma_output_coefficient(c1, input, cur + 1);
            }
        },
        Phase::Suspend => {
            if 0 <= cur < input.len() {
                let c1 = Converter {
                    phase: Phase::Normal,
                    prev: c.prev,
                    curr: input[cur],
                    numer: c.numer,
                    denom: c.denom,
                    pos: c.pos,
                };
                lemma_output_coefficient(c1, input, cur + 1);
            }
        },
        Phase::Normal => {
            if c.pos >= c.denom {
                if 0 <= cur < input.len() {
                    let c1 = Converter {
                        phase: Phase::Normal,
                        prev: c.curr,
                        curr: input[cur],
                        numer: c.numer,
                        denom: c.denom,
                        pos: (c.pos - c.denom) as u64,
                    };
                    lemma_output_coefficient(c1, input, cur + 1);
                }
            }
        },
    }
}

/// The moment the constant stream takes over: a pull of a running
/// converter whose newest sample is already the constant either consumes
/// nothing, or leaves the whole window constant — after the second input of
/// a constant stream is read, every later output mixes the constant with
/// itself.
pub proof fn lemma_step_warm_constant<T>(c: Converter<T>, input: Seq<T>, cur: int, x: T)
    requires
        c.phase is Normal,
        c.curr == x,
        forall|i: int| cur <= i < input.len() ==> input[i] == x,
    ensures
        ({
            let (c1, cur1, out) = step(c, input, cur);
            &&& c1.curr == x
            &&& (cur1 > cur ==> c1.prev == x && (out matches Some(l) ==> l.from == x && l.to
                == x))
        }),
{
    if c.pos >= c.denom {
        if 0 <= cur < input.len() {
            let c1 = Converter {
                phase: Phase::Normal,
                prev: c.curr,
                curr: input[cur],
                numer: c.numer,
                denom: c.denom,
                pos: (c.pos - c.denom) as u64,
            };
            lemma_step_constant(c1, input, cur + 1, x);
            lemma_step_cursor(c1, input, cur + 1);
        }
    }
}

/// The run form of the constant-input law: over a constant tail, every
/// output of every pull mixes the constant with itself.
pub proof fn lemma_run_constant<T>(c: Converter<T>, input: Seq<T>, cur: int, x: T, n: nat)
    requires
        c.prev == x,
        c.curr == x,
        forall|i: int| cur <= i < input.len() ==> input[i] == x,
    ensures
        ({
            let (cn, curn, outs) = run(c, input, cur, n);
            &&& cn.prev == x
            &&& cn.curr == x
            &&& forall|j: int| 0 <= j < outs.len() ==> outs[j].from == x && outs[j].to == x
        }),
    decreases n,
{
    if n > 0 {
        let (c1, cur1, out) = step(c, input, cur);
        lemma_step_constant(c, input, cur, x);
        lemma_step_cursor(c, input, cur);
        lemma_run_constant(c1, input, cur1, x, (n - 1) as nat);
    }
}

/// A pull never moves the read position backwards, nor past the input.
pub proof fn lemma_step_cursor<T>(c: Converter<T>, input: Seq<T>, cur: int)
    ensures
        cur <= step(c, input, cur).1,
        cur <= input.len() ==> step(c, input, cur).1 <= input.len(),
    decreases input.len() - cur,
{
    match c.phase {
        Phase::First => {
            if 0 <= cur < input.len() {
                let c1 = Converter {
                    phase: Phase::Normal,
                    prev: c.prev,
                    curr: input[cur],
                    numer: c.numer,
                    denom: c.denom,
                    pos: c.numer,
                };
                lemma_step_cursor(c1, input, cur + 1);
            }
        },
        Phase::Suspend => {
            if 0 <= cur < input.len() {
                let c1 = Converter {
                    phase: Phase::Normal,
                    prev: c.prev,
                    curr: input[cur],
                    numer: c.numer,
                    denom: c.denom,
                    pos: c.pos,
                };
                lemma_step_cursor(c1, input, cur + 1);
            }
        },
        Phase::Normal => {
            if c.pos >= c.denom {
                if 0 <= cur < input.len() {
                    let c1 = Converter {
                        phase: Phase::Normal,
                        prev: c.curr,
                        curr: input[cur],
                        numer: c.numer,
                        denom: c.denom,
                        pos: (c.pos - c.denom) as u64,
                    };
                    lemma_step_cursor(c1, input, cur + 1);
                }
            }
        },
    }
}

/// Exact phase accounting of one output-producing pull from the running
/// phase: the phase advances by `numer`, and every input sample consumed
/// pays `denom` of it.
pub proof fn lemma_step_accounting<T>(c: Converter<T>, input: Seq<T>, cur: int)
    requires
        wf(c),
        c.phase is Normal,
        step(c, input, cur).2 is Some,
    ensures
        ({
            let (c1, cur1, out) = step(c, input, cur);
            &&& wf(c1)
            &&& c1.phase is Normal
            &&& c1.numer == c.numer
            &&& c1.denom == c.denom
            &&& cur <= cur1
            &&& c.pos + c.numer == c1.pos + c.denom * (cur1 - cur)
            &&& c1.pos >= c.numer
            &&& out matches Some(l) ==> l.coef_den == c.denom && l.coef_num + c.numer == c1.pos
        }),
    decreases input.len() - cur,
{
    if c.pos >= c.denom {
        if 0 <= cur < input.len() {
            let c1 = Converter {
                phase: Phase::Normal,
                prev: c.curr,
                curr: input[cur],
                numer: c.numer,
                denom: c.denom,
                pos: (c.pos - c.denom) as u64,
            };
            lemma_step_accounting(c1, input, cur + 1);
            let (c2, cur2, out) = step(c1, input, cur + 1);
            assert(c.pos + c.numer == c2.pos + c.denom * (cur2 - cur)) by (nonlinear_arith)
                requires
                    c1.pos + c.numer == c2.pos + c.denom * (cur2 - (cur + 1)),
                    c.pos == c1.pos + c.denom,
            ;
        }
    }
}

/// Exact phase accounting of an uninterrupted run: `n` outputs advance the
/// phase by `n * numer` in total, paid for by the inputs consumed.
pub proof fn lemma_run_accounting<T>(c: Converter<T>, input: Seq<T>, cur: int, n: nat)
    requires
        wf(c),
        c.phase is Normal,
        run(c, input, cur, n).2.len() == n,
    ensures
        ({
            let (cn, curn, outs) = run(c, input, cur, n);
            &&& wf(cn)
            &&& cn.phase is Normal
            &&& cn.numer == c.numer
            &&& cn.denom == c.denom
            &&& cur <= curn
            &&& c.pos + n * c.numer == cn.pos + c.denom * (curn - cur)
            &&& n >= 1 ==> cn.pos >= c.numer
        }),
    decreases n,
{
    if n > 0 {
        let (c1, cur1, out) = step(c, input, cur);
        let (c2, cur2, outs2) = run(c1, input, cur1, (n - 1) as nat);
        lemma_run_len(c1, input, cur1, (n - 1) as nat);
        assert(out is Some);
        lemma_step_accounting(c, input, cur);
        lemma_run_accounting(c1, input, cur1, (n - 1) as nat);
        assert(c.pos + n * c.numer == c2.pos + c.denom * (cur2 - cur)) by (nonlinear_arith)
            requires
                c.pos + c.numer == c1.pos + c.denom * (cur1 - cur),
                c1.pos + (n - 1) * c1.numer == c2.pos + c1.denom * (cur2 - cur1),
                c1.numer == c.numer,
                c1.denom == c.denom,
                n >= 1,
        ;
        if n == 1 {
            assert(c2 == c1);
        }
    } else {
        assert(n * c.numer == 0) by (nonlinear_arith)
            requires
                n == 0,
        ;
        assert(c.denom * (cur - cur) == 0) by (nonlinear_arith);
    }
}

/// Phase exactness over one period: an uninterrupted run of `denom` outputs
/// brings the integer phase back to its starting residue class.
pub proof fn lemma_phase_period<T>(c: Converter<T>, input: Seq<T>, cur: int)
    requires
        wf(c),
        c.phase is Normal,
        run(c, input, cur, c.denom as nat).2.len() == c.denom,
    ensures
        run(c, input, cur, c.denom as nat).0.pos % c.denom == c.pos % c.denom,
{
    let n = c.denom as nat;
    let (cn, curn, outs) = run(c, input, cur, n);
    lemma_run_accounting(c, input, cur, n);
    let k = curn - cur;
    let j = c.numer - k;
    assert(cn.pos == c.denom * j + c.pos) by (nonlinear_arith)
        requires
            c.pos + n * c.numer == cn.pos + c.denom * k,
            n == c.denom,
            j == c.numer - k,
    ;
    vstd::arithmetic::div_mod::lemma_mod_multiples_vanish(j, c.pos as int, c.denom as int);
}

/// Bounded consumption: an uninterrupted run of `n` outputs from a fresh
/// converter reads, beyond its one warm-up sample, at most `n / r` input
/// samples rounded up — stated multiplicatively over the exact ratio.
pub proof fn lemma_consumption_bound<T>(ratio: Ratio, fill: T, input: Seq<T>, n: nat)
    requires
        ratio.supported_spec(),
        ratio.numer <= 2305843009213693952,
        ratio.denom <= 2305843009213693952,
        1 <= n,
        run(fresh_converter::<T>(ratio, fill), input, 0, n).2.len() == n,
    ensures
        ratio.numer * (run(fresh_converter::<T>(ratio, fill), input, 0, n).1 - 1) <= n
            * ratio.denom,
{
    let c = fresh_converter::<T>(ratio, fill);
    let (cn, curn, outs) = run(c, input, 0, n);
    let (c1, cur1, out) = step(c, input, 0);
    let (c2, cur2, outs2) = run(c1, input, cur1, (n - 1) as nat);
    lemma_run_len(c1, input, cur1, (n - 1) as nat);
    assert(out is Some);
    // The first pull reads the warm-up sample and then behaves as a pull
    // from the running phase at position `numer`.
    assert(input.len() > 0);
    let cw = Converter {
        phase: Phase::Normal,
        prev: c.prev,
        curr: input[0],
        numer: c.numer,
        denom: c.denom,
        pos: c.numer,
    };
    assert(step(c, input, 0) == step(cw, input, 1));
    lemma_step_accounting(cw, input, 1);
    lemma_run_accounting(c1, input, cur1, (n - 1) as nat);
    assert(cw.pos + n * cw.numer == cn.pos + cw.denom * (curn - 1)) by (nonlinear_arith)
        requires
            cw.pos + cw.numer == c1.pos + cw.denom * (cur1 - 1),
            c1.pos + (n - 1) * c1.numer == cn.pos + c1.denom * (curn - cur1),
            c1.numer == cw.numer,
            c1.denom == cw.denom,
            n >= 1,
    ;
    if n == 1 {
        assert(cn == c1);
    }
    assert(cn.pos >= cw.numer);
    assert(cw.denom * (curn - 1) <= n * cw.numer) by (nonlinear_arith)
        requires
            cw.pos + n * cw.numer == cn.pos + cw.denom * (curn - 1),
            cn.pos >= cw.pos,
            cw.pos == cw.numer,
    ;
}

/// Runs compose: pulling `j + k` times is pulling `j` times and then `k`
/// more, with the outputs in sequence.
pub proof fn lemma_run_compose<T>(c: Converter<T>, input: Seq<T>, cur: int, j: nat, k: nat)
    ensures
        ({
            let (cj, curj, outsj) = run(c, input, cur, j);
            let (ck, curk, outsk) = run(cj, input, curj, k);
            run(c, input, cur, (j + k) as nat) == (ck, curk, outsj + outsk)
        }),
    decreases j,
{
    let (cj, curj, outsj) = run(c, input, cur, j);
    let (ck, curk, outsk) = run(cj, input, curj, k);
    if j == 0 {
        assert(outsj + outsk =~= outsk);
    } else {
        let (c1, cur1, out) = step(c, input, cur);
        lemma_run_compose(c1, input, cur1, (j - 1) as nat, k);
        let (cj1, curj1, outsj1) = run(c1, input, cur1, (j - 1) as nat);
        assert((j - 1 + k) as nat + 1 == (j + k) as nat);
        match out {
            Some(l) => {
                assert(seq![l] + (outsj1 + outsk) =~= (seq![l] + outsj1) + outsk);
            },
            None => {},
        }
    }
}

/// What the window holds: if `prev` and `curr` are the last two samples of
/// the history "pre-fill, then every sample read so far" — a suspended
/// converter holding the newest sample in both places — one pull keeps it
/// that way, and any output mixes exactly the last two samples read.
pub proof fn lemma_step_window<T>(c: Converter<T>, input: Seq<T>, cur: int, h: Seq<T>)
    requires
        0 <= cur <= input.len(),
        h.len() >= 2,
        c.curr == h.last(),
        c.phase is Normal ==> c.prev == h[h.len() - 2],
        !(c.phase is Normal) ==> c.prev == h.last(),
    ensures
        ({
            let (c1, cur1, out) = step(c, input, cur);
            let h1 = h + input.subrange(cur, cur1);
            &&& c1.curr == h1.last()
            &&& (c1.phase is Normal ==> c1.prev == h1[h1.len() - 2])
            &&& (!(c1.phase is Normal) ==> c1.prev == h1.last())
            &&& (out matches Some(l) ==> l.from == h1[h1.len() - 2] && l.to == h1.last())
        }),
    decreases input.len() - cur,
{
    let (c1, cur1, out) = step(c, input, cur);
    if !(c.phase is Normal) {
        if cur < input.len() {
            let h1 = h.push(input[cur]);
            let cn = Converter {
                phase: Phase::Normal,
                prev: c.prev,
                curr: input[cur],
                numer: c.numer,
                denom: c.denom,
                pos: if c.phase is First {
                    c.numer
                } else {
                    c.pos
                },
            };
            assert(cn.prev == h1[h1.len() - 2]);
            lemma_step_window(cn, input, cur + 1, h1);
            lemma_step_cursor(cn, input, cur + 1);
            assert(h1 + input.subrange(cur + 1, cur1) =~= h + input.subrange(cur, cur1));
        } else {
            assert(h + input.subrange(cur, cur) =~= h);
        }
    } else {
        if c.pos >= c.denom {
            if cur < input.len() {
                let h1 = h.push(input[cur]);
                let cn = Converter {
                    phase: Phase::Normal,
                    prev: c.curr,
                    curr: input[cur],
                    numer: c.numer,
                    denom: c.denom,
                    pos: (c.pos - c.denom) as u64,
                };
                lemma_step_window(cn, input, cur + 1, h1);
                lemma_step_cursor(cn, input, cur + 1);
                assert(h1 + input.subrange(cur + 1, cur1) =~= h + input.subrange(cur, cur1));
            } else {
                assert(h + input.subrange(cur, cur) =~= h);
            }
        } else {
            assert(h + input.subrange(cur, cur) =~= h);
        }
    }
}

/// The history a fresh converter has seen after reading `cur` samples: two
/// pre-fill entries, then the input prefix.
pub open spec fn history<T>(fill: T, input: Seq<T>, cur: int) -> Seq<T> {
    seq![fill, fill] + input.take(cur)
}

/// The state of a fresh converter after `j` uninterrupted pulls: still
/// running, the phase and the reads locked to the exact ratio, and the
/// window holding the last two samples that passed.
pub proof fn lemma_run_state<T>(ratio: Ratio, fill: T, input: Seq<T>, j: nat)
    requires
        ratio.supported_spec(),
        ratio.numer <= 2305843009213693952,
        ratio.denom <= 2305843009213693952,
        1 <= j,
        run(fresh_converter::<T>(ratio, fill), input, 0, j).2.len() == j,
    ensures
        ({
            let (cj, curj, outs) = run(fresh_converter::<T>(ratio, fill), input, 0, j);
            let numer = ratio.denom as int;
            let denom = ratio.numer as int;
            let h = history(fill, input, curj);
            &&& wf(cj)
            &&& cj.phase is Normal
            &&& cj.numer == numer
            &&& cj.denom == denom
            &&& 1 <= curj <= input.len()
            &&& cj.pos >= numer
            &&& cj.pos + denom * (curj - 1) == (j + 1) * numer
            &&& cj.curr == h.last()
            &&& cj.prev == h[h.len() - 2]
        }),
    decreases j,
{
    let c = fresh_converter::<T>(ratio, fill);
    let numer = ratio.denom as int;
    let denom = ratio.numer as int;
    if j == 1 {
        let (c1, cur1, out) = step(c, input, 0);
        let (cj, curj, outs) = run(c, input, 0, 1);
        assert(run(c1, input, cur1, 0) == (c1, cur1, Seq::<Lerp<T>>::empty()));
        assert(out is Some);
        assert(cj == c1 && curj == cur1);
        assert(input.len() > 0);
        let cw = Converter {
            phase: Phase::Normal,
            prev: c.prev,
            curr: input[0],
            numer: c.numer,
            denom: c.denom,
            pos: c.numer,
        };
        assert(step(c, input, 0) == step(cw, input, 1));
        lemma_step_accounting(cw, input, 1);
        lemma_step_cursor(cw, input, 1);
        let h0 = history(fill, input, 1);
        assert(h0.len() == 3);
        assert(cw.curr == h0.last() && cw.prev == h0[1]);
        lemma_step_window(cw, input, 1, h0);
        assert(h0 + input.subrange(1, cur1) =~= history(fill, input, cur1));
        assert(cw.pos + cw.numer == c1.pos + cw.denom * (cur1 - 1));
        assert(c1.pos + denom * (cur1 - 1) == 2 * numer) by (nonlinear_arith)
            requires
                numer + numer == c1.pos + denom * (cur1 - 1),
        ;
    } else {
        lemma_run_compose(c, input, 0, (j - 1) as nat, 1);
        let (cp, curp, outsp) = run(c, input, 0, (j - 1) as nat);
        let (cj, curj, outsl) = run(cp, input, curp, 1);
        lemma_run_len(c, input, 0, (j - 1) as nat);
        lemma_run_len(cp, input, curp, 1);
        assert(outsp.len() == (j - 1) as nat && outsl.len() == 1);
        lemma_run_state(ratio, fill, input, (j - 1) as nat);
        let (c1, cur1, out) = step(cp, input, curp);
        assert(run(c1, input, cur1, 0) == (c1, cur1, Seq::<Lerp<T>>::empty()));
        assert(out is Some);
        assert(cj == c1 && curj == cur1);
        lemma_step_accounting(cp, input, curp);
        lemma_step_cursor(cp, input, curp);
        let hp = history(fill, input, curp);
        lemma_step_window(cp, input, curp, hp);
        assert(hp + input.subrange(curp, cur1) =~= history(fill, input, cur1));
        assert(c1.pos + denom * (cur1 - 1) == (j + 1) * numer) by (nonlinear_arith)
            requires
                cp.pos + denom * (curp - 1) == j * numer,
                cp.pos + numer == c1.pos + denom * (cur1 - curp),
                cp.numer == numer,
                cp.denom == denom,
        ;
    }
}

/// The closed form of an uninterrupted run from a fresh converter: the
/// j-th output (counting from zero) sits at stream time `(j + 1) / ratio`.
/// Writing `a = (j + 1) * numer` for the phase it has accumulated in units
/// of `1 / denom` (with `numer / denom` the reciprocal ratio), the output
/// interpolates between input sample `a / denom` and its predecessor — the
/// pre-fill, for the earliest outputs — at fraction `(a % denom) / denom`.
pub proof fn lemma_run_closed_form<T>(ratio: Ratio, fill: T, input: Seq<T>, n: nat, j: int)
    requires
        ratio.supported_spec(),
        ratio.numer <= 2305843009213693952,
        ratio.denom <= 2305843009213693952,
        run(fresh_converter::<T>(ratio, fill), input, 0, n).2.len() == n,
        0 <= j < n,
    ensures
        ({
            let numer = ratio.denom as int;
            let denom = ratio.numer as int;
            let a = (j + 1) * numer;
            let l = run(fresh_converter::<T>(ratio, fill), input, 0, n).2[j];
            &&& l.coef_den == denom
            &&& l.coef_num == a % denom
            &&& l.to == input[a / denom]
            &&& l.from == (if a / denom >= 1 {
                input[a / denom - 1]
            } else {
                fill
            })
        }),
{
    let c = fresh_converter::<T>(ratio, fill);
    let numer = ratio.denom as int;
    let denom = ratio.numer as int;
    let a = (j + 1) * numer;
    lemma_run_compose(c, input, 0, j as nat, (n - j) as nat);
    let (cj, curj, outsj) = run(c, input, 0, j as nat);
    let (cr, curr2, outsr) = run(cj, input, curj, (n - j) as nat);
    lemma_run_len(c, input, 0, j as nat);
    lemma_run_len(cj, input, curj, (n - j) as nat);
    assert(outsj.len() == j && outsr.len() == (n - j) as nat);
    let (c1, cur1, out) = step(cj, input, curj);
    let (c2, cur2, outs2) = run(c1, input, cur1, (n - j - 1) as nat);
    lemma_run_len(c1, input, cur1, (n - j - 1) as nat);
    assert(out is Some);
    let l = out.unwrap();
    assert(outsr[0] == l);
    assert(run(c, input, 0, n).2[j] == l) by {
        assert(run(c, input, 0, n).2 == outsj + outsr);
        assert((outsj + outsr)[j] == outsr[0]);
    }
    // Anchor the pull that makes output `j` in a state whose phase equation
    // and window are known.
    if j == 0 {
        assert(input.len() > 0);
        let cw = Converter {
            phase: Phase::Normal,
            prev: c.prev,
            curr: input[0],
            numer: c.numer,
            denom: c.denom,
            pos: c.numer,
        };
        assert(step(cj, input, curj) == step(cw, input, 1));
        let h0 = history(fill, input, 1);
        assert(h0.len() == 3);
        assert(h0.last() == input[0]);
        assert(h0[1] == fill);
        assert(cw.pos + (cw.denom as int) * (1 - 1) == a) by (nonlinear_arith)
            requires
                a == 1 * (cw.pos as int),
        ;
        lemma_anchored_output(ratio, fill, input, cw, 1, a);
    } else {
        lemma_run_state(ratio, fill, input, j as nat);
        lemma_anchored_output(ratio, fill, input, cj, curj, a);
    }
}

/// The pull made from a state whose accumulated phase is `a` and whose
/// window mirrors the read history emits the interpolation command of
/// stream time `a / denom`.
proof fn lemma_anchored_output<T>(
    ratio: Ratio,
    fill: T,
    input: Seq<T>,
    c: Converter<T>,
    cur: int,
    a: int,
)
    requires
        ratio.supported_spec(),
        ratio.numer <= 2305843009213693952,
        ratio.denom <= 2305843009213693952,
        wf(c),
        c.phase is Normal,
        c.numer == ratio.denom as int,
        c.denom == ratio.numer as int,
        1 <= cur <= input.len(),
        c.pos >= c.numer,
        c.pos + c.denom * (cur - 1) == a,
        c.curr == history(fill, input, cur).last(),
        c.prev == history(fill, input, cur)[history(fill, input, cur).len() - 2],
        step(c, input, cur).2 is Some,
    ensures
        ({
            let l = step(c, input, cur).2.unwrap();
            let d = c.denom as int;
            &&& l.coef_den == c.denom
            &&& l.coef_num == a % d
            &&& l.to == input[a / d]
            &&& l.from == (if a / d >= 1 {
                input[a / d - 1]
            } else {
                fill
            })
        }),
{
    let (c1, cur1, out) = step(c, input, cur);
    let l = out.unwrap();
    lemma_step_accounting(c, input, cur);
    lemma_step_cursor(c, input, cur);
    let h = history(fill, input, cur);
    lemma_step_window(c, input, cur, h);
    let h1 = h + input.subrange(cur, cur1);
    assert(h1 =~= history(fill, input, cur1));
    // The emitted coefficient and the reads performed decompose the
    // accumulated phase by the denominator.
    assert(l.coef_num + c.denom * (cur1 - 1) == a) by (nonlinear_arith)
        requires
            c.pos + c.denom * (cur - 1) == a,
            c.pos + c.numer == c1.pos + c.denom * (cur1 - cur),
            l.coef_num + c.numer == c1.pos,
    ;
    assert(0 <= l.coef_num < c.denom);
    assert(a == (cur1 - 1) * (c.denom as int) + l.coef_num) by (nonlinear_arith)
        requires
            l.coef_num + c.denom * (cur1 - 1) == a,
    ;
    vstd::arithmetic::div_mod::lemma_fundamental_div_mod_converse(
        a,
        c.denom as int,
        cur1 - 1,
        l.coef_num as int,
    );
    assert(l.to == h1[h1.len() - 1] && l.from == h1[h1.len() - 2]);
    assert(h1.len() == 2 + cur1);
    assert(l.to == input[cur1 - 1]);
    if cur1 >= 2 {
        assert(l.from == input[cur1 - 2]);
    } else {
        assert(l.from == fill);
    }
}

/// An immutable plan for linear conversion: just the validated ratio.
#[derive(Clone, Copy)]
pub struct Manager {
    pub ratio: Ratio,
}

impl Manager {
    /// Build a plan for the rational conversion ratio `numer / denom`.
    ///
    /// A zero part is an invalid parameter; a fraction outside `[1/16, 16]`
    /// is an unsupported ratio.
    pub fn new(numer: i64, denom: i64) -> (r: Result<Manager, Error>)
        requires
            numer != i64::MIN,
            denom != i64::MIN,
        ensures
            (numer == 0 || denom == 0) ==> r == Err::<Manager, Error>(Error::InvalidParam),
            (numer != 0 && denom != 0) ==> match r {
                Ok(m) => {
                    &&& m.ratio.is_reduction_of(numer as int, denom as int)
                    &&& m.ratio.supported_spec()
                },
                Err(e) => {
                    &&& e == Error::UnsupportedRatio
                    &&& !supported_pair(
                        red_numer(numer as int, denom as int),
                        red_denom(numer as int, denom as int),
                    )
                },
            },
    {
        match Ratio::try_from_integers(numer, denom) {
            Ok(ratio) => Ok(Manager { ratio }),
            Err(e) => Err(e),
        }
    }

    /// Mint a fresh streaming converter for this plan, with its window
    /// pre-filled with `fill` (zero, for audio samples).
    ///
    /// The fraction's parts must leave the phase arithmetic room in a
    /// machine word; every fraction a float approximates comfortably does.
    pub fn converter<T: Copy>(&self, fill: T) -> (c: Converter<T>)
        requires
            self.ratio.supported_spec(),
            self.ratio.numer <= 2305843009213693952,
            self.ratio.denom <= 2305843009213693952,
        ensures
            c == fresh_converter::<T>(self.ratio, fill),
            wf(c),
    {
        Converter {
            phase: Phase::First,
            prev: fill,
            curr: fill,
            numer: self.ratio.denom as u64,
            denom: self.ratio.numer as u64,
            pos: 0,
        }
    }
}

} // verus!
