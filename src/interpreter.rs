//! Evaluation of expression trees, with die rolls drawn from a random source.
//!
//! Results are `isize`; every step saturates at `isize::MIN` and `isize::MAX`
//! instead of overflowing.
use vstd::prelude::*;

use crate::ast::{Expr, Operator};

verus! {

/// One draw of a random source: the fraction `num / den`.
#[derive(Debug, Clone, Copy, PartialEq, Eq, Structural)]
pub struct Sample {
    pub num: u64,
    pub den: u64,
}

impl Sample {
    /// The fraction lies in `[0, 1]`.
    pub open spec fn wf(self) -> bool {
        0 < self.den && self.num <= self.den
    }
}

/// A source of random fractions, drawn one at a time.
pub trait RandomSource {
    /// The state the source needs to keep handing out valid samples.
    spec fn inv(&self) -> bool;

    /// Every sample drawn so far, oldest first.
    spec fn drawn(&self) -> Seq<Sample>;

    /// `Some(v)` when the source hands out `v` at every draw.
    spec fn fixed(&self) -> Option<Sample>;

    /// Draws the next sample.
    fn sample(&mut self) -> (r: Sample)
        requires
            old(self).inv(),
        ensures
            final(self).inv(),
            r.wf(),
            final(self).drawn() == old(self).drawn().push(r),
            final(self).fixed() == old(self).fixed(),
            old(self).fixed() matches Some(v) ==> r == v,
    ;
}

/// A source that always hands out the same fraction, which makes evaluation
/// reproducible.
pub struct FixedSource {
    pub value: Sample,
    pub count: Ghost<nat>,
}

impl FixedSource {
    pub fn new(value: Sample) -> (r: FixedSource)
        requires
            value.wf(),
        ensures
            r.inv(),
            r.value == value,
            r.fixed() == Some(value),
            r.drawn() == Seq::<Sample>::empty(),
    {
        let r = FixedSource { value, count: Ghost(0) };
        assert(r.drawn() =~= Seq::<Sample>::empty());
        r
    }
}

impl RandomSource for FixedSource {
    open spec fn inv(&self) -> bool {
        self.value.wf()
    }

    open spec fn drawn(&self) -> Seq<Sample> {
        Seq::new(self.count@, |i: int| self.value)
    }

    open spec fn fixed(&self) -> Option<Sample> {
        Some(self.value)
    }

    fn sample(&mut self) -> (r: Sample) {
        self.count = Ghost(self.count@ + 1);
        assert(self.drawn() =~= old(self).drawn().push(self.value));
        self.value
    }
}

/// `x` held within the range of `isize`.
pub open spec fn clamp(x: int) -> int {
    if x > isize::MAX {
        isize::MAX as int
    } else if x < isize::MIN {
        isize::MIN as int
    } else {
        x
    }
}

/// `n / d` rounded to the nearest integer, halves away from zero; `d > 0`.
pub open spec fn round_div(n: int, d: int) -> int {
    if n >= 0 {
        (2 * n + d) / (2 * d)
    } else {
        -((-2 * n + d) / (2 * d))
    }
}

/// What one die of `sides` sides shows for a sample: the sample scaled by the
/// number of sides and rounded, but never below 1.
pub open spec fn die_face(s: Sample, sides: int) -> int {
    let x = round_div(s.num * sides, s.den as int);
    if x < 1 {
        1
    } else {
        x
    }
}

/// `amount` dice of `sides` sides, all showing the face of one sample.
pub open spec fn roll_value(amount: int, sides: int, s: Sample) -> int {
    clamp(amount * die_face(s, sides))
}

/// How many samples evaluating `e` draws: one for each die node.
pub open spec fn die_count(e: Expr) -> nat
    decreases e,
{
    match e {
        Expr::NumericLiteral(_) => 0,
        Expr::Unary(rhs, op) => die_count(*rhs) + if op == Operator::Die {
            1nat
        } else {
            0nat
        },
        Expr::Binary(lhs, rhs, op) => die_count(*lhs) + die_count(*rhs) + if op == Operator::Die {
            1nat
        } else {
            0nat
        },
    }
}

/// The value of `e` when its die nodes draw the samples `d`, in evaluation
/// order: a node's operands first, left before right, then the node itself.
pub open spec fn value(e: Expr, d: Seq<Sample>) -> int
    decreases e,
{
    match e {
        Expr::NumericLiteral(n) => clamp(n as int),
        Expr::Unary(rhs, op) => {
            let nr = die_count(*rhs) as int;
            let b = value(*rhs, d.subrange(0, nr));
            match op {
                Operator::Die => roll_value(1, b, d[nr]),
                Operator::Plus => b,
                Operator::Minus => clamp(-b),
            }
        },
        Expr::Binary(lhs, rhs, op) => {
            let nl = die_count(*lhs) as int;
            let nr = die_count(*rhs) as int;
            let a = value(*lhs, d.subrange(0, nl));
            let b = value(*rhs, d.subrange(nl, nl + nr));
            match op {
                Operator::Die => roll_value(a, b, d[nl + nr]),
                Operator::Plus => clamp(a + b),
                Operator::Minus => clamp(a - b),
            }
        },
    }
}

/// A binary die node with `L >= 0` dice of `R >= 1` sides, where `L` and `R`
/// are the values of its operands, is worth `L * max(1, round(r * R))` for the
/// sample `r` it draws, saturated to `isize`; a die never shows less than 1,
/// so the node is worth at least `L`, and a sample of 0 gives exactly `L`.
pub proof fn lemma_die_node(lhs: Expr, rhs: Expr, d: Seq<Sample>)
    requires
        d.len() == die_count(lhs) + die_count(rhs) + 1,
        d.last().wf(),
        value(lhs, d.subrange(0, die_count(lhs) as int)) >= 0,
        value(rhs, d.subrange(die_count(lhs) as int, (die_count(lhs) + die_count(rhs)) as int)) >= 1,
    ensures
        ({
            let l = value(lhs, d.subrange(0, die_count(lhs) as int));
            let r = value(rhs, d.subrange(die_count(lhs) as int, (die_count(lhs) + die_count(rhs)) as int));
            let s = d.last();
            let rounded = round_div(s.num * r, s.den as int);
            let node = Expr::Binary(Box::new(lhs), Box::new(rhs), Operator::Die);
            &&& value(node, d) == clamp(l * (if rounded < 1 {
                1
            } else {
                rounded
            }))
            &&& 1 <= die_face(s, r) <= r
            &&& l >= 1 ==> value(node, d) >= l
            &&& s.num == 0 ==> value(node, d) == l
        }),
{
    let l = value(lhs, d.subrange(0, die_count(lhs) as int));
    let r = value(rhs, d.subrange(die_count(lhs) as int, (die_count(lhs) + die_count(rhs)) as int));
    let s = d.last();
    let node = Expr::Binary(Box::new(lhs), Box::new(rhs), Operator::Die);
    assert(d[(die_count(lhs) + die_count(rhs)) as int] == s);
    assert(s.num * r <= s.den * r) by (nonlinear_arith)
        requires
            s.num <= s.den,
            r >= 1,
    ;
    assert(s.num * r >= 0) by (nonlinear_arith)
        requires
            r >= 1,
    ;
    assert(round_div(s.num * r, s.den as int) <= r) by (nonlinear_arith)
        requires
            0 <= s.num * r <= s.den * r,
            s.den > 0,
            round_div(s.num * r, s.den as int) == (2 * (s.num * r) + s.den) / (2 * s.den),
    ;
    let f = die_face(s, r);
    assert(l * f >= l) by (nonlinear_arith)
        requires
            l >= 0,
            f >= 1,
    ;
    if s.num == 0 {
        assert(s.num * r == 0) by (nonlinear_arith)
            requires
                s.num == 0,
        ;
        assert((2 * 0 + s.den) / (2 * s.den) == 0) by (nonlinear_arith)
            requires
                s.den > 0,
        ;
    }
    lemma_value_in_range(lhs, d.subrange(0, die_count(lhs) as int));
}

/// Every value lies within the range of `isize`.
pub proof fn lemma_value_in_range(e: Expr, d: Seq<Sample>)
    ensures
        isize::MIN <= value(e, d) <= isize::MAX,
    decreases e,
{
    match e {
        Expr::NumericLiteral(_) => {},
        Expr::Unary(rhs, _) => {
            lemma_value_in_range(*rhs, d.subrange(0, die_count(*rhs) as int));
        },
        Expr::Binary(_, _, _) => {},
    }
}

/// A sample of 1 makes a die of `sides >= 1` sides show its highest face.
pub proof fn lemma_full_sample_face(s: Sample, sides: int)
    requires
        s.wf(),
        s.num == s.den,
        sides >= 1,
    ensures
        die_face(s, sides) == sides,
{
    assert((2 * (s.num * sides) + s.den) / (2 * s.den) == sides) by (nonlinear_arith)
        requires
            s.num == s.den,
            s.den > 0,
            sides >= 1,
    ;
}

fn clamp_wide(x: i128) -> (r: isize)
    ensures
        r == clamp(x as int),
{
    if x > isize::MAX as i128 {
        isize::MAX
    } else if x < isize::MIN as i128 {
        isize::MIN
    } else {
        x as isize
    }
}

/// The face one die of `sides` sides shows for `sample`.
pub fn face_value(sides: isize, sample: Sample) -> (f: isize)
    requires
        sample.wf(),
    ensures
        f == die_face(sample, sides as int),
        1 <= f,
        sides >= 1 ==> f <= sides,
{
    let num = sample.num;
    let den = sample.den;
    if sides <= 0 {
        assert(num * sides <= 0) by (nonlinear_arith)
            requires
                num >= 0,
                sides <= 0,
        ;
        assert(round_div(num * sides, den as int) <= 0) by (nonlinear_arith)
            requires
                num * sides <= 0,
                den > 0,
        ;
        return 1;
    }
    assert(num * sides <= den * sides) by (nonlinear_arith)
        requires
            num <= den,
            sides >= 1,
    ;
    assert(den * sides <= 0xffff_ffff_ffff_ffffu128 * 0x7fff_ffff_ffff_ffffu128) by (nonlinear_arith)
        requires
            den <= 0xffff_ffff_ffff_ffffu64,
            sides <= 0x7fff_ffff_ffff_ffff,
            sides >= 1,
    ;
    let n: u128 = num as u128 * sides as u128;
    let q: u128 = (2 * n + den as u128) / (2 * den as u128);
    assert(q <= sides) by (nonlinear_arith)
        requires
            q == (2 * n + den) / (2 * den),
            n <= den * sides,
            den > 0,
            sides >= 1,
    ;
    if q < 1 {
        1
    } else {
        q as isize
    }
}

/// Rolls `amount` dice of `sides` sides, every die showing the face of the one
/// `sample`: `amount * max(1, round(sample * sides))`, saturated to `isize`.
pub fn calc_roll(amount: isize, sides: isize, sample: Sample) -> (r: isize)
    requires
        sample.wf(),
    ensures
        r == roll_value(amount as int, sides as int, sample),
{
    let face = face_value(sides, sample);
    assert(-0x8000_0000_0000_0000 * 0x7fff_ffff_ffff_ffff <= amount * face <= 0x7fff_ffff_ffff_ffff
        * 0x7fff_ffff_ffff_ffff) by (nonlinear_arith)
        requires
            isize::MIN <= amount <= isize::MAX,
            1 <= face <= isize::MAX,
            isize::MIN == -0x8000_0000_0000_0000 || isize::MIN == -0x8000_0000,
            isize::MAX == 0x7fff_ffff_ffff_ffff || isize::MAX == 0x7fff_ffff,
    ;
    clamp_wide(amount as i128 * face as i128)
}

/// Evaluates the parse tree recursively. Die nodes draw one sample each from
/// `prng`, after their operands are evaluated.
pub fn eval<R: RandomSource>(prng: &mut R, ast: &Expr) -> (r: isize)
    requires
        old(prng).inv(),
    ensures
        final(prng).inv(),
        final(prng).drawn().len() == old(prng).drawn().len() + die_count(*ast),
        final(prng).drawn().subrange(0, old(prng).drawn().len() as int) == old(prng).drawn(),
        r == value(
            *ast,
            final(prng).drawn().subrange(
                old(prng).drawn().len() as int,
                final(prng).drawn().len() as int,
            ),
        ),
        final(prng).fixed() == old(prng).fixed(),
        old(prng).fixed() matches Some(v) ==> final(prng).drawn().subrange(
            old(prng).drawn().len() as int,
            final(prng).drawn().len() as int,
        ) == Seq::new(die_count(*ast), |i: int| v),
        old(prng).fixed() matches Some(v) ==> r == value(
            *ast,
            Seq::new(die_count(*ast), |i: int| v),
        ),
    decreases ast,
{
    let ghost h0 = prng.drawn();
    match ast {
        Expr::NumericLiteral(n) => {
            assert(prng.drawn().subrange(0, h0.len() as int) =~= h0);
            assert(prng.drawn().subrange(h0.len() as int, h0.len() as int) =~= Seq::new(
                0,
                |i: int| prng.fixed()->Some_0,
            ));
            if *n > isize::MAX as usize {
                isize::MAX
            } else {
                *n as isize
            }
        },
        Expr::Unary(rhs, op) => {
            let b = eval(prng, rhs);
            let ghost h1 = prng.drawn();
            let ghost nr = die_count(**rhs) as int;
            let r = match op {
                Operator::Die => {
                    let s = prng.sample();
                    calc_roll(1, b, s)
                },
                Operator::Plus => b,
                Operator::Minus => clamp_wide(-(b as i128)),
            };
            let ghost h = prng.drawn();
            let ghost d = h.subrange(h0.len() as int, h.len() as int);
            assert(d.subrange(0, nr) =~= h1.subrange(h0.len() as int, h1.len() as int));
            assert(h.subrange(0, h0.len() as int) =~= h0);
            proof {
                if let Some(v) = old(prng).fixed() {
                    assert forall|i: int| 0 <= i < d.len() implies d[i] == v by {
                        if i < nr {
                            assert(d[i] == h1.subrange(h0.len() as int, h1.len() as int)[i]);
                        }
                    }
                    assert(d =~= Seq::new(die_count(*ast), |i: int| v));
                }
            }
            r
        },
        Expr::Binary(lhs, rhs, op) => {
            let a = eval(prng, lhs);
            let ghost h1 = prng.drawn();
            let b = eval(prng, rhs);
            let ghost h2 = prng.drawn();
            let ghost nl = die_count(**lhs) as int;
            let ghost nr = die_count(**rhs) as int;
            let r = match op {
                Operator::Die => {
                    let s = prng.sample();
                    calc_roll(a, b, s)
                },
                Operator::Plus => clamp_wide(a as i128 + b as i128),
                Operator::Minus => clamp_wide(a as i128 - b as i128),
            };
            let ghost h = prng.drawn();
            let ghost d = h.subrange(h0.len() as int, h.len() as int);
            assert(d.subrange(0, nl) =~= h1.subrange(h0.len() as int, h1.len() as int));
            assert(d.subrange(nl, nl + nr) =~= h2.subrange(h1.len() as int, h2.len() as int));
            assert(h.subrange(0, h0.len() as int) =~= h0);
            proof {
                if let Some(v) = old(prng).fixed() {
                    assert forall|i: int| 0 <= i < d.len() implies d[i] == v by {
                        if i < nl {
                            assert(d[i] == h1.subrange(h0.len() as int, h1.len() as int)[i]);
                        } else if i < nl + nr {
                            assert(d[i] == h2.subrange(h1.len() as int, h2.len() as int)[i - nl]);
                        }
                    }
                    assert(d =~= Seq::new(die_count(*ast), |i: int| v));
                }
            }
            r
        },
    }
}

} // verus!
