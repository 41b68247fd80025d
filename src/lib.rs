//! Dice notation: a lexer, a precedence-climbing parser and an evaluator
//! whose die rolls draw from a pluggable random source.
use vstd::prelude::*;

pub mod ast;
pub mod interpreter;
pub mod lexer;
pub mod parser;
pub mod text;

use crate::interpreter::{die_count, eval, value, RandomSource, Sample};
use crate::parser::{fails_with, parse, parsed, ParseError};

verus! {

/// Relies on `rand::random`: a value drawn from the thread-local generator.
/// Nothing is known of which value comes.
pub assume_specification<T>[ rand::random::<T> ]() -> (r: T)
    where
        rand::distributions::Standard: rand::distributions::Distribution<T>,
;

/// The number of distinct fractions the process-wide source draws from.
pub const SAMPLE_SCALE: u64 = 9_007_199_254_740_992;

/// Draws a fraction in `[0, 1)` from the process-wide generator, with the
/// 53 bits of precision that a uniform `f64` has.
pub fn base_prng_engine() -> (s: Sample)
    ensures
        s.wf(),
        s.num < s.den,
        s.den == SAMPLE_SCALE,
{
    let bits: u64 = rand::random::<u64>();
    Sample { num: bits / 2048, den: SAMPLE_SCALE }
}

/// The process-wide random source.
pub struct ThreadSource {
    pub history: Ghost<Seq<Sample>>,
}

impl ThreadSource {
    pub fn new() -> (r: ThreadSource)
        ensures
            r.inv(),
            r.drawn() == Seq::<Sample>::empty(),
    {
        ThreadSource { history: Ghost(Seq::empty()) }
    }
}

impl RandomSource for ThreadSource {
    open spec fn inv(&self) -> bool {
        forall|i: int| 0 <= i < self.history@.len() ==> (#[trigger] self.history@[i]).wf()
    }

    open spec fn drawn(&self) -> Seq<Sample> {
        self.history@
    }

    open spec fn fixed(&self) -> Option<Sample> {
        None
    }

    fn sample(&mut self) -> (r: Sample) {
        let s = base_prng_engine();
        self.history = Ghost(self.history@.push(s));
        assert(forall|i: int|
            0 <= i < old(self).history@.len() ==> self.history@[i] == old(self).history@[i]);
        s
    }
}

/// Calculates the total from the provided dice notation, rolling with the
/// process-wide source; or the message of the error that parsing gave.
pub fn roll(input: &str) -> (r: Result<isize, String>)
    ensures
        match parsed(input@) {
            Some(e) => exists|d: Seq<Sample>|
                d.len() == die_count(e) && (forall|i: int| 0 <= i < d.len() ==> (#[trigger] d[i]).wf())
                    && (r matches Ok(v) && v == value(e, d)),
            None => r matches Err(m) && (exists|pe: ParseError|
                fails_with(input@, pe) && m@ == pe.message_text()),
        },
{
    match parse(input) {
        Ok(tree) => {
            let mut source = ThreadSource::new();
            let v = eval(&mut source, &tree);
            let ghost d = source.drawn();
            assert(d.subrange(0, d.len() as int) =~= d);
            assert(forall|i: int| 0 <= i < d.len() ==> (#[trigger] d[i]).wf());
            Ok(v)
        },
        Err(e) => Err(e.message()),
    }
}

} // verus!
