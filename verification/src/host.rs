//! What the embedding host supplies: IEEE-754 double arithmetic, decimal
//! conversion and formatting, and the output channel of `print`.
//!
//! In the closed-world design these are the only doors out of the sandbox.
//! The library assumes of a host only that each number service is a
//! function of its arguments and that `print` appends one line to the
//! output; the interpreter's contracts name the results through the trait's
//! spec functions. A host that implements the methods with Rust's `f64` (as
//! the command-line program does) gives the language its documented number
//! semantics.

use vstd::prelude::*;

verus! {

/// The outcome of comparing two numbers.
#[derive(Debug, Clone, Copy, PartialEq, Eq, Structural)]
pub enum Order {
    Less,
    Equal,
    Greater,
}

/// `after` is the list of lines `before` with one more line, `line`.
pub open spec fn appended(before: Seq<String>, after: Seq<String>, line: Seq<char>) -> bool {
    &&& after.len() == before.len() + 1
    &&& after.drop_last() == before
    &&& after.last()@ == line
}

/// The number services of the host and its output channel. Numbers are
/// passed as the bit patterns of IEEE-754 doubles.
///
/// Each number service is a function of its arguments: its result is named
/// by a spec function of the trait, which each host defines. The output is
/// the list of lines printed so far.
pub trait Host {
    /// The double that a decimal spelling denotes.
    spec fn denoted(spelling: String) -> u64;

    /// The sum of two doubles.
    spec fn sum(a: u64, b: u64) -> u64;

    /// The difference of two doubles.
    spec fn difference(a: u64, b: u64) -> u64;

    /// The product of two doubles.
    spec fn product(a: u64, b: u64) -> u64;

    /// The quotient of two doubles.
    spec fn quotient(a: u64, b: u64) -> u64;

    /// The remainder of two doubles, with the sign of the dividend.
    spec fn remainder(a: u64, b: u64) -> u64;

    /// The double nearest to a count.
    spec fn counted(n: u64) -> u64;

    /// The decimal text of a double, as the language prints it.
    spec fn decimal(a: u64) -> String;

    /// The lines printed so far.
    spec fn output(&self) -> Vec<String>;

    /// The double that a decimal spelling (digits and at most one '.',
    /// at least one digit) denotes.
    fn number(&self, spelling: &String) -> (r: u64)
        ensures
            r == Self::denoted(*spelling),
    ;

    fn add(&self, a: u64, b: u64) -> (r: u64)
        ensures
            r == Self::sum(a, b),
    ;

    fn sub(&self, a: u64, b: u64) -> (r: u64)
        ensures
            r == Self::difference(a, b),
    ;

    fn mul(&self, a: u64, b: u64) -> (r: u64)
        ensures
            r == Self::product(a, b),
    ;

    /// Division; the interpreter never asks it to divide by zero.
    fn div(&self, a: u64, b: u64) -> (r: u64)
        ensures
            r == Self::quotient(a, b),
    ;

    /// Remainder with the sign of the dividend; never asked for a zero divisor.
    fn rem(&self, a: u64, b: u64) -> (r: u64)
        ensures
            r == Self::remainder(a, b),
    ;

    /// The double nearest to a count.
    fn from_count(&self, n: u64) -> (r: u64)
        ensures
            r == Self::counted(n),
    ;

    /// The number's decimal text, as the language prints it.
    fn format(&self, a: u64) -> (r: String)
        ensures
            r == Self::decimal(a),
    ;

    /// Emit one line of program output.
    fn print(&mut self, text: &str)
        ensures
            appended(old(self).output()@, final(self).output()@, text@),
    ;
}

} // verus!
