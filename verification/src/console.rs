//! Text output for the firmware console.
//!
//! The console takes one character at a time, as a number. This module
//! turns text into those numbers; sending them is left to the caller.

use vstd::prelude::*;
use vstd::string::StrSliceExecFns;

verus! {

/// The characters that wait to be sent to the console, as the numbers the
/// console is given, oldest first.
#[derive(Debug)]
pub struct Stdout {
    pub pending: Vec<usize>,
}

/// The numbers the console is given for the characters of `text`.
pub open spec fn code_points(text: Seq<char>) -> Seq<usize> {
    Seq::new(text.len(), |i: int| text[i] as usize)
}

impl Stdout {
    /// An output with nothing pending.
    pub fn new() -> (r: Stdout)
        ensures
            r.pending@ == Seq::<usize>::empty(),
    {
        Stdout { pending: Vec::new() }
    }

    /// Queues the characters of `s`, in order, behind what is pending.
    pub fn write_str(&mut self, s: &str)
        ensures
            final(self).pending@ == old(self).pending@ + code_points(s@),
    {
        let n = s.unicode_len();
        let mut i: usize = 0;
        while i < n
            invariant
                i <= n,
                n == s@.len(),
                self.pending@ == old(self).pending@ + code_points(s@.subrange(0, i as int)),
            decreases n - i,
        {
            let c = s.get_char(i);
            self.pending.push(c as usize);
            proof {
                assert(self.pending@ =~= old(self).pending@ + code_points(
                    s@.subrange(0, i + 1),
                ));
            }
            i = i + 1;
        }
        proof {
            assert(s@.subrange(0, n as int) =~= s@);
        }
    }

    /// Takes everything that is pending, oldest first.
    pub fn take(&mut self) -> (r: Vec<usize>)
        ensures
            r@ == old(self).pending@,
            final(self).pending@ == Seq::<usize>::empty(),
    {
        let mut taken: Vec<usize> = Vec::new();
        core::mem::swap(&mut taken, &mut self.pending);
        taken
    }
}

/// Queues `text` on `stdout` for the console.
pub fn print(stdout: &mut Stdout, text: &str)
    ensures
        final(stdout).pending@ == old(stdout).pending@ + code_points(text@),
{
    stdout.write_str(text);
}

} // verus!
