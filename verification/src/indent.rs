//! Indent policy: how one nesting level is rendered.

use vstd::prelude::*;

verus! {

/// Indentation as a unit string repeated a number of times.
#[derive(Debug, Clone, Copy)]
pub struct BmlIndent {
    pub string: &'static str,
    pub repeat: usize,
}

/// `unit` repeated `count` times.
pub open spec fn repeated(unit: Seq<char>, count: nat) -> Seq<char>
    decreases count,
{
    if count == 0 {
        Seq::empty()
    } else {
        repeated(unit, (count - 1) as nat) + unit
    }
}

/// The default indent: two spaces for each level, none at the root level.
pub open spec fn default_indent() -> BmlIndent {
    BmlIndent { string: "  ", repeat: 0 }
}

impl BmlIndent {
    /// The whitespace this indent stands for.
    pub open spec fn text(self) -> Seq<char> {
        repeated(self.string@, self.repeat as nat)
    }

    /// Indent of the next deeper nesting level.
    pub fn next(self) -> (deeper: Self)
        requires
            self.repeat < usize::MAX,
        ensures
            deeper.string == self.string,
            deeper.repeat == self.repeat + 1,
    {
        BmlIndent { string: self.string, repeat: self.repeat + 1 }
    }

    /// Appends the whitespace of this indent to `out`.
    pub fn write(self, out: &mut String)
        ensures
            final(out)@ == old(out)@ + self.text(),
    {
        let mut done: usize = 0;
        while done < self.repeat
            invariant
                done <= self.repeat,
                out@ == old(out)@ + repeated(self.string@, done as nat),
            decreases self.repeat - done,
        {
            out.append(self.string);
            done = done + 1;
            assert(repeated(self.string@, done as nat) == repeated(
                self.string@,
                (done - 1) as nat,
            ) + self.string@);
        }
    }
}

impl Default for BmlIndent {
    /// Two spaces per level, no indent at the root level.
    fn default() -> (indent: Self)
        ensures
            indent == default_indent(),
    {
        BmlIndent { string: "  ", repeat: 0 }
    }
}

} // verus!
