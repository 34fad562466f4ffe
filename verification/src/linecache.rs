//! Source lines of the profiled program, as far as they have been fetched.

use vstd::prelude::*;

verus! {

/// The text of one line of one file.
pub struct SourceLine {
    pub filename: String,
    pub line_number: usize,
    pub text: String,
}

/// A source line as plain values: file name, line number, text.
pub type SourceLineText = (Seq<char>, usize, Seq<char>);

/// The text that the most recently stored of the lines gives for
/// `line_number` of `filename`, or no text where none of them does.
pub open spec fn stored_text(
    lines: Seq<SourceLineText>,
    filename: Seq<char>,
    line_number: usize,
) -> Seq<char>
    decreases lines.len(),
{
    if lines.len() == 0 {
        Seq::<char>::empty()
    } else if lines.last().0 == filename && lines.last().1 == line_number {
        lines.last().2
    } else {
        stored_text(lines.drop_last(), filename, line_number)
    }
}

/// Source lines by file and number. Lines are counted from 1: line 0 of any
/// file, and any line that was never stored, is empty.
pub struct LineCacher {
    lines: Vec<SourceLine>,
}

impl View for LineCacher {
    type V = Seq<SourceLineText>;

    /// The stored lines, oldest first.
    closed spec fn view(&self) -> Seq<SourceLineText> {
        Seq::new(
            self.lines@.len(),
            |i: int| (self.lines@[i].filename@, self.lines@[i].line_number, self.lines@[i].text@),
        )
    }
}

impl LineCacher {
    /// The text of line `line_number` of `filename`.
    pub open spec fn source_line(&self, filename: Seq<char>, line_number: usize) -> Seq<char> {
        if line_number == 0 {
            Seq::<char>::empty()
        } else {
            stored_text(self@, filename, line_number)
        }
    }

    /// A cache without lines.
    pub fn new() -> (cache: Self)
        ensures
            cache@ == Seq::<SourceLineText>::empty(),
    {
        let cache = LineCacher { lines: Vec::new() };
        assert(cache@ =~= Seq::<SourceLineText>::empty());
        cache
    }

    /// Stores the text of a line; it replaces what was stored for that line
    /// before.
    pub fn store(&mut self, filename: String, line_number: usize, text: String)
        ensures
            final(self)@ == old(self)@.push((filename@, line_number, text@)),
    {
        self.lines.push(SourceLine { filename, line_number, text });
        assert(self@ =~= old(self)@.push((filename@, line_number, text@)));
    }

    /// Get the source code line for the given file.
    pub fn get_source_line(&self, filename: &str, line_number: usize) -> (text: String)
        ensures
            text@ == self.source_line(filename@, line_number),
    {
        if line_number == 0 {
            return String::new();
        }
        let wanted = filename.to_owned();
        let mut idx: usize = self.lines.len();
        proof {
            assert(self@.take(idx as int) =~= self@);
        }
        while idx > 0
            invariant
                idx <= self.lines.len(),
                wanted@ == filename@,
                line_number != 0,
                stored_text(self@, filename@, line_number) == stored_text(
                    self@.take(idx as int),
                    filename@,
                    line_number,
                ),
            decreases idx,
        {
            idx -= 1;
            proof {
                assert(self@.take(idx + 1).drop_last() =~= self@.take(idx as int));
                assert(self@.take(idx + 1).last() == self@[idx as int]);
            }
            let line = &self.lines[idx];
            if line.line_number == line_number && line.filename == wanted {
                return line.text.clone();
            }
        }
        proof {
            assert(self@.take(0) =~= Seq::<SourceLineText>::empty());
        }
        String::new()
    }
}

} // verus!
