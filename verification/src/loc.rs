//! Source locations: a file path together with a line, a column, and a
//! character offset, advanced one character at a time by the lexer.

use vstd::prelude::*;

verus! {

/// A position in a source file. `line` and `col` are one-based; `offset`
/// counts the characters consumed so far.
#[derive(Debug)]
pub struct Loc {
    pub path: String,
    pub line: usize,
    pub col: usize,
    pub offset: usize,
}

impl Clone for Loc {
    fn clone(&self) -> (r: Self)
        ensures
            r == *self,
    {
        Loc { path: self.path.clone(), line: self.line, col: self.col, offset: self.offset }
    }
}

impl Loc {
    /// The starting position of a file: line 1, column 1, no characters read.
    pub fn new(path: &String) -> (r: Self)
        ensures
            r.path@ == path@,
            r.line == 1,
            r.col == 1,
            r.offset == 0,
    {
        Loc { path: path.clone(), line: 1, col: 1, offset: 0 }
    }

    /// Step past one character: a newline starts a new line, anything else
    /// moves one column right. Returns the character unchanged so the call
    /// can be chained around a read.
    pub fn advance(&mut self, ch: char) -> (r: char)
        requires
            old(self).offset < usize::MAX,
            old(self).line < usize::MAX,
            old(self).col < usize::MAX,
        ensures
            r == ch,
            final(self).path == old(self).path,
            final(self).offset == old(self).offset + 1,
            ch == '\n' ==> final(self).line == old(self).line + 1 && final(self).col == 1,
            ch != '\n' ==> final(self).line == old(self).line && final(self).col == old(
                self,
            ).col + 1,
    {
        self.offset = self.offset + 1;
        if ch == '\n' {
            self.line = self.line + 1;
            self.col = 1;
        } else {
            self.col = self.col + 1;
        }
        ch
    }
}

} // verus!
