//! Reading puzzles from lines of text: a line that starts with `Grid` sets
//! puzzles apart, every other line gives digits, with spaces between them or
//! without.

use vstd::prelude::*;
use vstd::string::StrSliceExecFns;
use crate::grid::{well_formed, Puzzle};

verus! {

/// Why a line was turned down.
#[derive(Clone, Copy, Debug, PartialEq, Eq, Structural)]
pub enum LineError {
    /// The line holds a character that is neither a space nor a digit.
    NotADigit,
    /// The line gives an 82nd digit for one puzzle.
    TooManyDigits,
}

/// What a reader holds: the digits read for the puzzle under way, and the
/// puzzles that are complete.
pub struct ReaderView {
    pub digits: Seq<u32>,
    pub puzzles: Seq<Seq<u32>>,
}

/// A reader of puzzles, fed line by line.
pub struct Reader {
    puzzle: [u32; 81],
    filled: usize,
    puzzles: Vec<Puzzle>,
}

/// The line starts with `Grid`.
pub open spec fn is_header(line: Seq<char>) -> bool {
    line.len() >= 4 && line[0] == 'G' && line[1] == 'r' && line[2] == 'i' && line[3] == 'd'
}

/// The value of a decimal digit, and `None` for any other character.
pub open spec fn digit_value(c: char) -> Option<u32> {
    if '0' <= c <= '9' {
        Some((c as u32 - '0' as u32) as u32)
    } else {
        None
    }
}

/// The digits held after the first `n` characters of a line of digits: each
/// space is passed over, each digit is added, and the first character that
/// is neither, or that is an 82nd digit, ends the reading with its error.
pub open spec fn read_chars(digits: Seq<u32>, line: Seq<char>, n: int) -> Result<
    Seq<u32>,
    LineError,
>
    decreases n,
{
    if n <= 0 {
        Ok(digits)
    } else {
        match read_chars(digits, line, n - 1) {
            Err(e) => Err(e),
            Ok(sofar) => {
                let c = line[n - 1];
                if c == ' ' {
                    Ok(sofar)
                } else if digit_value(c) is None {
                    Err(LineError::NotADigit)
                } else if sofar.len() >= 81 {
                    Err(LineError::TooManyDigits)
                } else {
                    Ok(sofar.push(digit_value(c)->0))
                }
            },
        }
    }
}

/// What a reader holds after a line. A header line closes the puzzle under
/// way if all its 81 digits are there, and changes nothing otherwise; any
/// other line adds its digits to the puzzle under way.
pub open spec fn after_line(v: ReaderView, line: Seq<char>) -> Result<ReaderView, LineError> {
    if is_header(line) {
        if v.digits.len() == 81 {
            Ok(ReaderView { digits: Seq::empty(), puzzles: v.puzzles.push(v.digits) })
        } else {
            Ok(v)
        }
    } else {
        match read_chars(v.digits, line, line.len() as int) {
            Ok(digits) => Ok(ReaderView { digits, puzzles: v.puzzles }),
            Err(e) => Err(e),
        }
    }
}

/// The puzzles read once the text has ended: the complete ones, and the one
/// under way if all its 81 digits are there.
pub open spec fn at_end(v: ReaderView) -> Seq<Seq<u32>> {
    if v.digits.len() == 81 {
        v.puzzles.push(v.digits)
    } else {
        v.puzzles
    }
}

/// The value of a decimal digit.
fn to_digit(c: char) -> (d: Option<u32>)
    ensures
        d == digit_value(c),
        d matches Some(v) ==> v <= 9,
{
    if '0' <= c && c <= '9' {
        Some(c as u32 - '0' as u32)
    } else {
        None
    }
}

impl View for Reader {
    type V = ReaderView;

    closed spec fn view(&self) -> ReaderView {
        ReaderView {
            digits: self.puzzle@.take(self.filled as int),
            puzzles: Seq::new(self.puzzles@.len(), |k: int| self.puzzles@[k]@),
        }
    }
}

impl Reader {
    /// The reader holds at most 81 digits for the puzzle under way, and
    /// every board it holds is well formed.
    pub closed spec fn wf(&self) -> bool {
        &&& self.filled <= 81
        &&& forall|k: int| 0 <= k < self.filled ==> #[trigger] self.puzzle@[k] <= 9
        &&& forall|k: int| 0 <= k < self.puzzles@.len() ==> #[trigger] self.puzzles@[k].wf()
    }

    /// A reader that has read nothing.
    pub fn new() -> (r: Reader)
        ensures
            r.wf(),
            r@.digits.len() == 0,
            r@.puzzles.len() == 0,
    {
        Reader { puzzle: [0; 81], filled: 0, puzzles: Vec::new() }
    }

    /// What the reader holds is well formed: no more than 81 digits for the
    /// puzzle under way, and boards of 81 cells in `0..=9`.
    pub proof fn lemma_wf(&self)
        requires
            self.wf(),
        ensures
            self@.digits.len() <= 81,
            forall|k: int| 0 <= k < self@.digits.len() ==> #[trigger] self@.digits[k] <= 9,
            forall|k: int|
                0 <= k < self@.puzzles.len() ==> well_formed(#[trigger] self@.puzzles[k]),
    {
        assert forall|k: int| 0 <= k < self@.puzzles.len() implies well_formed(
            #[trigger] self@.puzzles[k],
        ) by {
            assert(self.puzzles@[k].wf());
        }
    }

    /// Reads one line. Tells whether it was a header line, or why the line
    /// was turned down; a line turned down leaves the reader as it was.
    pub fn feed_line(&mut self, line: &str) -> (res: Result<bool, LineError>)
        requires
            old(self).wf(),
        ensures
            final(self).wf(),
            match after_line(old(self)@, line@) {
                Ok(v) => res == Ok::<bool, LineError>(is_header(line@)) && final(self)@ == v,
                Err(e) => res == Err::<bool, LineError>(e) && final(self)@ == old(self)@,
            },
    {
        let n = line.unicode_len();
        if n >= 4 && line.get_char(0) == 'G' && line.get_char(1) == 'r' && line.get_char(2) == 'i'
            && line.get_char(3) == 'd' {
            if self.filled == 81 {
                let ghost before = self@;
                self.puzzles.push(Puzzle { cells: self.puzzle });
                self.puzzle = [0; 81];
                self.filled = 0;
                proof {
                    assert(before.digits =~= old(self).puzzle@);
                    assert(self@.digits =~= Seq::<u32>::empty());
                    assert(self@.puzzles =~= before.puzzles.push(before.digits));
                }
            }
            return Ok(true);
        }
        let mut puzzle = self.puzzle;
        let mut filled = self.filled;
        for c in it: line.chars()
            invariant
                it.seq() == line@,
                *self == *old(self),
                self.wf(),
                !is_header(line@),
                filled <= 81,
                forall|k: int| 0 <= k < filled ==> #[trigger] puzzle@[k] <= 9,
                read_chars(old(self)@.digits, line@, it.index()) == Ok::<Seq<u32>, LineError>(
                    puzzle@.take(filled as int),
                ),
        {
            if c != ' ' {
                match to_digit(c) {
                    None => {
                        proof {
                            lemma_read_chars_err(
                                old(self)@.digits,
                                line@,
                                it.index() + 1,
                                line@.len() as int,
                            );
                        }
                        return Err(LineError::NotADigit);
                    },
                    Some(d) => {
                        if filled >= 81 {
                            proof {
                                lemma_read_chars_err(
                                    old(self)@.digits,
                                    line@,
                                    it.index() + 1,
                                    line@.len() as int,
                                );
                            }
                            return Err(LineError::TooManyDigits);
                        }
                        let ghost sofar = puzzle@.take(filled as int);
                        puzzle[filled] = d;
                        filled += 1;
                        assert(puzzle@.take(filled as int) =~= sofar.push(d));
                    },
                }
            }
        }
        self.puzzle = puzzle;
        self.filled = filled;
        Ok(false)
    }

    /// Ends the reading and hands out the puzzles read.
    pub fn finish(self) -> (puzzles: Vec<Puzzle>)
        requires
            self.wf(),
        ensures
            puzzles@.len() == at_end(self@).len(),
            forall|k: int|
                0 <= k < puzzles@.len() ==> (#[trigger] puzzles@[k]).wf() && puzzles@[k]@ == at_end(
                    self@,
                )[k],
    {
        let mut puzzles = self.puzzles;
        if self.filled == 81 {
            puzzles.push(Puzzle { cells: self.puzzle });
            assert(self.puzzle@.take(81) =~= self.puzzle@);
        }
        puzzles
    }
}

/// Once the reading of a line has ended in an error, it stays ended.
proof fn lemma_read_chars_err(digits: Seq<u32>, line: Seq<char>, n: int, m: int)
    requires
        0 <= n <= m,
        read_chars(digits, line, n) is Err,
    ensures
        read_chars(digits, line, m) == read_chars(digits, line, n),
    decreases m - n,
{
    if n < m {
        lemma_read_chars_err(digits, line, n, m - 1);
    }
}

} // verus!
