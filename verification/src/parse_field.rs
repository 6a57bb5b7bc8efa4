//! Parser for the external text format: a grid is newline-separated rows of
//! equal length, each character either the configured "empty" glyph or the
//! configured "busy" glyph. Offsets in errors count characters from the
//! start of the input.

use vstd::prelude::*;

verus! {

use vstd::string::StrSliceExecFns;
use crate::util::{Pos, Size};

/// One line of the input, with the character offset of its first character.
pub struct LineOffset {
    pub line: Vec<char>,
    pub offset: usize,
}

/// Index of the first newline at or after `from`; `s.len()` if none.
pub open spec fn first_nl_from(s: Seq<char>, from: int) -> int
    decreases s.len() - from,
{
    if from < 0 || from >= s.len() {
        s.len() as int
    } else if s[from] == '\n' {
        from
    } else {
        first_nl_from(s, from + 1)
    }
}

/// Strips one trailing carriage return, as happens to a line that ended in
/// a newline.
pub open spec fn strip_cr(s: Seq<char>) -> Seq<char> {
    if s.len() > 0 && s.last() == '\r' {
        s.drop_last()
    } else {
        s
    }
}

/// The lines of `s` from position `from` on: maximal newline-free segments,
/// each with its start offset; a segment that ended in a newline loses a
/// trailing carriage return, the final segment keeps one.
pub open spec fn spec_lines_from(s: Seq<char>, from: int) -> Seq<(int, Seq<char>)>
    decreases s.len() - from,
    via spec_lines_from_decreases
{
    if from < 0 || from >= s.len() {
        Seq::empty()
    } else {
        let n = first_nl_from(s, from);
        if n >= s.len() {
            seq![(from, s.subrange(from, s.len() as int))]
        } else {
            seq![(from, strip_cr(s.subrange(from, n)))] + spec_lines_from(s, n + 1)
        }
    }
}

#[via_fn]
proof fn spec_lines_from_decreases(s: Seq<char>, from: int) {
    if 0 <= from < s.len() {
        lemma_first_nl_bounds(s, from);
    }
}

proof fn lemma_first_nl_bounds(s: Seq<char>, from: int)
    requires
        0 <= from <= s.len(),
    ensures
        from <= first_nl_from(s, from) <= s.len(),
        first_nl_from(s, from) < s.len() ==> s[first_nl_from(s, from)] == '\n',
        forall|j: int| from <= j < first_nl_from(s, from) ==> s[j] != '\n',
    decreases s.len() - from,
{
    if from < s.len() && s[from] != '\n' {
        lemma_first_nl_bounds(s, from + 1);
    }
}

fn chars_of(s: &str) -> (r: Vec<char>)
    ensures
        r@ == s@,
        s@.len() <= usize::MAX,
{
    let n = s.unicode_len();
    let mut v: Vec<char> = Vec::new();
    let mut i: usize = 0;
    while i < n
        invariant
            i <= n,
            n == s@.len(),
            v@ == s@.take(i as int),
        decreases n - i,
    {
        let c = s.get_char(i);
        v.push(c);
        proof {
            assert(v@ =~= s@.take(i + 1));
        }
        i = i + 1;
    }
    proof {
        assert(v@ =~= s@);
    }
    v
}

fn copy_range(chars: &Vec<char>, from: usize, to: usize) -> (r: Vec<char>)
    requires
        from <= to <= chars@.len(),
    ensures
        r@ == chars@.subrange(from as int, to as int),
{
    let mut r: Vec<char> = Vec::new();
    let mut i: usize = from;
    while i < to
        invariant
            from <= i <= to <= chars@.len(),
            r@ == chars@.subrange(from as int, i as int),
        decreases to - i,
    {
        r.push(chars[i]);
        proof {
            assert(r@ =~= chars@.subrange(from as int, i + 1));
        }
        i = i + 1;
    }
    r
}

fn split_lines_from(chars: &Vec<char>, from: usize) -> (r: Vec<LineOffset>)
    requires
        from <= chars@.len(),
    ensures
        r@.len() == spec_lines_from(chars@, from as int).len(),
        forall|k: int|
            0 <= k < r@.len() ==> (#[trigger] r@[k]).offset == spec_lines_from(
                chars@,
                from as int,
            )[k].0 && r@[k].line@ == spec_lines_from(chars@, from as int)[k].1,
        forall|k: int|
            0 <= k < r@.len() ==> from <= (#[trigger] r@[k]).offset && r@[k].offset
                + r@[k].line@.len() <= chars@.len(),
    decreases chars@.len() - from,
{
    if from >= chars.len() {
        return Vec::new();
    }
    let mut n: usize = from;
    while n < chars.len() && chars[n] != '\n'
        invariant
            from <= n <= chars@.len(),
            forall|j: int| from <= j < n ==> chars@[j] != '\n',
        decreases chars@.len() - n,
    {
        n = n + 1;
    }
    proof {
        lemma_first_nl_bounds(chars@, from as int);
        assert(first_nl_from(chars@, from as int) == n as int) by {
            let fnl = first_nl_from(chars@, from as int);
            if fnl < n {
                assert(chars@[fnl] != '\n');
            }
            if n < fnl {
                assert(chars@[n as int] != '\n');
            }
        }
    }
    if n == chars.len() {
        let line = copy_range(chars, from, n);
        let mut r: Vec<LineOffset> = Vec::new();
        r.push(LineOffset { line, offset: from });
        return r;
    }
    let end = if n > from && chars[n - 1] == '\r' {
        n - 1
    } else {
        n
    };
    let line = copy_range(chars, from, end);
    proof {
        let seg = chars@.subrange(from as int, n as int);
        if n > from && chars@[n - 1] == '\r' {
            assert(seg.last() == chars@[n - 1]);
            assert(line@ =~= strip_cr(seg));
        } else {
            assert(line@ =~= strip_cr(seg));
        }
    }
    let mut rest = split_lines_from(chars, n + 1);
    let ghost rest0 = rest@;
    let mut r: Vec<LineOffset> = Vec::new();
    r.push(LineOffset { line, offset: from });
    r.append(&mut rest);
    proof {
        let spec_r = spec_lines_from(chars@, from as int);
        let spec_rest = spec_lines_from(chars@, n + 1);
        assert(spec_r == seq![(from as int, strip_cr(chars@.subrange(from as int, n as int)))]
            + spec_rest);
        assert forall|k: int| 0 <= k < r@.len() implies (#[trigger] r@[k]).offset == spec_r[k].0
            && r@[k].line@ == spec_r[k].1 by {
            if k == 0 {
            } else {
                assert(r@[k] == rest0[k - 1]);
                assert(spec_r[k] == spec_rest[k - 1]);
            }
        }
        assert forall|k: int| 0 <= k < r@.len() implies from <= (#[trigger] r@[k]).offset
            && r@[k].offset + r@[k].line@.len() <= chars@.len() by {
            if k > 0 {
                assert(r@[k] == rest0[k - 1]);
            }
        }
    }
    r
}

/// The input's lines, each with the character offset where it starts.
pub fn lines_with_offsets(source: &str) -> (r: Vec<LineOffset>)
    ensures
        r@.len() == spec_lines_from(source@, 0).len(),
        forall|k: int|
            0 <= k < r@.len() ==> (#[trigger] r@[k]).offset == spec_lines_from(source@, 0)[k].0
                && r@[k].line@ == spec_lines_from(source@, 0)[k].1,
        forall|k: int|
            0 <= k < r@.len() ==> 0 <= (#[trigger] r@[k]).offset && r@[k].offset
                + r@[k].line@.len() <= source@.len(),
        source@.len() <= usize::MAX,
{
    let chars = chars_of(source);
    split_lines_from(&chars, 0)
}

/// A parsed grid layout: its size and the blocked positions, in row-major
/// scan order.
#[derive(Debug, PartialEq)]
pub struct ParsedField {
    pub size: Size,
    pub unavailable: Vec<Pos>,
}

/// Parse failures, each with enough positional context to pinpoint the
/// fault; offsets count characters from the start of the input.
#[derive(Clone, Copy, Debug, PartialEq, Eq, Structural)]
pub enum ParseError {
    /// A character that is neither the empty nor the busy glyph.
    UnexpectedCharacter { offset: usize, char_busy: char, char_empty: char },
    /// A row whose length differs from the first row's.
    FickleRowLength { row_offset: usize, len_reference: usize, len_actual: usize },
    /// Fewer than two rows.
    NotEnoughRows,
    /// A first row of fewer than two columns.
    NotEnoughColumns { offset: usize, len: usize },
    /// No rows at all.
    EmptyInput,
}

/// Index of the first character at or after `i` that is neither glyph;
/// `line.len()` if none.
pub open spec fn first_bad_from(line: Seq<char>, empty: char, busy: char, i: int) -> int
    decreases line.len() - i,
{
    if i < 0 || i >= line.len() {
        line.len() as int
    } else if line[i] != empty && line[i] != busy {
        i
    } else {
        first_bad_from(line, empty, busy, i + 1)
    }
}

proof fn lemma_first_bad_bounds(line: Seq<char>, empty: char, busy: char, i: int)
    requires
        0 <= i <= line.len(),
    ensures
        i <= first_bad_from(line, empty, busy, i) <= line.len(),
        first_bad_from(line, empty, busy, i) < line.len() ==> {
            let fb = first_bad_from(line, empty, busy, i);
            line[fb] != empty && line[fb] != busy
        },
        forall|j: int|
            i <= j < first_bad_from(line, empty, busy, i) ==> line[j] == empty || line[j] == busy,
    decreases line.len() - i,
{
    if i < line.len() && (line[i] == empty || line[i] == busy) {
        lemma_first_bad_bounds(line, empty, busy, i + 1);
    }
}

/// The error one line contributes, if any: a wrong length for a row after
/// the first, else its first unexpected character.
pub open spec fn spec_line_error(
    lines: Seq<(int, Seq<char>)>,
    cols: int,
    empty: char,
    busy: char,
    k: int,
) -> Option<ParseError> {
    if k > 0 && lines[k].1.len() != cols {
        Some(
            ParseError::FickleRowLength {
                row_offset: lines[k].0 as usize,
                len_reference: cols as usize,
                len_actual: lines[k].1.len() as usize,
            },
        )
    } else if first_bad_from(lines[k].1, empty, busy, 0) < lines[k].1.len() {
        Some(
            ParseError::UnexpectedCharacter {
                offset: (lines[k].0 + first_bad_from(lines[k].1, empty, busy, 0)) as usize,
                char_busy: busy,
                char_empty: empty,
            },
        )
    } else {
        None
    }
}

/// The first line error at or after line `k`, scanning in line order.
pub open spec fn spec_first_error_from(
    lines: Seq<(int, Seq<char>)>,
    cols: int,
    empty: char,
    busy: char,
    k: int,
) -> Option<ParseError>
    decreases lines.len() - k,
{
    if k < 0 || k >= lines.len() {
        None
    } else {
        match spec_line_error(lines, cols, empty, busy, k) {
            Some(e) => Some(e),
            None => spec_first_error_from(lines, cols, empty, busy, k + 1),
        }
    }
}

/// The error the parser reports for an ill-formed input: no rows, then a
/// too-short first row, then the first per-line error, then too few rows.
pub open spec fn spec_parse_error(s: Seq<char>, empty: char, busy: char) -> ParseError {
    let lines = spec_lines_from(s, 0);
    if lines.len() == 0 {
        ParseError::EmptyInput
    } else if lines[0].1.len() < 2 {
        ParseError::NotEnoughColumns { offset: lines[0].0 as usize, len: lines[0].1.len() as usize }
    } else {
        match spec_first_error_from(lines, lines[0].1.len() as int, empty, busy, 0) {
            Some(e) => e,
            None => ParseError::NotEnoughRows,
        }
    }
}

/// A well-formed input: at least two rows of at least two columns, all rows
/// of the first row's length, every character one of the two glyphs.
pub open spec fn spec_input_ok(s: Seq<char>, empty: char, busy: char) -> bool {
    let lines = spec_lines_from(s, 0);
    &&& lines.len() >= 2
    &&& lines[0].1.len() >= 2
    &&& forall|k: int| 0 <= k < lines.len() ==> (#[trigger] lines[k]).1.len() == lines[0].1.len()
    &&& forall|k: int, i: int|
        0 <= k < lines.len() && 0 <= i < lines[k].1.len() ==> (#[trigger] lines[k].1[i]) == empty
            || lines[k].1[i] == busy
}

/// Whether the input holds the busy glyph at position `p`.
pub open spec fn spec_busy_at(s: Seq<char>, busy: char, p: Pos) -> bool {
    let lines = spec_lines_from(s, 0);
    &&& p.row < lines.len()
    &&& p.col < lines[p.row as int].1.len()
    &&& lines[p.row as int].1[p.col as int] == busy
}

/// Strict row-major order on positions.
pub open spec fn pos_lex_lt(a: Pos, b: Pos) -> bool {
    a.row < b.row || (a.row == b.row && a.col < b.col)
}

/// A field parser for one pair of glyphs.
pub struct Parser {
    char_empty: char,
    char_busy: char,
}

impl Parser {
    pub closed spec fn spec_empty(self) -> char {
        self.char_empty
    }

    pub closed spec fn spec_busy(self) -> char {
        self.char_busy
    }

    pub fn new(char_empty: char, char_busy: char) -> (p: Self)
        ensures
            p.spec_empty() == char_empty,
            p.spec_busy() == char_busy,
    {
        Self { char_empty, char_busy }
    }

    /// Parses a grid layout. Succeeds exactly on well-formed inputs, with
    /// the grid size and the busy positions in row-major order; fails with
    /// the first error in scan order.
    #[verifier::loop_isolation(false)]
    pub fn parse(&self, field: &str) -> (r: Result<ParsedField, ParseError>)
        ensures
            r is Ok <==> spec_input_ok(field@, self.spec_empty(), self.spec_busy()),
            r matches Ok(pf) ==> {
                let lines = spec_lines_from(field@, 0);
                &&& pf.size.rows == lines.len()
                &&& pf.size.cols == lines[0].1.len()
                &&& forall|j: int|
                    0 <= j < pf.unavailable@.len() ==> spec_busy_at(
                        field@,
                        self.spec_busy(),
                        #[trigger] pf.unavailable@[j],
                    )
                &&& forall|p: Pos|
                    spec_busy_at(field@, self.spec_busy(), p) ==> exists|j: int|
                        0 <= j < pf.unavailable@.len() && #[trigger] pf.unavailable@[j] == p
                &&& forall|j1: int, j2: int|
                    0 <= j1 < j2 < pf.unavailable@.len() ==> pos_lex_lt(
                        #[trigger] pf.unavailable@[j1],
                        #[trigger] pf.unavailable@[j2],
                    )
            },
            r matches Err(e) ==> e == spec_parse_error(
                field@,
                self.spec_empty(),
                self.spec_busy(),
            ),
    {
        let empty = self.char_empty;
        let busy = self.char_busy;
        let ghost slines = spec_lines_from(field@, 0);
        let lines = lines_with_offsets(field);
        if lines.len() == 0 {
            return Err(ParseError::EmptyInput);
        }
        let cols = lines[0].line.len();
        if cols < 2 {
            return Err(ParseError::NotEnoughColumns { offset: lines[0].offset, len: cols });
        }
        let mut unavailable: Vec<Pos> = Vec::new();
        let mut k: usize = 0;
        while k < lines.len()
            invariant
                k <= lines@.len(),
                spec_first_error_from(slines, cols as int, empty, busy, 0)
                    == spec_first_error_from(slines, cols as int, empty, busy, k as int),
                forall|kk: int| 0 <= kk < k ==> (#[trigger] slines[kk]).1.len() == cols,
                forall|kk: int, ii: int|
                    0 <= kk < k && 0 <= ii < slines[kk].1.len() ==> (#[trigger] slines[kk].1[ii])
                        == empty || slines[kk].1[ii] == busy,
                forall|j: int|
                    0 <= j < unavailable@.len() ==> spec_busy_at(
                        field@,
                        busy,
                        #[trigger] unavailable@[j],
                    ),
                forall|j: int|
                    0 <= j < unavailable@.len() ==> (#[trigger] unavailable@[j]).row < k,
                forall|p: Pos|
                    spec_busy_at(field@, busy, p) && p.row < k ==> exists|j: int|
                        0 <= j < unavailable@.len() && #[trigger] unavailable@[j] == p,
                forall|j1: int, j2: int|
                    0 <= j1 < j2 < unavailable@.len() ==> pos_lex_lt(
                        #[trigger] unavailable@[j1],
                        #[trigger] unavailable@[j2],
                    ),
            decreases lines@.len() - k,
        {
            let line_len = lines[k].line.len();
            let line_offset = lines[k].offset;
            if k > 0 && line_len != cols {
                let e = ParseError::FickleRowLength {
                    row_offset: line_offset,
                    len_reference: cols,
                    len_actual: line_len,
                };
                proof {
                    assert(spec_line_error(slines, cols as int, empty, busy, k as int) == Some(
                        e,
                    ));
                    assert(spec_first_error_from(slines, cols as int, empty, busy, k as int)
                        == Some(e));
                    assert(!spec_input_ok(field@, empty, busy));
                }
                return Err(e);
            }
            let ghost frontier = unavailable@.len() as int;
            let mut i: usize = 0;
            while i < line_len
                invariant
                    k < lines@.len(),
                    i <= line_len,
                    line_len == slines[k as int].1.len(),
                    line_offset == slines[k as int].0,
                    forall|ii: int|
                        0 <= ii < i ==> (#[trigger] slines[k as int].1[ii]) == empty
                            || slines[k as int].1[ii] == busy,
                    forall|j: int|
                        0 <= j < unavailable@.len() ==> spec_busy_at(
                            field@,
                            busy,
                            #[trigger] unavailable@[j],
                        ),
                    forall|j: int|
                        0 <= j < unavailable@.len() ==> (#[trigger] unavailable@[j]).row < k || (
                        unavailable@[j].row == k && unavailable@[j].col < i),
                    forall|p: Pos|
                        spec_busy_at(field@, busy, p) && (p.row < k || (p.row == k && p.col < i))
                            ==> exists|j: int|
                            0 <= j < unavailable@.len() && #[trigger] unavailable@[j] == p,
                    forall|j1: int, j2: int|
                        0 <= j1 < j2 < unavailable@.len() ==> pos_lex_lt(
                            #[trigger] unavailable@[j1],
                            #[trigger] unavailable@[j2],
                        ),
                decreases line_len - i,
            {
                let c = lines[k].line[i];
                if c == busy {
                    let ghost pre_unav = unavailable@;
                    unavailable.push(Pos { row: k, col: i });
                    proof {
                        assert(unavailable@.last() == (Pos { row: k, col: i }));
                        assert forall|p: Pos|
                            spec_busy_at(field@, busy, p) && (p.row < k || (p.row == k && p.col < i
                                + 1)) implies exists|j: int|
                            0 <= j < unavailable@.len() && #[trigger] unavailable@[j] == p by {
                            if p.row < k || (p.row == k && p.col < i) {
                                let j = choose|j: int|
                                    0 <= j < pre_unav.len() && #[trigger] pre_unav[j] == p;
                                assert(unavailable@[j] == p);
                            } else {
                                assert(p == (Pos { row: k, col: i }));
                                assert(unavailable@[unavailable@.len() - 1] == p);
                            }
                        }
                    }
                } else if c != empty {
                    proof {
                        assert(lines@[k as int].offset + lines@[k as int].line@.len()
                            <= field@.len());
                    }
                    let e = ParseError::UnexpectedCharacter {
                        offset: line_offset + i,
                        char_busy: busy,
                        char_empty: empty,
                    };
                    proof {
                        lemma_first_bad_bounds(slines[k as int].1, empty, busy, 0);
                        let fb = first_bad_from(slines[k as int].1, empty, busy, 0);
                        assert(fb == i) by {
                            if fb < i {
                                assert(slines[k as int].1[fb] == empty || slines[k as int].1[fb]
                                    == busy);
                            }
                            if fb > i {
                                assert(slines[k as int].1[i as int] == empty || slines[
                                    k as int].1[i as int] == busy);
                            }
                        }
                        assert(spec_line_error(slines, cols as int, empty, busy, k as int)
                            == Some(e));
                        assert(spec_first_error_from(slines, cols as int, empty, busy, k as int)
                            == Some(e));
                        assert(!spec_input_ok(field@, empty, busy));
                    }
                    return Err(e);
                }
                i = i + 1;
            }
            proof {
                lemma_first_bad_bounds(slines[k as int].1, empty, busy, 0);
                assert(spec_line_error(slines, cols as int, empty, busy, k as int) is None);
                assert(spec_first_error_from(slines, cols as int, empty, busy, k as int)
                    == spec_first_error_from(slines, cols as int, empty, busy, k + 1));
            }
            k = k + 1;
        }
        if lines.len() < 2 {
            proof {
                assert(spec_first_error_from(slines, cols as int, empty, busy, slines.len() as int)
                    is None);
                assert(!spec_input_ok(field@, empty, busy));
            }
            return Err(ParseError::NotEnoughRows);
        }
        proof {
            assert(spec_input_ok(field@, empty, busy));
            assert(lines@.len() == slines.len());
            assert(cols == slines[0].1.len());
            assert forall|j: int| 0 <= j < unavailable@.len() implies spec_busy_at(
                field@,
                busy,
                #[trigger] unavailable@[j],
            ) by {}
            assert forall|p: Pos| spec_busy_at(field@, busy, p) implies exists|j: int|
                0 <= j < unavailable@.len() && #[trigger] unavailable@[j] == p by {
                assert(p.row < slines.len());
            }
        }
        let ghost unav_final = unavailable@;
        let pf = ParsedField { size: Size { rows: lines.len(), cols }, unavailable };
        proof {
            assert(pf.size.rows == slines.len());
            assert(pf.size.cols == slines[0].1.len());
            assert(pf.unavailable@ == unav_final);
            assert forall|p: Pos| spec_busy_at(field@, self.spec_busy(), p) implies exists|j: int|
                0 <= j < pf.unavailable@.len() && #[trigger] pf.unavailable@[j] == p by {
                assert(p.row < slines.len());
                assert(exists|j: int| 0 <= j < unav_final.len() && #[trigger] unav_final[j] == p);
                let j = choose|j: int| 0 <= j < unav_final.len() && #[trigger] unav_final[j] == p;
                assert(pf.unavailable@[j] == p);
            }
        }
        Ok(pf)
    }
}

} // verus!
