//! Positions for editor markers: a byte offset into the source
//! becomes a 1-based line and a 1-based column counted in UTF-16 code units.

use vstd::prelude::*;

use crate::dto::Label;

verus! {

/// Bytes that `c` takes in UTF-8.
pub open spec fn utf8_width(c: char) -> nat {
    let v = c as u32;
    if v < 0x80 {
        1
    } else if v < 0x800 {
        2
    } else if v < 0x10000 {
        3
    } else {
        4
    }
}

/// UTF-16 code units that `c` takes.
pub open spec fn utf16_width(c: char) -> nat {
    if (c as u32) < 0x10000 {
        1
    } else {
        2
    }
}

/// Byte offset at which the character `s[k]` starts (or the byte length, for `k == s.len()`).
pub open spec fn byte_offset(s: Seq<char>, k: int) -> nat
    decreases k,
{
    if k <= 0 {
        0
    } else {
        byte_offset(s, k - 1) + utf8_width(s[k - 1])
    }
}

/// Number of leading characters, counting from `k`, that end at or before byte `offset`:
/// the char boundary at or below `offset`, clamped to the text.
pub open spec fn boundary_from(s: Seq<char>, offset: int, k: int) -> int
    decreases s.len() - k,
{
    if 0 <= k < s.len() && byte_offset(s, k + 1) <= offset {
        boundary_from(s, offset, k + 1)
    } else {
        k
    }
}

pub open spec fn boundary(s: Seq<char>, offset: int) -> int {
    boundary_from(s, offset, 0)
}

/// Zero-based line and zero-based UTF-16 column reached after the first `k` characters.
pub open spec fn line_and_column(s: Seq<char>, k: int) -> (int, int)
    decreases k,
{
    if k <= 0 {
        (0, 0)
    } else {
        let (line, column) = line_and_column(s, k - 1);
        if s[k - 1] == '\n' {
            (line + 1, 0)
        } else {
            (line, column + utf16_width(s[k - 1]))
        }
    }
}

/// 1-based line and 1-based UTF-16 column of byte `offset` in `s`.
pub open spec fn spec_position(s: Seq<char>, offset: int) -> (int, int) {
    let (line, column) = line_and_column(s, boundary(s, offset));
    (line + 1, column + 1)
}

proof fn lemma_line_and_column_bounded(s: Seq<char>, k: int)
    requires
        0 <= k <= s.len(),
    ensures
        0 <= line_and_column(s, k).0 <= k,
        0 <= line_and_column(s, k).1 <= byte_offset(s, k),
        k <= byte_offset(s, k),
    decreases k,
{
    if k > 0 {
        lemma_line_and_column_bounded(s, k - 1);
    }
}

pub proof fn lemma_byte_offset_monotonic(s: Seq<char>, j: int, k: int)
    requires
        0 <= j <= k,
    ensures
        byte_offset(s, j) <= byte_offset(s, k),
    decreases k - j,
{
    if j < k {
        lemma_byte_offset_monotonic(s, j, k - 1);
    }
}

/// Newlines among the first `k` characters of `s`.
pub open spec fn newlines(s: Seq<char>, k: int) -> nat
    decreases k,
{
    if k <= 0 {
        0
    } else {
        newlines(s, k - 1) + if s[k - 1] == '\n' {
            1nat
        } else {
            0nat
        }
    }
}

proof fn lemma_lines_are_newlines(s: Seq<char>, k: int)
    requires
        0 <= k <= s.len(),
    ensures
        line_and_column(s, k).0 == newlines(s, k),
    decreases k,
{
    if k > 0 {
        lemma_lines_are_newlines(s, k - 1);
    }
}

proof fn lemma_boundary_at_end(s: Seq<char>, k: int)
    requires
        0 <= k <= s.len(),
    ensures
        boundary_from(s, byte_offset(s, s.len() as int) as int, k) == s.len(),
    decreases s.len() - k,
{
    if k < s.len() {
        lemma_byte_offset_monotonic(s, k + 1, s.len() as int);
        lemma_boundary_at_end(s, k + 1);
    }
}

proof fn lemma_boundary_at_char(s: Seq<char>, k: int, j: int)
    requires
        0 <= j <= k <= s.len(),
    ensures
        boundary_from(s, byte_offset(s, k) as int, j) == k,
    decreases k - j,
{
    if j < k {
        lemma_byte_offset_monotonic(s, j + 1, k);
        lemma_boundary_at_char(s, k, j + 1);
    } else if k < s.len() {
        assert(byte_offset(s, k + 1) == byte_offset(s, k) + utf8_width(s[k]));
    }
}

/// Stepping over one character moves the position as an editor counts: a newline starts the
/// next line at column 1; any other character stays on the line and advances the column by
/// its UTF-16 length, one code unit for a code point below 0x10000 and two above, whatever
/// its length in UTF-8 bytes.
pub proof fn lemma_column_counts_utf16_units(s: Seq<char>, k: int)
    requires
        0 <= k < s.len(),
    ensures
        s[k] == '\n' ==> spec_position(s, byte_offset(s, k + 1) as int) == (
            spec_position(s, byte_offset(s, k) as int).0 + 1,
            1int,
        ),
        s[k] != '\n' ==> spec_position(s, byte_offset(s, k + 1) as int) == (
            spec_position(s, byte_offset(s, k) as int).0,
            spec_position(s, byte_offset(s, k) as int).1 + if (s[k] as u32) < 0x10000 {
                1int
            } else {
                2int
            },
        ),
{
    lemma_boundary_at_char(s, k, 0);
    lemma_boundary_at_char(s, k + 1, 0);
}

/// Byte 0 is line 1, column 1, and the end of the text is on its last line: a text has one
/// line more than it has newlines, so a trailing newline opens an empty last line.
pub proof fn lemma_position_counts_lines(s: Seq<char>)
    ensures
        spec_position(s, 0) == (1int, 1int),
        spec_position(s, byte_offset(s, s.len() as int) as int).0 == 1 + newlines(
            s,
            s.len() as int,
        ),
{
    if s.len() > 0 {
        assert(byte_offset(s, 0) == 0);
        assert(byte_offset(s, 1) == utf8_width(s[0]));
    }
    assert(boundary(s, 0) == 0);
    lemma_boundary_at_end(s, 0);
    lemma_lines_are_newlines(s, s.len() as int);
}

pub fn utf8_width_of(c: char) -> (width: usize)
    ensures
        width == utf8_width(c),
{
    let v = c as u32;
    if v < 0x80 {
        1
    } else if v < 0x800 {
        2
    } else if v < 0x10000 {
        3
    } else {
        4
    }
}

fn utf16_width_of(c: char) -> (width: usize)
    ensures
        width == utf16_width(c),
{
    if (c as u32) < 0x10000 {
        1
    } else {
        2
    }
}

/// Byte offset -> (line, column) lookup for one source string.
pub struct LineIndex<'a> {
    source: &'a str,
    chars: Vec<char>,
}

impl<'a> LineIndex<'a> {
    pub closed spec fn text(&self) -> Seq<char> {
        self.chars@
    }

    pub closed spec fn wf(&self) -> bool {
        self.chars@ == self.source@
    }

    /// The source's length in UTF-8 bytes.
    pub open spec fn byte_len(&self) -> nat {
        byte_offset(self.text(), self.text().len() as int)
    }

    pub fn new(source: &'a str) -> (index: Self)
        ensures
            index.wf(),
            index.text() == source@,
    {
        let mut chars: Vec<char> = Vec::new();
        for c in it: source.chars()
            invariant
                chars@ == it.seq().take(it.index() as int),
        {
            chars.push(c);
        }
        assert(chars@ == source@);
        LineIndex { source, chars }
    }

    /// The source this index was built over.
    pub fn source(&self) -> (source: &'a str)
        requires
            self.wf(),
        ensures
            source@ == self.text(),
    {
        self.source
    }

    /// 1-based line and 1-based UTF-16 column for a byte offset. Offsets are clamped into
    /// range and down to a char boundary rather than rejected.
    pub fn position(&self, offset: usize) -> (position: (u32, u32))
        requires
            self.byte_len() < u32::MAX,
        ensures
            position.0 == spec_position(self.text(), offset as int).0,
            position.1 == spec_position(self.text(), offset as int).1,
    {
        let n = self.chars.len();
        let ghost s = self.chars@;
        let mut k: usize = 0;
        let mut bytes: usize = 0;
        let mut line: usize = 0;
        let mut column: usize = 0;
        while k < n && utf8_width_of(self.chars[k]) <= offset - bytes
            invariant
                n == s.len(),
                s == self.chars@,
                0 <= k <= n,
                bytes == byte_offset(s, k as int),
                bytes <= offset,
                line == line_and_column(s, k as int).0,
                column == line_and_column(s, k as int).1,
                boundary(s, offset as int) == boundary_from(s, offset as int, k as int),
                byte_offset(s, n as int) < u32::MAX,
            decreases n - k,
        {
            let c = self.chars[k];
            proof {
                lemma_line_and_column_bounded(s, k + 1);
                lemma_byte_offset_monotonic(s, k + 1, n as int);
            }
            if c == '\n' {
                line = line + 1;
                column = 0;
            } else {
                column = column + utf16_width_of(c);
            }
            bytes = bytes + utf8_width_of(c);
            k = k + 1;
        }
        proof {
            lemma_line_and_column_bounded(s, k as int);
            lemma_byte_offset_monotonic(s, k as int, n as int);
        }
        ((line as u32) + 1, (column as u32) + 1)
    }

    /// A `Label` spanning `offset..offset + length`.
    pub fn label(&self, message: Option<String>, offset: usize, length: usize) -> (label: Label)
        requires
            self.byte_len() < u32::MAX,
            offset + length <= usize::MAX,
        ensures
            label.message == message,
            label.start_line == spec_position(self.text(), offset as int).0,
            label.start_column == spec_position(self.text(), offset as int).1,
            label.end_line == spec_position(self.text(), offset + length).0,
            label.end_column == spec_position(self.text(), offset + length).1,
            label.offset == offset as u32,
            label.length == length as u32,
    {
        let (start_line, start_column) = self.position(offset);
        let (end_line, end_column) = self.position(offset + length);
        Label {
            message,
            start_line,
            start_column,
            end_line,
            end_column,
            offset: offset as u32,
            length: length as u32,
        }
    }
}

} // verus!
