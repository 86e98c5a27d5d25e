//! Level files: a `level` line, a `dimensions` line and rows of cell tokens.
use crate::text::{
    lemma_lines_not_empty, lines, parse_u8, read_u8, same_chars, split_words, words,
    lemma_parse_u8_has_no_x,
};
use vstd::prelude::*;
use vstd::string::*;

verus! {

/// What one cell of the board holds.
#[derive(Clone, Copy, Debug, PartialEq, Eq, Structural)]
pub enum BlockType {
    Solid,
    Breakable,
}

/// A parsed level. `width` and `height` are as declared in the file; the rows
/// are not checked against them.
#[derive(Clone, Debug, PartialEq, Eq)]
pub struct Level {
    pub level: u8,
    pub blocks: Vec<Vec<BlockType>>,
    pub width: u8,
    pub height: u8,
}

/// A level as a mathematical value.
pub struct LevelModel {
    pub level: u8,
    pub blocks: Seq<Seq<BlockType>>,
    pub width: u8,
    pub height: u8,
}

pub open spec fn rows_view(rows: Seq<Vec<BlockType>>) -> Seq<Seq<BlockType>> {
    rows.map_values(|r: Vec<BlockType>| r@)
}

impl View for Level {
    type V = LevelModel;

    open spec fn view(&self) -> LevelModel {
        LevelModel {
            level: self.level,
            blocks: rows_view(self.blocks@),
            width: self.width,
            height: self.height,
        }
    }
}

/// Why a level text was rejected.
#[derive(Clone, Debug, PartialEq, Eq)]
pub enum ParseError {
    /// The argument of a `level` line is not an unsigned 8-bit integer
    /// (empty when the line has none).
    InvalidLevel(String),
    /// The argument of a `dimensions` line is not `<width>x<height>`
    /// (empty when the line has none).
    InvalidDimensions(String),
    /// A row holds a token other than `s` and `b`.
    InvalidToken(String),
    /// No `level` line was found.
    MissingLevel,
    /// No `dimensions` line was found.
    MissingDimensions,
}

/// `ParseError` as a mathematical value.
pub enum ParseFailure {
    InvalidLevel(Seq<char>),
    InvalidDimensions(Seq<char>),
    InvalidToken(Seq<char>),
    MissingLevel,
    MissingDimensions,
}

impl View for ParseError {
    type V = ParseFailure;

    open spec fn view(&self) -> ParseFailure {
        match self {
            ParseError::InvalidLevel(s) => ParseFailure::InvalidLevel(s@),
            ParseError::InvalidDimensions(s) => ParseFailure::InvalidDimensions(s@),
            ParseError::InvalidToken(s) => ParseFailure::InvalidToken(s@),
            ParseError::MissingLevel => ParseFailure::MissingLevel,
            ParseError::MissingDimensions => ParseFailure::MissingDimensions,
        }
    }
}

/// What the lines read so far have set.
pub struct Progress {
    pub level: Option<u8>,
    pub dimensions: Option<(u8, u8)>,
    pub rows: Seq<Seq<BlockType>>,
}

pub open spec fn cell_of(w: Seq<char>) -> Option<BlockType> {
    if w == "s"@ {
        Some(BlockType::Solid)
    } else if w == "b"@ {
        Some(BlockType::Breakable)
    } else {
        None
    }
}

/// The cells named by the tokens `ws`, or the first token that names none.
pub open spec fn row_of(ws: Seq<Seq<char>>) -> Result<Seq<BlockType>, Seq<char>>
    decreases ws.len(),
{
    if ws.len() == 0 {
        Ok(Seq::empty())
    } else {
        match row_of(ws.drop_last()) {
            Err(t) => Err(t),
            Ok(r) => match cell_of(ws.last()) {
                Some(c) => Ok(r.push(c)),
                None => Err(ws.last()),
            },
        }
    }
}

pub open spec fn is_dimensions_split(t: Seq<char>, k: int) -> bool {
    &&& 0 <= k < t.len()
    &&& t[k] == 'x'
    &&& parse_u8(t.take(k)) is Some
    &&& parse_u8(t.skip(k + 1)) is Some
}

/// `<width>x<height>`, each half an unsigned 8-bit integer.
pub open spec fn dimensions_of(t: Seq<char>) -> Option<(u8, u8)> {
    if exists|k: int| is_dimensions_split(t, k) {
        let k = choose|k: int| is_dimensions_split(t, k);
        Some((parse_u8(t.take(k))->Some_0, parse_u8(t.skip(k + 1))->Some_0))
    } else {
        None
    }
}

/// The second word of a line, or nothing.
pub open spec fn argument(ws: Seq<Seq<char>>) -> Seq<char> {
    if ws.len() >= 2 {
        ws[1]
    } else {
        Seq::empty()
    }
}

/// The effect of one line, given as its words.
pub open spec fn apply_line(p: Progress, ws: Seq<Seq<char>>) -> Result<Progress, ParseFailure> {
    if ws.len() == 0 {
        Ok(p)
    } else if ws[0] == "level"@ {
        match parse_u8(argument(ws)) {
            Some(v) => Ok(Progress { level: Some(v), ..p }),
            None => Err(ParseFailure::InvalidLevel(argument(ws))),
        }
    } else if ws[0] == "dimensions"@ {
        match dimensions_of(argument(ws)) {
            Some(d) => Ok(Progress { dimensions: Some(d), ..p }),
            None => Err(ParseFailure::InvalidDimensions(argument(ws))),
        }
    } else {
        match row_of(ws) {
            Ok(r) => Ok(Progress { rows: p.rows.push(r), ..p }),
            Err(t) => Err(ParseFailure::InvalidToken(t)),
        }
    }
}

pub open spec fn start() -> Progress {
    Progress { level: None, dimensions: None, rows: Seq::empty() }
}

/// The lines `ls` read in order; the first failure ends the reading.
pub open spec fn parse_lines(ls: Seq<Seq<char>>) -> Result<Progress, ParseFailure>
    decreases ls.len(),
{
    if ls.len() == 0 {
        Ok(start())
    } else {
        match parse_lines(ls.drop_last()) {
            Err(e) => Err(e),
            Ok(p) => apply_line(p, words(ls.last())),
        }
    }
}

pub open spec fn finish(r: Result<Progress, ParseFailure>) -> Result<LevelModel, ParseFailure> {
    match r {
        Err(e) => Err(e),
        Ok(p) => match p.level {
            None => Err(ParseFailure::MissingLevel),
            Some(level) => match p.dimensions {
                None => Err(ParseFailure::MissingDimensions),
                Some((width, height)) => Ok(
                    LevelModel { level, blocks: p.rows, width, height },
                ),
            },
        },
    }
}

/// The level that the text `s` describes, or why it describes none.
pub open spec fn level_of_text(s: Seq<char>) -> Result<LevelModel, ParseFailure> {
    finish(parse_lines(lines(s)))
}

pub open spec fn result_view(r: Result<Level, ParseError>) -> Result<LevelModel, ParseFailure> {
    match r {
        Ok(l) => Ok(l@),
        Err(e) => Err(e@),
    }
}

/// Reads `<width>x<height>`.
fn read_dimensions(w: &str) -> (r: Option<(u8, u8)>)
    ensures
        r == dimensions_of(w@),
{
    let ghost t = w@;
    let n = w.unicode_len();
    let mut k: usize = 0;
    while k < n && w.get_char(k) != 'x'
        invariant
            k <= n == t.len(),
            t == w@,
            forall|j: int| 0 <= j < k ==> t[j] != 'x',
        decreases n - k,
    {
        k = k + 1;
    }
    if k == n {
        assert(!exists|j: int| is_dimensions_split(t, j));
        return None;
    }
    let first = read_u8(w.substring_char(0, k));
    let second = read_u8(w.substring_char(k + 1, n));
    assert(t.subrange(0, k as int) == t.take(k as int));
    assert(t.subrange(k + 1, n as int) == t.skip(k + 1));
    proof {
        assert forall|j: int| is_dimensions_split(t, j) implies j == k by {
            if j > k {
                assert(t.take(j)[k as int] == 'x');
                lemma_parse_u8_has_no_x(t.take(j), k as int);
            }
        }
    }
    match (first, second) {
        (Some(a), Some(b)) => {
            assert(is_dimensions_split(t, k as int));
            Some((a, b))
        },
        _ => None,
    }
}

/// The fields of a level set so far.
struct Draft {
    level: Option<u8>,
    dimensions: Option<(u8, u8)>,
    rows: Vec<Vec<BlockType>>,
}

impl View for Draft {
    type V = Progress;

    closed spec fn view(&self) -> Progress {
        Progress { level: self.level, dimensions: self.dimensions, rows: rows_view(self.rows@) }
    }
}

fn read_cell(w: &str) -> (r: Option<BlockType>)
    ensures
        r == cell_of(w@),
{
    if same_chars(w, "s") {
        Some(BlockType::Solid)
    } else if same_chars(w, "b") {
        Some(BlockType::Breakable)
    } else {
        None
    }
}

/// Reads the tokens `ws` as a row of cells.
fn read_row(ws: &Vec<&str>) -> (r: Result<Vec<BlockType>, String>)
    ensures
        match r {
            Ok(row) => row_of(ws@.map_values(|w: &str| w@)) == Ok::<Seq<BlockType>, Seq<char>>(
                row@,
            ),
            Err(t) => row_of(ws@.map_values(|w: &str| w@)) == Err::<Seq<BlockType>, Seq<char>>(
                t@,
            ),
        },
{
    let ghost all = ws@.map_values(|w: &str| w@);
    let mut row: Vec<BlockType> = Vec::new();
    let mut i: usize = 0;
    while i < ws.len()
        invariant
            i <= ws@.len() == all.len(),
            all == ws@.map_values(|w: &str| w@),
            row_of(all.take(i as int)) == Ok::<Seq<BlockType>, Seq<char>>(row@),
        decreases ws@.len() - i,
    {
        assert(all.take(i + 1).drop_last() =~= all.take(i as int));
        assert(all.take(i + 1).last() == ws@[i as int]@);
        match read_cell(ws[i]) {
            Some(c) => {
                row.push(c);
            },
            None => {
                assert(all.take(i + 1) =~= all.take(i + 1));
                proof {
                    lemma_row_of_failure_stays(all, i as int + 1);
                }
                return Err(String::from_str(ws[i]));
            },
        }
        i = i + 1;
    }
    assert(all.take(i as int) =~= all);
    Ok(row)
}

/// A token that names no cell fails the whole row.
proof fn lemma_row_of_failure_stays(ws: Seq<Seq<char>>, i: int)
    requires
        0 < i <= ws.len(),
        row_of(ws.take(i)) is Err,
    ensures
        row_of(ws) == row_of(ws.take(i)),
    decreases ws.len() - i,
{
    if i == ws.len() {
        assert(ws.take(i) =~= ws);
    } else {
        assert(ws.take(i + 1).drop_last() =~= ws.take(i));
        lemma_row_of_failure_stays(ws, i + 1);
    }
}

impl Draft {
    /// Applies the line of `text` from `start` up to `end`.
    fn read_line(&mut self, text: &str, start: usize, end: usize) -> (r: Result<(), ParseError>)
        requires
            start <= end <= text@.len(),
        ensures
            match r {
                Ok(_) => apply_line(old(self)@, words(text@.subrange(start as int, end as int)))
                    == Ok::<Progress, ParseFailure>(final(self)@),
                Err(e) => apply_line(old(self)@, words(text@.subrange(start as int, end as int)))
                    == Err::<Progress, ParseFailure>(e@),
            },
    {
        let ws = split_words(text, start, end);
        let ghost w = words(text@.subrange(start as int, end as int));
        assert(ws@.map_values(|x: &str| x@) =~= w);
        if ws.len() == 0 {
            return Ok(());
        }
        let arg: &str = if ws.len() >= 2 {
            ws[1]
        } else {
            ""
        };
        assert(arg@ == argument(w)) by {
            if ws.len() < 2 {
                reveal_strlit("");
                assert(arg@ =~= Seq::<char>::empty());
            }
        }
        if same_chars(ws[0], "level") {
            match read_u8(arg) {
                Some(v) => {
                    self.level = Some(v);
                    Ok(())
                },
                None => Err(ParseError::InvalidLevel(String::from_str(arg))),
            }
        } else if same_chars(ws[0], "dimensions") {
            match read_dimensions(arg) {
                Some(d) => {
                    self.dimensions = Some(d);
                    Ok(())
                },
                None => Err(ParseError::InvalidDimensions(String::from_str(arg))),
            }
        } else {
            match read_row(&ws) {
                Ok(row) => {
                    self.rows.push(row);
                    assert(rows_view(self.rows@) =~= rows_view(old(self).rows@).push(row@));
                    Ok(())
                },
                Err(t) => Err(ParseError::InvalidToken(t)),
            }
        }
    }
}

/// Parses the text of a level file.
///
/// Blank lines are skipped. A line whose first word is `level` sets the level
/// number from its second word; one whose first word is `dimensions` sets the
/// width and height from `<width>x<height>`; any other line is a row of `s`
/// (solid) and `b` (breakable) cells. The first line that cannot be read fails
/// the whole text; so does the absence of a `level` or a `dimensions` line.
pub fn parse_level(text: &str) -> (r: Result<Level, ParseError>)
    ensures
        result_view(r) == level_of_text(text@),
{
    let ghost s = text@;
    let n = text.unicode_len();
    let mut draft = Draft { level: None, dimensions: None, rows: Vec::new() };
    let mut failure: Option<ParseError> = None;
    let mut line_start: usize = 0;
    let mut i: usize = 0;
    assert(draft@.rows =~= start().rows);
    while i < n
        invariant
            line_start <= i <= n == s.len(),
            lines(s.subrange(0, i as int)).len() >= 1,
            s == text@,
            lines(s.subrange(0, i as int)).last() == s.subrange(line_start as int, i as int),
            parse_lines(lines(s.subrange(0, i as int)).drop_last()) == match failure {
                Some(e) => Err::<Progress, ParseFailure>(e@),
                None => Ok(draft@),
            },
        decreases n - i,
    {
        let c = text.get_char(i);
        let ghost before = lines(s.subrange(0, i as int));
        let ghost after = lines(s.subrange(0, i + 1));
        assert(s.subrange(0, i + 1).drop_last() =~= s.subrange(0, i as int));
        proof {
            lemma_lines_not_empty(s.subrange(0, i as int));
        }
        if c == '\n' {
            assert(after.drop_last() =~= before);
            if failure.is_none() {
                match draft.read_line(text, line_start, i) {
                    Ok(_) => {},
                    Err(e) => {
                        failure = Some(e);
                    },
                }
            }
            line_start = i + 1;
            assert(after.last() =~= s.subrange(line_start as int, i + 1));
        } else {
            assert(after.drop_last() =~= before.drop_last());
            assert(after.last() =~= s.subrange(line_start as int, i + 1));
        }
        i = i + 1;
    }
    assert(s.subrange(0, n as int) =~= s);
    proof {
        lemma_lines_not_empty(s);
    }
    if failure.is_none() {
        match draft.read_line(text, line_start, n) {
            Ok(_) => {},
            Err(e) => {
                failure = Some(e);
            },
        }
    }
    match failure {
        Some(e) => Err(e),
        None => match draft.level {
            None => Err(ParseError::MissingLevel),
            Some(level) => match draft.dimensions {
                None => Err(ParseError::MissingDimensions),
                Some((width, height)) => Ok(Level { level, blocks: draft.rows, width, height }),
            },
        },
    }
}

/// Whether the line `l` holds no word.
pub open spec fn is_blank(l: Seq<char>) -> bool {
    words(l).len() == 0
}

/// The lines `ls` without the blank ones.
pub open spec fn without_blank_lines(ls: Seq<Seq<char>>) -> Seq<Seq<char>> {
    ls.filter(|l: Seq<char>| !is_blank(l))
}

/// Whether the first word of the line `l` is `level`.
pub open spec fn names_level(l: Seq<char>) -> bool {
    words(l).len() > 0 && words(l)[0] == "level"@
}

proof fn lemma_parse_lines_skips_blank(ls: Seq<Seq<char>>)
    ensures
        parse_lines(ls) == parse_lines(without_blank_lines(ls)),
    decreases ls.len(),
{
    reveal(Seq::filter);
    if ls.len() > 0 {
        let rest = ls.drop_last();
        lemma_parse_lines_skips_blank(rest);
        let f = without_blank_lines(ls);
        if !is_blank(ls.last()) {
            assert(f.drop_last() =~= without_blank_lines(rest));
        }
    }
}

/// Blank lines do not change what a text parses to: two texts whose lines are
/// the same once the blank ones are left out parse to the same level, or fail
/// in the same way.
pub proof fn lemma_blank_lines_ignored(a: Seq<char>, b: Seq<char>)
    requires
        without_blank_lines(lines(a)) == without_blank_lines(lines(b)),
    ensures
        level_of_text(a) == level_of_text(b),
{
    lemma_parse_lines_skips_blank(lines(a));
    lemma_parse_lines_skips_blank(lines(b));
}

proof fn lemma_level_stays_unset(ls: Seq<Seq<char>>)
    requires
        forall|k: int| 0 <= k < ls.len() ==> !names_level(#[trigger] ls[k]),
    ensures
        parse_lines(ls) is Ok ==> parse_lines(ls)->Ok_0.level is None,
    decreases ls.len(),
{
    if ls.len() > 0 {
        let rest = ls.drop_last();
        assert forall|k: int| 0 <= k < rest.len() implies !names_level(#[trigger] rest[k]) by {
            assert(rest[k] == ls[k]);
        }
        lemma_level_stays_unset(rest);
        assert(!names_level(ls[ls.len() - 1]));
    }
}

/// A text with no line whose first word is `level` is rejected, whatever its
/// other lines hold.
pub proof fn lemma_missing_level_fails(s: Seq<char>)
    requires
        forall|k: int| 0 <= k < lines(s).len() ==> !names_level(#[trigger] lines(s)[k]),
    ensures
        level_of_text(s) is Err,
{
    lemma_level_stays_unset(lines(s));
}

} // verus!
