//! The mutable character buffer behind a rendered picture.
//!
//! A [`Grid`] stores `width * height` characters row-major.  Commands are
//! replayed onto it cell by cell ([`Grid::exec`]); the whole buffer can be
//! serialized to text ([`Grid::to_string`]) and recovered from text
//! ([`Grid::from_str`]), the latter with a precise account of the first
//! malformed row.

use vstd::prelude::*;

verus! {

use crate::Command;
use vstd::string::StrSliceExecFns;

/// Whether a command lies entirely on a `width` x `height` canvas, with
/// positive extents.  This is the fit that [`crate::Script::add_end_command`]
/// enforces and that [`Grid::exec`] relies on.
pub open spec fn cmd_fits(c: Command, width: u32, height: u32) -> bool {
    &&& c.w > 0
    &&& c.h > 0
    &&& c.x + c.w <= width
    &&& c.y + c.h <= height
}

/// Whether the cell at (`x`,`y`) is inside the box that `c` addresses.
pub open spec fn covers(c: Command, x: int, y: int) -> bool {
    &&& c.x <= x < c.x + c.w
    &&& c.y <= y < c.y + c.h
}

/// The character a command writes at a covered cell (`x`,`y`): the fill for
/// a degenerate line, otherwise `+` at the corners, `-` on the top and
/// bottom edges, `|` on the left and right edges, and the fill inside.
pub open spec fn glyph(c: Command, x: int, y: int) -> char {
    if c.w == 1 || c.h == 1 {
        c.fill
    } else if (x == c.x || x == c.x + c.w - 1) && (y == c.y || y == c.y + c.h - 1) {
        '+'
    } else if y == c.y || y == c.y + c.h - 1 {
        '-'
    } else if x == c.x || x == c.x + c.w - 1 {
        '|'
    } else {
        c.fill
    }
}

/// The row-major buffer after one command is drawn onto `cells`: every
/// covered cell takes the command's glyph, every other cell is unchanged.
pub open spec fn paint(cells: Seq<char>, width: nat, c: Command) -> Seq<char> {
    Seq::new(
        cells.len(),
        |k: int|
            if width > 0 && covers(c, k % (width as int), k / (width as int)) {
                glyph(c, k % (width as int), k / (width as int))
            } else {
                cells[k]
            },
    )
}

/// The row-major index of the cell at (`x`,`y`).
pub open spec fn cell_idx(width: int, x: int, y: int) -> int {
    y * width + x
}

/// The text form of the first `height` rows of a row-major buffer: each
/// row's `width` characters followed by one row separator, rows in order.
pub open spec fn rows_text(width: nat, height: nat, cells: Seq<char>) -> Seq<char>
    decreases height,
{
    if height == 0 {
        Seq::empty()
    } else {
        cells.take(width as int) + seq!['\n'] + rows_text(
            width,
            (height - 1) as nat,
            cells.skip(width as int),
        )
    }
}

/// Serialization grows one row at a time: the text of `height + 1` rows is
/// the text of the first `height` rows followed by row `height` and a
/// separator.
pub proof fn lemma_rows_text_snoc(width: nat, height: nat, cells: Seq<char>)
    requires
        (height + 1) * width <= cells.len(),
    ensures
        rows_text(width, height + 1, cells) == rows_text(width, height, cells)
            + cells.subrange((height * width) as int, (height * width + width) as int)
            + seq!['\n'],
    decreases height,
{
    let w = width as int;
    let h = height as int;
    assert((h + 1) * w == h * w + w) by (nonlinear_arith);
    assert(h * w >= 0) by (nonlinear_arith)
        requires
            h >= 0,
            w >= 0,
    ;
    if height == 0 {
        assert(rows_text(width, 0, cells) == Seq::<char>::empty());
        assert(rows_text(width, 0, cells.skip(w)) == Seq::<char>::empty());
        assert(rows_text(width, 1, cells) =~= rows_text(width, 0, cells) + cells.subrange(
            0,
            w,
        ) + seq!['\n']);
    } else {
        assert(width <= cells.len()) by (nonlinear_arith)
            requires
                (height + 1) * width <= cells.len(),
        ;
        let tail = cells.skip(w);
        assert(tail.len() + width == cells.len());
        let hm = (height - 1) as nat;
        assert((hm + 1) * width <= tail.len()) by (nonlinear_arith)
            requires
                (height + 1) * width <= cells.len(),
                tail.len() + width == cells.len(),
                hm + 1 == height,
        ;
        lemma_rows_text_snoc(width, hm, tail);
        assert(hm * width + width == height * width) by (nonlinear_arith)
            requires
                hm + 1 == height,
        ;
        assert(tail.subrange((hm * width) as int, (hm * width + width) as int) =~= cells.subrange(
            (height * width) as int,
            (height * width + width) as int,
        ));
        assert(rows_text(width, height + 1, cells) =~= rows_text(width, height, cells)
            + cells.subrange((height * width) as int, (height * width + width) as int)
            + seq!['\n']);
    }
}

/// The first malformed row found while parsing a picture, or the parsed
/// rows.  Row numbers are 1-indexed and count only rows whose consumption
/// began.
#[verifier::ext_equal]
pub enum Parsed {
    /// Every row was consumed whole; `height` rows with `cells` contents.
    Rows { height: nat, cells: Seq<char> },
    /// Input ran out strictly inside row `row`, after `partial`.
    Premature { row: nat, partial: Seq<char> },
    /// Row `row` was read whole as `partial`, but the next character was
    /// `found` instead of end-of-input or a row separator.
    BadTerm { row: nat, partial: Seq<char>, found: char },
}

/// The character count of the first row of `s`: everything up to the first
/// row separator, or all of `s` if it has none.
pub open spec fn first_line_width(s: Seq<char>) -> nat
    decreases s.len(),
{
    if s.len() == 0 {
        0
    } else if s[0] == '\n' {
        0
    } else {
        1 + first_line_width(s.skip(1))
    }
}

/// Prepends one consumed row to the outcome of parsing the rest: `inc` is 1
/// for a real row and 0 for the zero-width degenerate case, which never
/// counts rows.
pub open spec fn combine_row(row: Seq<char>, inc: nat, rest: Parsed) -> Parsed {
    match rest {
        Parsed::Rows { height, cells } => Parsed::Rows {
            height: height + inc,
            cells: row + cells,
        },
        _ => rest,
    }
}

/// Parses rows of exactly `w` characters from `s`, the first consumed row
/// being number `row0 + 1`.  End-of-input at a row boundary is success;
/// end-of-input strictly inside a row is premature; after a full row only
/// end-of-input or a row separator may follow.
pub open spec fn parse_rows(s: Seq<char>, w: nat, row0: nat) -> Parsed
    decreases s.len(),
{
    if s.len() == 0 {
        Parsed::Rows { height: 0, cells: Seq::empty() }
    } else if s.len() < w {
        Parsed::Premature { row: row0 + 1, partial: s }
    } else {
        let row = s.take(w as int);
        let inc: nat = if w > 0 {
            1
        } else {
            0
        };
        let rest = s.skip(w as int);
        if rest.len() == 0 {
            Parsed::Rows { height: inc, cells: row }
        } else if rest[0] == '\n' {
            combine_row(row, inc, parse_rows(rest.skip(1), w, row0 + inc))
        } else {
            Parsed::BadTerm { row: row0 + inc, partial: row, found: rest[0] }
        }
    }
}

/// The outcome of a whole parse: rows of the first line's width.
pub open spec fn parse_text(s: Seq<char>) -> Parsed {
    parse_rows(s, first_line_width(s), 0)
}

/// Accounts for rows already consumed: `done` cells from `done_rows` rows
/// stand before whatever `rest` of the input still yields.
pub open spec fn with_prefix(done: Seq<char>, done_rows: nat, rest: Parsed) -> Parsed {
    match rest {
        Parsed::Rows { height, cells } => Parsed::Rows {
            height: done_rows + height,
            cells: done + cells,
        },
        _ => rest,
    }
}

/// Folding one more consumed row into the prefix commutes with
/// [`combine_row`].
pub proof fn lemma_with_prefix_step(done: Seq<char>, done_rows: nat, row: Seq<char>, inc: nat, rest: Parsed)
    ensures
        with_prefix(done, done_rows, combine_row(row, inc, rest)) == with_prefix(
            done + row,
            done_rows + inc,
            rest,
        ),
{
    match rest {
        Parsed::Rows { height, cells } => {
            assert(done + (row + cells) =~= (done + row) + cells);
            assert(with_prefix(done, done_rows, combine_row(row, inc, rest)) =~= with_prefix(
                done + row,
                done_rows + inc,
                rest,
            ));
        },
        _ => {},
    }
}

/// A row of `k` characters before a separator (or before end-of-input)
/// fixes the first line's width at `k`.
pub proof fn lemma_first_line_width_at(s: Seq<char>, k: int)
    requires
        0 <= k <= s.len(),
        forall|j: int| 0 <= j < k ==> s[j] != '\n',
        k == s.len() || s[k] == '\n',
    ensures
        first_line_width(s) == k,
    decreases k,
{
    if k == 0 {
    } else {
        lemma_first_line_width_at(s.skip(1), k - 1);
    }
}

/// Row-major coordinates of the cell at index `y * width + x`.
pub proof fn lemma_cell_index(width: int, height: int, x: int, y: int)
    requires
        0 <= x < width,
        0 <= y < height,
    ensures
        0 <= cell_idx(width, x, y) < width * height,
        cell_idx(width, x, y) % width == x,
        cell_idx(width, x, y) / width == y,
{
    assert(0 <= y * width + x < width * height) by (nonlinear_arith)
        requires
            0 <= x < width,
            0 <= y < height,
    ;
    vstd::arithmetic::div_mod::lemma_fundamental_div_mod_converse(
        y * width + x,
        width,
        y,
        x,
    );
}

/// Distinct in-range coordinate pairs index distinct cells.
pub proof fn lemma_cell_index_injective(
    width: int,
    height: int,
    x1: int,
    y1: int,
    x2: int,
    y2: int,
)
    requires
        0 <= x1 < width,
        0 <= y1 < height,
        0 <= x2 < width,
        0 <= y2 < height,
        cell_idx(width, x1, y1) == cell_idx(width, x2, y2),
    ensures
        x1 == x2,
        y1 == y2,
{
    lemma_cell_index(width, height, x1, y1);
    lemma_cell_index(width, height, x2, y2);
}

/// The index of a cell determines its coordinates: `k` splits into the
/// column `k % width` and the row `k / width`, both in range.
pub proof fn lemma_index_coords(width: int, height: int, k: int)
    requires
        width > 0,
        0 <= k < width * height,
    ensures
        0 <= k % width < width,
        0 <= k / width < height,
        (k / width) * width + (k % width) == k,
{
    vstd::arithmetic::div_mod::lemma_fundamental_div_mod(k, width);
    vstd::arithmetic::div_mod::lemma_mod_bound(k, width);
    assert(0 <= k / width < height) by (nonlinear_arith)
        requires
            width > 0,
            0 <= k < width * height,
            k == width * (k / width) + (k % width),
            0 <= k % width < width,
    ;
    assert((k / width) * width + (k % width) == k) by (nonlinear_arith)
        requires
            k == width * (k / width) + (k % width),
    ;
}

/// Why a picture text failed to parse.  Both variants carry the 1-indexed
/// number of the offending row, the part of that row that was read, and
/// what was expected or found.
#[derive(Debug)]
pub enum ParseErr {
    /// Input ran out before the row reached the expected width (the last
    /// field).
    PrematureLineEnd(u32, String, u32),
    /// After a full row, the next character (the last field) was neither
    /// end-of-input nor a row separator.
    BadTerminationChar(u32, String, char),
}

/// A mutable `width` x `height` character buffer, row-major: the cell at
/// (`x`,`y`) sits at index `y * width + x`.
pub struct Grid {
    width: u32,
    height: u32,
    chars: Vec<char>,
}

impl Grid {
    /// The canvas width, in characters per row.
    pub closed spec fn spec_width(&self) -> u32 {
        self.width
    }

    /// The canvas height, in rows.
    pub closed spec fn spec_height(&self) -> u32 {
        self.height
    }

    /// The cell contents, row-major.
    pub closed spec fn cells(&self) -> Seq<char> {
        self.chars@
    }

    /// The buffer holds exactly one character per canvas cell.
    pub open spec fn wf(&self) -> bool {
        self.cells().len() == self.spec_width() * self.spec_height()
    }

    /// The character at (`x`,`y`).
    pub open spec fn cell(&self, x: int, y: int) -> char {
        self.cells()[cell_idx(self.spec_width() as int, x, y)]
    }

    /// Allocates a `width` x `height` grid with every cell set to
    /// `background`.  The cell count is bounded so that the buffer length
    /// stays addressable.
    pub fn new(width: u32, height: u32, background: char) -> (g: Grid)
        requires
            width * height <= u32::MAX,
        ensures
            g.wf(),
            g.spec_width() == width,
            g.spec_height() == height,
            g.cells() == Seq::new((width * height) as nat, |k: int| background),
    {
        let len: usize = (width as usize) * (height as usize);
        let mut chars: Vec<char> = Vec::new();
        let mut i: usize = 0;
        while i < len
            invariant
                i <= len,
                len == width * height,
                chars@.len() == i,
                forall|k: int| 0 <= k < i ==> chars@[k] == background,
            decreases len - i,
        {
            chars.push(background);
            i = i + 1;
        }
        let g = Grid { width, height, chars };
        proof {
            assert(g.cells() =~= Seq::new((width * height) as nat, |k: int| background));
        }
        g
    }

    /// The canvas width.
    pub fn width(&self) -> (w: u32)
        ensures
            w == self.spec_width(),
    {
        self.width
    }

    /// The canvas height.
    pub fn height(&self) -> (h: u32)
        ensures
            h == self.spec_height(),
    {
        self.height
    }

    /// Reads the cell at (`x`,`y`).  Out-of-range coordinates are a caller
    /// bug, ruled out up front.
    pub fn get(&self, x: u32, y: u32) -> (c: char)
        requires
            self.wf(),
            x < self.spec_width(),
            y < self.spec_height(),
        ensures
            c == self.cell(x as int, y as int),
    {
        let n: usize = self.chars.len();
        proof {
            lemma_cell_index(
                self.spec_width() as int,
                self.spec_height() as int,
                x as int,
                y as int,
            );
        }
        let idx: usize = (y as usize) * (self.width as usize) + (x as usize);
        self.chars[idx]
    }

    /// Writes `c` into the cell at (`x`,`y`).  Out-of-range coordinates are
    /// a caller bug, ruled out up front.
    pub fn set(&mut self, x: u32, y: u32, c: char)
        requires
            old(self).wf(),
            x < old(self).spec_width(),
            y < old(self).spec_height(),
        ensures
            final(self).wf(),
            final(self).spec_width() == old(self).spec_width(),
            final(self).spec_height() == old(self).spec_height(),
            final(self).cells() == old(self).cells().update(
                cell_idx(old(self).spec_width() as int, x as int, y as int),
                c,
            ),
    {
        let n: usize = self.chars.len();
        proof {
            lemma_cell_index(
                self.spec_width() as int,
                self.spec_height() as int,
                x as int,
                y as int,
            );
        }
        let idx: usize = (y as usize) * (self.width as usize) + (x as usize);
        self.chars[idx] = c;
    }

    /// Serializes the grid row-major: one line per row, each line holding
    /// the row's `width` characters and terminated by a row separator, the
    /// last row included.
    pub fn to_string(&self) -> (r: String)
        requires
            self.wf(),
        ensures
            r@ == rows_text(
                self.spec_width() as nat,
                self.spec_height() as nat,
                self.cells(),
            ),
    {
        let ghost w = self.spec_width() as int;
        let ghost hh = self.spec_height() as int;
        let ghost cells = self.cells();
        let mut out: Vec<char> = Vec::new();
        let mut y: u32 = 0;
        while y < self.height
            invariant
                self.wf(),
                w == self.spec_width() as int,
                hh == self.spec_height() as int,
                cells == self.cells(),
                (y as int) <= hh,
                out@ == rows_text(self.spec_width() as nat, y as nat, cells),
            decreases hh - (y as int),
        {
            let mut x: u32 = 0;
            proof {
                assert(0 <= (y as int) * w && (y as int) * w + w <= cells.len())
                    by (nonlinear_arith)
                    requires
                        0 <= (y as int) < hh,
                        0 <= w,
                        cells.len() == w * hh,
                ;
                assert(out@ =~= rows_text(self.spec_width() as nat, y as nat, cells)
                    + cells.subrange((y as int) * w, (y as int) * w));
            }
            while x < self.width
                invariant
                    self.wf(),
                    w == self.spec_width() as int,
                    hh == self.spec_height() as int,
                    cells == self.cells(),
                    (y as int) < hh,
                    (x as int) <= w,
                    out@ == rows_text(self.spec_width() as nat, y as nat, cells)
                        + cells.subrange((y as int) * w, (y as int) * w + (x as int)),
                decreases w - (x as int),
            {
                let c = self.get(x, y);
                out.push(c);
                proof {
                    lemma_cell_index(w, hh, x as int, y as int);
                    assert(0 <= (y as int) * w && (y as int) * w + w <= cells.len())
                        by (nonlinear_arith)
                        requires
                            0 <= (y as int) < hh,
                            0 <= w,
                            cells.len() == w * hh,
                    ;
                    assert(out@ =~= rows_text(self.spec_width() as nat, y as nat, cells)
                        + cells.subrange((y as int) * w, (y as int) * w + (x as int + 1)));
                }
                x = x + 1;
            }
            out.push('\n');
            proof {
                assert((y as int + 1) * w <= cells.len()) by (nonlinear_arith)
                    requires
                        0 <= y < hh,
                        0 <= w,
                        cells.len() == w * hh,
                ;
                lemma_rows_text_snoc(self.spec_width() as nat, y as nat, cells);
                assert((y as int + 1) * w == (y as int) * w + w) by (nonlinear_arith);
                assert(out@ =~= rows_text(self.spec_width() as nat, (y + 1) as nat, cells));
            }
            y = y + 1;
        }
        chars_to_string(&out)
    }

    /// Parses a picture text: the width is the first row's character
    /// count, and every row must hold exactly that many characters,
    /// terminated by a row separator or by end-of-input.  A trailing
    /// separator after the last row is optional.  The result is exactly
    /// what [`parse_text`] says of the input, success and errors alike.
    pub fn from_str(s: &str) -> (r: Result<Grid, ParseErr>)
        requires
            s@.len() <= u32::MAX,
        ensures
            match r {
                Ok(g) => {
                    &&& g.wf()
                    &&& g.spec_width() as nat == first_line_width(s@)
                    &&& parse_text(s@) == (Parsed::Rows {
                        height: g.spec_height() as nat,
                        cells: g.cells(),
                    })
                },
                Err(ParseErr::PrematureLineEnd(row, partial, expected)) => {
                    &&& expected as nat == first_line_width(s@)
                    &&& parse_text(s@) == (Parsed::Premature {
                        row: row as nat,
                        partial: partial@,
                    })
                },
                Err(ParseErr::BadTerminationChar(row, partial, found)) => {
                    parse_text(s@) == (Parsed::BadTerm {
                        row: row as nat,
                        partial: partial@,
                        found,
                    })
                },
            },
    {
        let n: usize = s.unicode_len();
        let mut i: usize = 0;
        while i < n && s.get_char(i) != '\n'
            invariant
                n == s@.len(),
                i <= n,
                forall|j: int| 0 <= j < i ==> s@[j] != '\n',
            decreases n - i,
        {
            i = i + 1;
        }
        proof {
            lemma_first_line_width_at(s@, i as int);
        }
        let ghost gw: nat = first_line_width(s@);
        let w_us: usize = i;
        let w: u32 = i as u32;
        let mut cells: Vec<char> = Vec::new();
        let mut h: u32 = 0;
        let mut pos: usize = 0;
        proof {
            assert(s@.skip(0) =~= s@);
            match parse_rows(s@, gw, 0) {
                Parsed::Rows { height, cells: cc } => {
                    assert(Seq::<char>::empty() + cc =~= cc);
                    assert(with_prefix(Seq::<char>::empty(), 0, parse_rows(s@, gw, 0))
                        =~= parse_rows(s@, gw, 0));
                },
                _ => {},
            }
        }
        while pos < n
            invariant
                n == s@.len(),
                n <= u32::MAX,
                gw == first_line_width(s@),
                w_us == gw,
                w == w_us,
                pos <= n,
                h as int <= pos as int,
                cells@.len() == (h as nat) * gw,
                with_prefix(cells@, h as nat, parse_rows(s@.skip(pos as int), gw, h as nat))
                    == parse_rows(s@, gw, 0),
            decreases n - pos,
        {
            let ghost u = s@.skip(pos as int);
            let ghost inc: nat = if gw > 0 {
                1
            } else {
                0
            };
            if n - pos < w_us {
                proof {
                    assert(u.len() == n - pos);
                    assert(parse_rows(u, gw, h as nat) == (Parsed::Premature {
                        row: h as nat + 1,
                        partial: u,
                    }));
                }
                let partial = s.substring_char(pos, n).to_owned();
                proof {
                    assert(partial@ =~= u);
                }
                return Err(ParseErr::PrematureLineEnd(h + 1, partial, w));
            }
            let ghost cells0 = cells@;
            let mut k: usize = 0;
            while k < w_us
                invariant
                    n == s@.len(),
                    pos + w_us <= n,
                    k <= w_us,
                    cells@ == cells0 + s@.subrange(pos as int, pos as int + k as int),
                decreases w_us - k,
            {
                let c = s.get_char(pos + k);
                cells.push(c);
                proof {
                    assert(cells@ =~= cells0 + s@.subrange(
                        pos as int,
                        pos as int + (k as int + 1),
                    ));
                }
                k = k + 1;
            }
            let ghost row = s@.subrange(pos as int, pos as int + w_us as int);
            let pos2: usize = pos + w_us;
            proof {
                assert(row =~= u.take(gw as int));
            }
            if pos2 == n {
                proof {
                    assert(u.take(gw as int) =~= u);
                    assert(u.skip(gw as int).len() == 0);
                    assert(parse_rows(u, gw, h as nat) == (Parsed::Rows {
                        height: 1,
                        cells: u,
                    }));
                    assert(cells@ =~= cells0 + u);
                    assert(cells@.len() == (h as nat + 1) * gw) by (nonlinear_arith)
                        requires
                            cells@.len() == (h as nat) * gw + gw,
                    ;
                    assert((h as nat + 1) * gw == (w as nat) * (h as nat + 1))
                        by (nonlinear_arith)
                        requires
                            gw == w as nat,
                    ;
                }
                let g = Grid { width: w, height: h + 1, chars: cells };
                return Ok(g);
            }
            let c = s.get_char(pos2);
            if c == '\n' {
                proof {
                    let rest = u.skip(gw as int);
                    assert(rest[0] == s@[pos2 as int]);
                    assert(parse_rows(u, gw, h as nat) == combine_row(
                        u.take(gw as int),
                        inc,
                        parse_rows(rest.skip(1), gw, h as nat + inc),
                    ));
                    lemma_with_prefix_step(
                        cells0,
                        h as nat,
                        row,
                        inc,
                        parse_rows(rest.skip(1), gw, h as nat + inc),
                    );
                    assert(rest.skip(1) =~= s@.skip(pos2 as int + 1));
                    assert(cells0 + row =~= cells@);
                    assert(cells@.len() == (h as nat + inc) * gw) by (nonlinear_arith)
                        requires
                            cells@.len() == (h as nat) * gw + gw,
                            inc == 1 || (inc == 0 && gw == 0),
                    ;
                }
                if w_us > 0 {
                    h = h + 1;
                }
                pos = pos2 + 1;
            } else {
                proof {
                    let rest = u.skip(gw as int);
                    assert(rest[0] == s@[pos2 as int]);
                    assert(parse_rows(u, gw, h as nat) == (Parsed::BadTerm {
                        row: h as nat + inc,
                        partial: u.take(gw as int),
                        found: rest[0],
                    }));
                }
                let partial = s.substring_char(pos, pos2).to_owned();
                let row_number: u32 = if w_us > 0 {
                    h + 1
                } else {
                    h
                };
                proof {
                    assert(partial@ =~= row);
                }
                return Err(ParseErr::BadTerminationChar(row_number, partial, c));
            }
        }
        proof {
            assert(s@.skip(pos as int).len() == 0);
            assert(cells@ + Seq::<char>::empty() =~= cells@);
            assert((h as nat) * gw == (w as nat) * (h as nat)) by (nonlinear_arith)
                requires
                    gw == w as nat,
            ;
        }
        Ok(Grid { width: w, height: h, chars: cells })
    }

    /// Draws `command` onto the grid: every covered cell takes the
    /// command's glyph, every other cell keeps its value.  A degenerate
    /// command (`w == 1` or `h == 1`) is drawn as a solid line of the fill
    /// character, without a border.
    pub fn exec(&mut self, command: &Command)
        requires
            old(self).wf(),
            cmd_fits(*command, old(self).spec_width(), old(self).spec_height()),
        ensures
            final(self).wf(),
            final(self).spec_width() == old(self).spec_width(),
            final(self).spec_height() == old(self).spec_height(),
            final(self).cells() == paint(
                old(self).cells(),
                old(self).spec_width() as nat,
                *command,
            ),
    {
        if command.w == 1 || command.h == 1 {
            self.draw_line(command)
        } else {
            self.paint_cells(command)
        }
    }

    /// Draws a degenerate command: the whole addressed box is filled with
    /// the fill character and no border glyph is written.
    fn draw_line(&mut self, command: &Command)
        requires
            old(self).wf(),
            cmd_fits(*command, old(self).spec_width(), old(self).spec_height()),
            command.w == 1 || command.h == 1,
        ensures
            final(self).wf(),
            final(self).spec_width() == old(self).spec_width(),
            final(self).spec_height() == old(self).spec_height(),
            final(self).cells() == paint(
                old(self).cells(),
                old(self).spec_width() as nat,
                *command,
            ),
    {
        self.paint_cells(command)
    }

    /// Writes the glyph of `c` into every cell that `c` covers, row by row.
    fn paint_cells(&mut self, c: &Command)
        requires
            old(self).wf(),
            cmd_fits(*c, old(self).spec_width(), old(self).spec_height()),
        ensures
            final(self).wf(),
            final(self).spec_width() == old(self).spec_width(),
            final(self).spec_height() == old(self).spec_height(),
            final(self).cells() == paint(
                old(self).cells(),
                old(self).spec_width() as nat,
                *c,
            ),
    {
        let ghost cells0 = old(self).cells();
        let ghost w = old(self).spec_width() as int;
        let ghost hh = old(self).spec_height() as int;
        let x1 = c.x + c.w;
        let y1 = c.y + c.h;
        let mut j = c.y;
        while j < y1
            invariant
                self.wf(),
                self.spec_width() as int == w,
                self.spec_height() as int == hh,
                self.cells().len() == cells0.len(),
                cmd_fits(*c, self.spec_width(), self.spec_height()),
                x1 == c.x + c.w,
                y1 == c.y + c.h,
                c.y <= j <= y1,
                forall|xx: int, yy: int|
                    0 <= xx < w && 0 <= yy < hh ==> self.cells()[#[trigger] cell_idx(w, xx, yy)]
                        == (if covers(*c, xx, yy) && yy < j {
                            glyph(*c, xx, yy)
                        } else {
                            cells0[cell_idx(w, xx, yy)]
                        }),
            decreases y1 - j,
        {
            let mut i = c.x;
            while i < x1
                invariant
                    self.wf(),
                    self.spec_width() as int == w,
                    self.spec_height() as int == hh,
                    self.cells().len() == cells0.len(),
                    cmd_fits(*c, self.spec_width(), self.spec_height()),
                    x1 == c.x + c.w,
                    y1 == c.y + c.h,
                    c.y <= j < y1,
                    c.x <= i <= x1,
                    forall|xx: int, yy: int|
                        0 <= xx < w && 0 <= yy < hh ==> self.cells()[#[trigger] cell_idx(
                            w,
                            xx,
                            yy,
                        )] == (if covers(*c, xx, yy) && (yy < j || (yy == j && xx < i)) {
                            glyph(*c, xx, yy)
                        } else {
                            cells0[cell_idx(w, xx, yy)]
                        }),
                decreases x1 - i,
            {
                let g = glyph_at(c, i, j);
                self.set(i, j, g);
                proof {
                    assert forall|xx: int, yy: int|
                        0 <= xx < w && 0 <= yy < hh implies self.cells()[#[trigger] cell_idx(
                        w,
                        xx,
                        yy,
                    )] == (if covers(*c, xx, yy) && (yy < j || (yy == j && xx < i + 1)) {
                        glyph(*c, xx, yy)
                    } else {
                        cells0[cell_idx(w, xx, yy)]
                    }) by {
                        lemma_cell_index(w, hh, xx, yy);
                        lemma_cell_index(w, hh, i as int, j as int);
                        if cell_idx(w, xx, yy) == cell_idx(w, i as int, j as int) {
                            lemma_cell_index_injective(w, hh, xx, yy, i as int, j as int);
                        }
                    }
                }
                i = i + 1;
            }
            j = j + 1;
        }
        proof {
            assert forall|k: int| 0 <= k < self.cells().len() implies self.cells()[k] == paint(
                cells0,
                w as nat,
                *c,
            )[k] by {
                lemma_index_coords(w, hh, k);
                assert(cell_idx(w, k % w, k / w) == k);
            }
            assert(self.cells() =~= paint(cells0, w as nat, *c));
        }
    }
}

/// The serialized text of at least one row ends with a row separator.
proof fn lemma_rows_text_last(width: nat, height: nat, cells: Seq<char>)
    requires
        height >= 1,
    ensures
        rows_text(width, height, cells).len() >= 1,
        rows_text(width, height, cells).last() == '\n',
    decreases height,
{
    let w = width as int;
    if height == 1 {
        assert(rows_text(width, 0, cells.skip(w)) == Seq::<char>::empty());
        assert(rows_text(width, 1, cells).last() == '\n');
    } else {
        lemma_rows_text_last(width, (height - 1) as nat, cells.skip(w));
    }
}

/// Parsing back a serialized buffer of complete rows, with the trailing
/// separator present, yields exactly those rows.
proof fn lemma_parse_trailing(width: nat, height: nat, cells: Seq<char>, row0: nat)
    requires
        width > 0,
        cells.len() == height * width,
    ensures
        parse_rows(rows_text(width, height, cells), width, row0) == (Parsed::Rows {
            height,
            cells,
        }),
    decreases height,
{
    let w = width as int;
    let t = rows_text(width, height, cells);
    if height == 0 {
        assert(cells =~= Seq::<char>::empty());
        assert(parse_rows(t, width, row0) =~= (Parsed::Rows { height, cells }));
    } else {
        assert(width <= cells.len()) by (nonlinear_arith)
            requires
                cells.len() == height * width,
                height >= 1,
        ;
        let row = cells.take(w);
        let tail = cells.skip(w);
        assert(tail.len() == (height - 1) * width) by (nonlinear_arith)
            requires
                cells.len() == height * width,
                tail.len() == cells.len() - width,
                height >= 1,
        ;
        let tt = rows_text(width, (height - 1) as nat, tail);
        assert(t == row + seq!['\n'] + tt);
        assert(t.take(w) =~= row);
        let rest = t.skip(w);
        assert(rest =~= seq!['\n'] + tt);
        assert(rest[0] == '\n');
        assert(rest.skip(1) =~= tt);
        lemma_parse_trailing(width, (height - 1) as nat, tail, row0 + 1);
        assert(row + tail =~= cells);
        assert(parse_rows(t, width, row0) =~= (Parsed::Rows { height, cells }));
    }
}

/// The same, for a serialized buffer whose trailing separator was taken
/// off: the last row then ends at end-of-input.
proof fn lemma_parse_no_trailing(width: nat, height: nat, cells: Seq<char>, row0: nat)
    requires
        width > 0,
        height >= 1,
        cells.len() == height * width,
    ensures
        parse_rows(rows_text(width, height, cells).drop_last(), width, row0) == (Parsed::Rows {
            height,
            cells,
        }),
    decreases height,
{
    let w = width as int;
    assert(width <= cells.len()) by (nonlinear_arith)
        requires
            cells.len() == height * width,
            height >= 1,
    ;
    let row = cells.take(w);
    let tail = cells.skip(w);
    assert(tail.len() == (height - 1) * width) by (nonlinear_arith)
        requires
            cells.len() == height * width,
            tail.len() == cells.len() - width,
            height >= 1,
    ;
    let tt = rows_text(width, (height - 1) as nat, tail);
    let t = rows_text(width, height, cells);
    if height == 1 {
        assert(tt == Seq::<char>::empty());
        assert(t.drop_last() =~= row);
        assert(cells.len() == width) by (nonlinear_arith)
            requires
                cells.len() == height * width,
                height == 1,
        ;
        assert(cells =~= row);
        assert(row.take(w) =~= row);
        assert(row.skip(w).len() == 0);
        assert(parse_rows(t.drop_last(), width, row0) =~= (Parsed::Rows { height, cells }));
    } else {
        lemma_rows_text_last(width, (height - 1) as nat, tail);
        let td = t.drop_last();
        assert(td =~= row + seq!['\n'] + tt.drop_last());
        assert(td.take(w) =~= row);
        let rest = td.skip(w);
        assert(rest =~= seq!['\n'] + tt.drop_last());
        assert(rest[0] == '\n');
        assert(rest.skip(1) =~= tt.drop_last());
        lemma_parse_no_trailing(width, (height - 1) as nat, tail, row0 + 1);
        assert(row + tail =~= cells);
        assert(parse_rows(td, width, row0) =~= (Parsed::Rows { height, cells }));
    }
}

/// A serialized buffer without separators among its cells opens with a
/// full row, so the first line's width is the buffer's width.
proof fn lemma_text_width(width: nat, height: nat, cells: Seq<char>, trailing: bool)
    requires
        width > 0,
        height >= 1,
        cells.len() == height * width,
        forall|k: int| 0 <= k < cells.len() ==> cells[k] != '\n',
    ensures
        first_line_width(
            if trailing {
                rows_text(width, height, cells)
            } else {
                rows_text(width, height, cells).drop_last()
            },
        ) == width,
{
    let w = width as int;
    assert(width <= cells.len()) by (nonlinear_arith)
        requires
            cells.len() == height * width,
            height >= 1,
    ;
    let row = cells.take(w);
    let tail = cells.skip(w);
    let tt = rows_text(width, (height - 1) as nat, tail);
    let t0 = rows_text(width, height, cells);
    assert(t0 == row + seq!['\n'] + tt);
    if height == 1 && !trailing {
        assert(tt == Seq::<char>::empty());
        let t = t0.drop_last();
        assert(t =~= row);
        assert(forall|j: int| 0 <= j < w ==> t[j] == cells[j]);
        lemma_first_line_width_at(t, w);
    } else if trailing {
        assert(forall|j: int| 0 <= j < w ==> t0[j] == cells[j]);
        assert(t0[w] == '\n');
        lemma_first_line_width_at(t0, w);
    } else {
        lemma_rows_text_last(width, (height - 1) as nat, tail);
        let t = t0.drop_last();
        assert(t =~= row + seq!['\n'] + tt.drop_last());
        assert(forall|j: int| 0 <= j < w ==> t[j] == cells[j]);
        assert(t[w] == '\n');
        lemma_first_line_width_at(t, w);
    }
}

/// Law (parser round trip): a text of complete rows of one positive
/// width, holding no row separator inside a row and with the trailing
/// separator optional, parses successfully to exactly those rows — and
/// serializing the parse reproduces the text, trailing separator
/// normalized present.
pub proof fn lemma_parser_round_trip(width: nat, height: nat, cells: Seq<char>, trailing: bool)
    requires
        width > 0,
        height >= 1,
        cells.len() == height * width,
        forall|k: int| 0 <= k < cells.len() ==> cells[k] != '\n',
    ensures
        ({
            let t = if trailing {
                rows_text(width, height, cells)
            } else {
                rows_text(width, height, cells).drop_last()
            };
            &&& first_line_width(t) == width
            &&& parse_text(t) == (Parsed::Rows { height, cells })
            &&& rows_text(width, height, cells) == (if trailing {
                t
            } else {
                t.push('\n')
            })
        }),
{
    lemma_text_width(width, height, cells, trailing);
    if trailing {
        lemma_parse_trailing(width, height, cells, 0);
    } else {
        lemma_parse_no_trailing(width, height, cells, 0);
        lemma_rows_text_last(width, height, cells);
        assert(rows_text(width, height, cells) =~= rows_text(
            width,
            height,
            cells,
        ).drop_last().push('\n'));
    }
}

/// Law (degenerate line): a command with `w == 1` or `h == 1` fills
/// exactly the box it addresses with its fill character — no `+`, `-` or
/// `|` is written, whatever the fill — and every cell outside the box is
/// untouched.
pub proof fn lemma_degenerate_line_fills(
    cells: Seq<char>,
    width: nat,
    c: Command,
    x: int,
    y: int,
)
    requires
        c.w == 1 || c.h == 1,
        width > 0,
        0 <= x < width,
        0 <= y,
        cell_idx(width as int, x, y) < cells.len(),
    ensures
        covers(c, x, y) ==> paint(cells, width, c)[cell_idx(width as int, x, y)] == c.fill,
        !covers(c, x, y) ==> paint(cells, width, c)[cell_idx(width as int, x, y)] == cells[
            cell_idx(width as int, x, y)
        ],
{
    lemma_paint_at(cells, width, c, x, y);
}

/// Law (overwrite ordering): painting `c1` and then `c2` leaves `c2`'s
/// glyph on every cell that `c2` covers — whatever `c1` wrote there first.
pub proof fn lemma_overwrite_ordering(
    cells: Seq<char>,
    width: nat,
    c1: Command,
    c2: Command,
    x: int,
    y: int,
)
    requires
        width > 0,
        0 <= x < width,
        0 <= y,
        cell_idx(width as int, x, y) < cells.len(),
        covers(c2, x, y),
    ensures
        paint(paint(cells, width, c1), width, c2)[cell_idx(width as int, x, y)] == glyph(
            c2,
            x,
            y,
        ),
{
    lemma_paint_at(paint(cells, width, c1), width, c2, x, y);
}

/// What one painted cell holds, read back through its coordinates.
pub proof fn lemma_paint_at(cells: Seq<char>, width: nat, c: Command, x: int, y: int)
    requires
        width > 0,
        0 <= x < width,
        0 <= y,
        cell_idx(width as int, x, y) < cells.len(),
    ensures
        covers(c, x, y) ==> paint(cells, width, c)[cell_idx(width as int, x, y)] == glyph(
            c,
            x,
            y,
        ),
        !covers(c, x, y) ==> paint(cells, width, c)[cell_idx(width as int, x, y)] == cells[
            cell_idx(width as int, x, y)
        ],
{
    let w = width as int;
    assert(y * w + x >= 0) by (nonlinear_arith)
        requires
            y >= 0,
            w > 0,
            x >= 0,
    ;
    vstd::arithmetic::div_mod::lemma_fundamental_div_mod_converse(y * w + x, w, y, x);
}

/// Relies on String's FromIterator impl for char, reached through
/// Iterator::collect: collecting characters yields the string of exactly
/// those characters, in order.
#[verifier::external_body]
fn chars_to_string(v: &Vec<char>) -> (s: String)
    ensures
        s@ == v@,
{
    v.iter().collect()
}

/// The glyph that `c` writes at the covered cell (`x`,`y`).
fn glyph_at(c: &Command, x: u32, y: u32) -> (g: char)
    requires
        c.w > 0,
        c.h > 0,
        c.x + c.w <= u32::MAX,
        c.y + c.h <= u32::MAX,
        covers(*c, x as int, y as int),
    ensures
        g == glyph(*c, x as int, y as int),
{
    if c.w == 1 || c.h == 1 {
        c.fill
    } else {
        let right = c.x + c.w - 1;
        let bottom = c.y + c.h - 1;
        let on_vertical = x == c.x || x == right;
        let on_horizontal = y == c.y || y == bottom;
        if on_vertical && on_horizontal {
            '+'
        } else if on_horizontal {
            '-'
        } else if on_vertical {
            '|'
        } else {
            c.fill
        }
    }
}

} // verus!
