//! Rectangle-based ASCII-art pictures.
//!
//! A [`Script`] is an ordered list of rectangle-draw [`Command`]s over a
//! fixed-size character canvas; running a script yields a picture, one line
//! of text per row.  The [`grid`] module holds the character buffer, the
//! forward renderer and the text parser.  The [`Undraw`] trait and
//! [`check_undraw`] form the inverse direction: a candidate script for a
//! picture is accepted exactly when re-rendering it reproduces the picture
//! byte for byte.

use vstd::prelude::*;

pub mod grid;

verus! {

use crate::grid::Grid;
use crate::grid::Parsed;
use crate::grid::cmd_fits;
use crate::grid::first_line_width;
use crate::grid::lemma_parser_round_trip;
use crate::grid::paint;
use crate::grid::parse_text;
use crate::grid::rows_text;

/// One rectangle-draw instruction: a box at (`x`,`y`) of extent `w` x `h`,
/// filled with the character `fill`.
#[derive(Clone, Copy)]
pub struct Command {
    pub x: u32,
    pub y: u32,
    pub w: u32,
    pub h: u32,
    pub fill: char,
}

/// Builds the command that draws a rectangle at (`x`,`y`) with width `w`
/// and height `h`, filled with the character `fill`.  Both extents must be
/// positive.
pub fn rect(x: u32, y: u32, w: u32, h: u32, fill: char) -> (c: Command)
    requires
        w > 0,
        h > 0,
    ensures
        c == (Command { x, y, w, h, fill }),
{
    Command { x, y, w, h, fill }
}

/// The buffer left after drawing `cmds` onto `cells` in order, each
/// command through [`paint`].
pub open spec fn replay(cells: Seq<char>, width: nat, cmds: Seq<Command>) -> Seq<char>
    decreases cmds.len(),
{
    if cmds.len() == 0 {
        cells
    } else {
        replay(paint(cells, width, cmds[0]), width, cmds.drop_first())
    }
}

/// Replaying one more command paints it over the replay of the others.
pub proof fn lemma_replay_snoc(cells: Seq<char>, width: nat, cmds: Seq<Command>, c: Command)
    ensures
        replay(cells, width, cmds.push(c)) == paint(replay(cells, width, cmds), width, c),
    decreases cmds.len(),
{
    if cmds.len() == 0 {
        assert(cmds.push(c)[0] == c);
        assert(cmds.push(c).drop_first() =~= Seq::<Command>::empty());
        assert(replay(paint(cells, width, c), width, Seq::<Command>::empty()) == paint(
            cells,
            width,
            c,
        ));
        assert(replay(cells, width, cmds) == cells);
    } else {
        assert(cmds.push(c)[0] == cmds[0]);
        assert(cmds.push(c).drop_first() =~= cmds.drop_first().push(c));
        lemma_replay_snoc(paint(cells, width, cmds[0]), width, cmds.drop_first(), c);
    }
}

/// An ordered, validated list of rectangle commands over a `width` x
/// `height` canvas with a `background` glyph.  Appending is the sole point
/// of validation: every stored command fits the canvas.
#[derive(Clone)]
pub struct Script {
    /// Width of the generated picture.
    pub width: u32,
    /// Height of the generated picture.
    pub height: u32,
    /// Character used to render the background of the generated picture.
    pub background: char,
    commands: Vec<Command>,
}

impl Script {
    /// The command sequence, in insertion (and render) order.
    pub closed spec fn spec_commands(&self) -> Seq<Command> {
        self.commands@
    }

    /// The canvas width.
    pub closed spec fn spec_width(&self) -> u32 {
        self.width
    }

    /// The canvas height.
    pub closed spec fn spec_height(&self) -> u32 {
        self.height
    }

    /// The background glyph.
    pub closed spec fn spec_background(&self) -> char {
        self.background
    }

    /// The canvas allocates one cell per coordinate, so its area must
    /// stay within the cell counter's range.
    pub open spec fn area_in_range(&self) -> bool {
        self.spec_width() * self.spec_height() <= u32::MAX
    }

    /// Every stored command fits the canvas.
    pub open spec fn wf(&self) -> bool {
        forall|i: int|
            0 <= i < self.spec_commands().len() ==> cmd_fits(
                #[trigger] self.spec_commands()[i],
                self.spec_width(),
                self.spec_height(),
            )
    }

    /// The canvas before any command is drawn: all background.
    pub open spec fn background_cells(&self) -> Seq<char> {
        Seq::new(
            (self.spec_width() * self.spec_height()) as nat,
            |k: int| self.spec_background(),
        )
    }

    /// The canvas after every command is drawn in order.
    pub open spec fn run_cells(&self) -> Seq<char> {
        replay(self.background_cells(), self.spec_width() as nat, self.spec_commands())
    }

    /// The picture text that running the script produces.
    pub open spec fn run_text(&self) -> Seq<char> {
        rows_text(self.spec_width() as nat, self.spec_height() as nat, self.run_cells())
    }

    /// Creates an empty script for a `width` x `height` picture with the
    /// default background `'.'`.
    pub fn new(width: u32, height: u32) -> (s: Script)
        ensures
            s.spec_width() == width,
            s.spec_height() == height,
            s.spec_background() == '.',
            s.spec_commands() == Seq::<Command>::empty(),
            s.wf(),
    {
        Script::new_bg_commands(width, height, '.', &[])
    }

    /// Creates a script for a `width` x `height` picture holding
    /// `commands`, with the default background `'.'`.  Every command must
    /// fit the canvas.
    pub fn new_commands(width: u32, height: u32, commands: &[Command]) -> (s: Script)
        requires
            forall|i: int|
                0 <= i < commands@.len() ==> cmd_fits(#[trigger] commands@[i], width, height),
        ensures
            s.spec_width() == width,
            s.spec_height() == height,
            s.spec_background() == '.',
            s.spec_commands() == commands@,
            s.wf(),
    {
        Script::new_bg_commands(width, height, '.', commands)
    }

    /// Creates a script for a `w` x `h` picture holding `cmds`, with
    /// background `bg`.  Every command must fit the canvas.
    pub fn new_bg_commands(w: u32, h: u32, bg: char, cmds: &[Command]) -> (s: Script)
        requires
            forall|i: int| 0 <= i < cmds@.len() ==> cmd_fits(#[trigger] cmds@[i], w, h),
        ensures
            s.spec_width() == w,
            s.spec_height() == h,
            s.spec_background() == bg,
            s.spec_commands() == cmds@,
            s.wf(),
    {
        let mut s = Script { width: w, height: h, background: bg, commands: Vec::new() };
        let n: usize = cmds.len();
        let mut i: usize = 0;
        while i < n
            invariant
                n == cmds@.len(),
                i <= n,
                s.width == w,
                s.height == h,
                s.background == bg,
                s.spec_commands() == cmds@.take(i as int),
                forall|j: int| 0 <= j < n ==> cmd_fits(#[trigger] cmds@[j], w, h),
            decreases n - i,
        {
            let c = cmds[i];
            s.add_end_command(c);
            proof {
                assert(cmds@.take(i as int).push(cmds@[i as int]) =~= cmds@.take(i as int + 1));
            }
            i = i + 1;
        }
        proof {
            assert(cmds@.take(n as int) =~= cmds@);
        }
        s
    }

    /// Appends one command.  The command must fit the canvas: for both
    /// axes, position plus extent stays within the canvas, and the extent
    /// is positive.  A command that does not fit is a caller bug, ruled
    /// out up front.
    pub fn add_end_command(&mut self, c: Command)
        requires
            cmd_fits(c, old(self).spec_width(), old(self).spec_height()),
        ensures
            final(self).spec_width() == old(self).spec_width(),
            final(self).spec_height() == old(self).spec_height(),
            final(self).spec_background() == old(self).spec_background(),
            final(self).spec_commands() == old(self).spec_commands().push(c),
            old(self).wf() ==> final(self).wf(),
    {
        self.commands.push(c);
        proof {
            if old(self).wf() {
                assert forall|i: int| 0 <= i < self.spec_commands().len() implies cmd_fits(
                    #[trigger] self.spec_commands()[i],
                    self.spec_width(),
                    self.spec_height(),
                ) by {
                    if i < old(self).spec_commands().len() {
                        assert(self.spec_commands()[i] == old(self).spec_commands()[i]);
                    } else {
                        assert(self.spec_commands()[i] == c);
                    }
                }
            }
        }
    }

    /// The command sequence for the script.
    pub fn commands(&self) -> (r: &[Command])
        ensures
            r@ == self.spec_commands(),
    {
        self.commands.as_slice()
    }

    /// Evaluates the script: draws every command, in order, onto a fresh
    /// background canvas and serializes the result, one line per row.
    pub fn run(&self) -> (r: String)
        requires
            self.wf(),
            self.area_in_range(),
        ensures
            r@ == self.run_text(),
    {
        let mut grid = Grid::new(self.width, self.height, self.background);
        let n: usize = self.commands.len();
        let mut i: usize = 0;
        proof {
            assert(self.spec_commands().take(0) =~= Seq::<Command>::empty());
        }
        while i < n
            invariant
                self.wf(),
                n == self.spec_commands().len(),
                i <= n,
                grid.wf(),
                grid.spec_width() == self.width,
                grid.spec_height() == self.height,
                grid.cells() == replay(
                    self.background_cells(),
                    self.width as nat,
                    self.spec_commands().take(i as int),
                ),
            decreases n - i,
        {
            let c = self.commands[i];
            grid.exec(&c);
            proof {
                lemma_replay_snoc(
                    self.background_cells(),
                    self.width as nat,
                    self.spec_commands().take(i as int),
                    self.spec_commands()[i as int],
                );
                assert(self.spec_commands().take(i as int).push(self.spec_commands()[i as int])
                    =~= self.spec_commands().take(i as int + 1));
            }
            i = i + 1;
        }
        proof {
            assert(self.spec_commands().take(n as int) =~= self.spec_commands());
        }
        grid.to_string()
    }
}

/// Painting never writes a row separator: every glyph a command leaves
/// behind is `+`, `-`, `|` or its fill.  So a replay over a clean canvas
/// stays clean, and keeps the canvas size.
pub proof fn lemma_replay_keeps_cells_clean(cells: Seq<char>, width: nat, cmds: Seq<Command>)
    requires
        forall|k: int| 0 <= k < cells.len() ==> cells[k] != '\n',
        forall|i: int| 0 <= i < cmds.len() ==> (#[trigger] cmds[i]).fill != '\n',
    ensures
        replay(cells, width, cmds).len() == cells.len(),
        forall|k: int| 0 <= k < cells.len() ==> replay(cells, width, cmds)[k] != '\n',
    decreases cmds.len(),
{
    if cmds.len() > 0 {
        let p = paint(cells, width, cmds[0]);
        assert(cmds[0].fill != '\n');
        assert(forall|k: int| 0 <= k < p.len() ==> p[k] != '\n');
        assert forall|i: int| 0 <= i < cmds.drop_first().len() implies (#[trigger] cmds.drop_first()[i]).fill != '\n' by {
            assert(cmds.drop_first()[i] == cmds[i + 1]);
        }
        lemma_replay_keeps_cells_clean(p, width, cmds.drop_first());
    }
}

/// Law (round-trip identity): rendering is idempotent under
/// reparse-and-reserialize.  A script over a canvas with positive width
/// and height, whose background and fills are not the row separator,
/// renders to a text that parses back to exactly the rendered rows — so
/// serializing the parse reproduces the rendered text, byte for byte.
pub proof fn lemma_round_trip_identity(s: Script)
    requires
        s.wf(),
        s.spec_width() > 0,
        s.spec_height() > 0,
        s.spec_background() != '\n',
        forall|i: int|
            0 <= i < s.spec_commands().len() ==> (#[trigger] s.spec_commands()[i]).fill != '\n',
    ensures
        first_line_width(s.run_text()) == s.spec_width() as nat,
        parse_text(s.run_text()) == (Parsed::Rows {
            height: s.spec_height() as nat,
            cells: s.run_cells(),
        }),
        rows_text(s.spec_width() as nat, s.spec_height() as nat, s.run_cells()) == s.run_text(),
{
    let w = s.spec_width() as nat;
    let h = s.spec_height() as nat;
    let bg = s.background_cells();
    lemma_replay_keeps_cells_clean(bg, w, s.spec_commands());
    assert(s.run_cells().len() == h * w) by (nonlinear_arith)
        requires
            s.run_cells().len() == w * h,
    ;
    lemma_parser_round_trip(w, h, s.run_cells(), true);
}

/// The inverse of drawing: given a picture, produce a script that draws
/// it.  Implementations choose their own inference strategy; the one hard
/// requirement is the round-trip oracle [`check_undraw`].
pub trait Undraw {
    /// Given `picture`, a rectangular ASCII-art image, returns a script
    /// meant to produce the same image when run.
    fn undraw(&self, picture: &str) -> (r: Script)
        ensures
            r.wf(),
            r.area_in_range(),
    ;
}

/// The report that an undrawn script does not reproduce its picture:
/// `made` is what running `script` produced, `goal` what it should have
/// produced.
pub struct Mismatch {
    pub script: Script,
    pub goal: String,
    pub made: String,
}

/// Runs the candidate script that `u` infers for `picture` and compares
/// the rendering with `picture` byte for byte: the script is returned
/// exactly when it reproduces the picture, otherwise the mismatch report
/// carries the script and both texts.
pub fn check_undraw<U: Undraw>(picture: &str, u: &U) -> (r: Result<Script, Mismatch>)
    ensures
        match r {
            Ok(s) => s.wf() && s.run_text() == picture@,
            Err(m) => {
                &&& m.script.wf()
                &&& m.goal@ == picture@
                &&& m.made@ == m.script.run_text()
                &&& m.made@ != picture@
            },
        },
{
    let s = u.undraw(picture);
    let made = s.run();
    let goal = picture.to_owned();
    if made.eq(&goal) {
        Ok(s)
    } else {
        Err(Mismatch { script: s, goal, made })
    }
}

} // verus!

