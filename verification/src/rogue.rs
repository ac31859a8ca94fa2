//! A roguelike map: a grid of floor cells, some holding the player.

use vstd::prelude::*;

verus! {

/// The player, drawn with its symbol.
#[derive(Clone, Copy, Debug, PartialEq, Eq, Structural)]
pub struct Player {
    pub symbol: char,
}

impl Default for Player {
    fn default() -> (p: Player)
        ensures
            p.symbol == '♘',
    {
        Player { symbol: '♘' }
    }
}

/// A cell: its floor, and the player standing on it, if any.
#[derive(Clone, Copy, Debug, PartialEq, Eq, Structural)]
pub struct Cell {
    pub floor: char,
    pub large_object: Option<Player>,
}

impl Default for Cell {
    fn default() -> (c: Cell)
        ensures
            c.floor == '.',
            c.large_object is None,
    {
        Cell { floor: '.', large_object: None }
    }
}

impl Cell {
    /// What the cell shows: the symbol of what stands on it, else its floor.
    pub open spec fn glyph_spec(&self) -> char {
        match self.large_object {
            Some(p) => p.symbol,
            None => self.floor,
        }
    }

    /// What the cell shows: the symbol of what stands on it, else its floor.
    pub fn glyph(&self) -> (c: char)
        ensures
            c == self.glyph_spec(),
    {
        match self.large_object {
            Some(p) => p.symbol,
            None => self.floor,
        }
    }
}

/// A `_width` by `_height` grid of cells stored row by row.
pub struct GridMap {
    pub _width: usize,
    pub _height: usize,
    pub cells: Vec<Cell>,
}

impl GridMap {
    /// The index of cell `(x, y)`.
    pub open spec fn index_of(&self, x: int, y: int) -> int {
        y * self._width + x
    }

    /// A map of default cells.
    pub fn new(width: usize, height: usize) -> (m: GridMap)
        requires
            width * height <= usize::MAX,
        ensures
            m._width == width,
            m._height == height,
            m.cells.len() == width * height,
            forall|i: int| 0 <= i < m.cells.len() ==> #[trigger] m.cells@[i] == (Cell {
                floor: '.',
                large_object: None,
            }),
    {
        let total = width * height;
        let mut cells: Vec<Cell> = Vec::new();
        while cells.len() < total
            invariant
                cells.len() <= total,
                forall|i: int| 0 <= i < cells.len() ==> #[trigger] cells@[i] == (Cell {
                    floor: '.',
                    large_object: None,
                }),
            decreases total - cells.len(),
        {
            cells.push(Cell::default());
        }
        GridMap { _width: width, _height: height, cells }
    }

    /// The cell at `(x, y)`.
    pub fn get(&self, x: usize, y: usize) -> (c: Cell)
        requires
            self.index_of(x as int, y as int) < self.cells.len(),
        ensures
            c == self.cells@[self.index_of(x as int, y as int)],
    {
        self.cells[y * self._width + x]
    }

    /// Places `player` on the cell at `(x, y)`.
    pub fn put(&mut self, player: Player, x: usize, y: usize)
        requires
            old(self).index_of(x as int, y as int) < old(self).cells.len(),
        ensures
            final(self)._width == old(self)._width,
            final(self)._height == old(self)._height,
            final(self).cells@ == old(self).cells@.update(
                old(self).index_of(x as int, y as int),
                Cell {
                    floor: old(self).cells@[old(self).index_of(x as int, y as int)].floor,
                    large_object: Some(player),
                },
            ),
    {
        let ind = y * self._width + x;
        let mut c = self.cells[ind];
        c.large_object = Some(player);
        self.cells.set(ind, c);
    }

    /// Moves what stands on cell `(old_x, old_y)` to cell `(new_x, new_y)`,
    /// leaving the old cell empty; nothing happens when the coordinates are equal.
    pub fn move_object(&mut self, old_x: usize, old_y: usize, new_x: usize, new_y: usize)
        requires
            !(old_x == new_x && old_y == new_y) ==> old(self).index_of(old_x as int, old_y as int) < old(
                self,
            ).cells.len() && old(self).index_of(new_x as int, new_y as int) < old(self).cells.len(),
        ensures
            final(self)._width == old(self)._width,
            final(self)._height == old(self)._height,
            (old_x == new_x && old_y == new_y) ==> final(self).cells@ == old(self).cells@,
            !(old_x == new_x && old_y == new_y) ==> {
                let oi = old(self).index_of(old_x as int, old_y as int);
                let ni = old(self).index_of(new_x as int, new_y as int);
                let moved = old(self).cells@.update(
                    ni,
                    Cell {
                        floor: old(self).cells@[ni].floor,
                        large_object: old(self).cells@[oi].large_object,
                    },
                );
                final(self).cells@ == moved.update(
                    oi,
                    Cell { floor: moved[oi].floor, large_object: None },
                )
            },
    {
        if old_x == new_x && old_y == new_y {
            return;
        }
        let old_ind: usize = old_y * self._width + old_x;
        let new_ind: usize = new_y * self._width + new_x;
        let mut target = self.cells[new_ind];
        target.large_object = self.cells[old_ind].large_object;
        self.cells.set(new_ind, target);
        let mut source = self.cells[old_ind];
        source.large_object = None;
        self.cells.set(old_ind, source);
    }

    /// The cells are exactly the map's width times its height.
    pub open spec fn wf(&self) -> bool {
        self.cells.len() == self._width * self._height
    }

    /// The text that printing the map shows: a blank line, each row's glyphs
    /// followed by a line break, and a blank line.
    pub open spec fn picture(&self) -> Seq<char> {
        seq!['\n'] + self.rows(self._height as int) + seq!['\n']
    }

    /// The first `h` rows, each followed by a line break.
    pub open spec fn rows(&self, h: int) -> Seq<char>
        decreases h,
    {
        if h <= 0 {
            Seq::empty()
        } else {
            self.rows(h - 1) + self.row(h - 1, self._width as int) + seq!['\n']
        }
    }

    /// The glyphs of the first `w` cells of row `y`.
    pub open spec fn row(&self, y: int, w: int) -> Seq<char>
        decreases w,
    {
        if w <= 0 {
            Seq::empty()
        } else {
            self.row(y, w - 1).push(self.cells@[self.index_of(w - 1, y)].glyph_spec())
        }
    }

    /// The text that printing the map shows.
    pub fn print(&self) -> (text: Vec<char>)
        requires
            self.wf(),
        ensures
            text@ == self.picture(),
    {
        let mut text: Vec<char> = Vec::new();
        text.push('\n');
        let mut y: usize = 0;
        while y < self._height
            invariant
                self.wf(),
                y <= self._height,
                text@ == seq!['\n'] + self.rows(y as int),
            decreases self._height - y,
        {
            let mut x: usize = 0;
            while x < self._width
                invariant
                    self.wf(),
                    y < self._height,
                    x <= self._width,
                    text@ == seq!['\n'] + self.rows(y as int) + self.row(y as int, x as int),
                decreases self._width - x,
            {
                proof {
                    vstd::arithmetic::mul::lemma_mul_inequality(y as int + 1, self._height as int, self._width as int);
                    vstd::arithmetic::mul::lemma_mul_is_distributive_add_other_way(self._width as int, y as int, 1);
                    vstd::arithmetic::mul::lemma_mul_is_commutative(self._width as int, self._height as int);
                }
                let c = self.get(x, y).glyph();
                text.push(c);
                x = x + 1;
            }
            text.push('\n');
            y = y + 1;
        }
        text.push('\n');
        text
    }
}

/// Where the player goes from `(px, py)` for the keys held: left, right, up and
/// down by one cell each, never leaving a `width` by `height` map.
pub fn next_position(
    px: usize,
    py: usize,
    left: bool,
    right: bool,
    up: bool,
    down: bool,
    width: usize,
    height: usize,
) -> (pos: (usize, usize))
    requires
        width >= 1,
        height >= 1,
    ensures
        pos.0 == {
            let x1 = if left && px > 0 { px - 1 } else { px as int };
            if right && x1 < width - 1 { x1 + 1 } else { x1 }
        },
        pos.1 == {
            let y1 = if up && py > 0 { py - 1 } else { py as int };
            if down && y1 < height - 1 { y1 + 1 } else { y1 }
        },
{
    let mut x = px;
    let mut y = py;
    if left {
        if x > 0 {
            x = x - 1;
        }
    }
    if right {
        if x < width - 1 {
            x = x + 1;
        }
    }
    if up {
        if y > 0 {
            y = y - 1;
        }
    }
    if down {
        if y < height - 1 {
            y = y + 1;
        }
    }
    (x, y)
}

} // verus!
