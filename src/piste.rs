//! The grid of terrain: rows of cells, each row repeating to the right.
use vstd::prelude::*;

use crate::terrain::{
    all_markers, first_invalid_at, line_terrain, line_to_terrain_vec, InvalidMarker, Terrain,
};

verus! {

/// The grid, row by row from the top. Rows may differ in width; each one
/// wraps on its own width.
pub struct Piste {
    pub model: Vec<Vec<Terrain>>,
}

impl View for Piste {
    type V = Seq<Seq<Terrain>>;

    open spec fn view(&self) -> Seq<Seq<Terrain>> {
        self.model@.map_values(|row: Vec<Terrain>| row@)
    }
}

/// The cell seen at column `col` of row `row`: the row repeats endlessly to
/// the right, so the column is taken modulo the row's width.
pub open spec fn cell_at(g: Seq<Seq<Terrain>>, row: int, col: int) -> Terrain {
    g[row][col % g[row].len() as int]
}

/// The grid that a list of lines describes, one row per line.
pub open spec fn lines_grid(lines: Seq<Seq<char>>) -> Seq<Seq<Terrain>> {
    lines.map_values(|l: Seq<char>| line_terrain(l))
}

impl Piste {
    /// A grid with the given rows, kept as they are.
    pub fn new(model: Vec<Vec<Terrain>>) -> (p: Piste)
        ensures
            p@ == model@.map_values(|row: Vec<Terrain>| row@),
    {
        Piste { model }
    }

    /// The grid that the given lines describe, or the first character in them
    /// that is not a terrain marker.
    pub fn new_from_lines(lines: &Vec<String>) -> (r: Result<Piste, InvalidMarker>)
        ensures
            r is Ok <==> forall|i: int|
                0 <= i < lines@.len() ==> all_markers(#[trigger] lines@[i]@),
            r matches Ok(p) ==> p@ == lines_grid(lines@.map_values(|l: String| l@)),
            r matches Err(e) ==> exists|i: int, j: int|
                0 <= i < lines@.len() && (forall|k: int|
                    0 <= k < i ==> all_markers(#[trigger] lines@[k]@))
                    && #[trigger] first_invalid_at(lines@[i]@, j) && e.marker == lines@[i]@[j],
    {
        match lines_to_piste_model(lines) {
            Ok(model) => Ok(Piste::new(model)),
            Err(e) => Err(e),
        }
    }

    /// The number of rows.
    pub fn rows(&self) -> (n: usize)
        ensures
            n == self@.len(),
    {
        self.model.len()
    }

    /// Whether no row is empty, so that every row can be looked up.
    pub fn rows_nonempty(&self) -> (b: bool)
        ensures
            b <==> forall|i: int| 0 <= i < self@.len() ==> #[trigger] self@[i].len() > 0,
    {
        let mut i: usize = 0;
        while i < self.model.len()
            invariant
                i <= self@.len(),
                forall|k: int| 0 <= k < i ==> #[trigger] self@[k].len() > 0,
            decreases self.model.len() - i,
        {
            if self.model[i].len() == 0 {
                assert(self@[i as int].len() == 0);
                return false;
            }
            i = i + 1;
        }
        true
    }

    /// The terrain at row `top` and column `left`, the column wrapping on the
    /// row's width; `None` below the last row. Looking up an empty row is
    /// not allowed.
    pub fn get_terrain(&self, top: usize, left: usize) -> (r: Option<Terrain>)
        requires
            top < self@.len() ==> self@[top as int].len() > 0,
        ensures
            top < self@.len() ==> r == Some(cell_at(self@, top as int, left as int)),
            top >= self@.len() ==> r is None,
    {
        if top < self.model.len() {
            let row = &self.model[top];
            Some(row[left % row.len()])
        } else {
            None
        }
    }
}

/// Parses the lines of a grid. The first line that holds a character other
/// than a marker makes the whole grid invalid, and that character is
/// reported.
pub fn lines_to_piste_model(lines: &Vec<String>) -> (r: Result<Vec<Vec<Terrain>>, InvalidMarker>)
    ensures
        r is Ok <==> forall|i: int| 0 <= i < lines@.len() ==> all_markers(#[trigger] lines@[i]@),
        r matches Ok(m) ==> m@.map_values(|row: Vec<Terrain>| row@) == lines_grid(
            lines@.map_values(|l: String| l@),
        ),
        r matches Err(e) ==> exists|i: int, j: int|
            0 <= i < lines@.len() && (forall|k: int| 0 <= k < i ==> all_markers(#[trigger] lines@[k]@))
                && #[trigger] first_invalid_at(lines@[i]@, j) && e.marker == lines@[i]@[j],
{
    let mut model: Vec<Vec<Terrain>> = Vec::new();
    let mut i: usize = 0;
    while i < lines.len()
        invariant
            i <= lines@.len(),
            model@.len() == i,
            forall|k: int| 0 <= k < i ==> all_markers(#[trigger] lines@[k]@),
            forall|k: int| 0 <= k < i ==> #[trigger] model@[k]@ == line_terrain(lines@[k]@),
        decreases lines.len() - i,
    {
        match line_to_terrain_vec(lines[i].as_str()) {
            Ok(row) => {
                model.push(row);
            },
            Err(e) => {
                return Err(e);
            },
        }
        i = i + 1;
    }
    proof {
        assert(model@.map_values(|row: Vec<Terrain>| row@) =~= lines_grid(
            lines@.map_values(|l: String| l@),
        ));
    }
    Ok(model)
}

/// Gathers the lines read from a source. The first failed read, in the
/// order of the lines, fails the whole.
pub fn line_reader_to_lines<E>(reader: Vec<Result<String, E>>) -> (r: Result<Vec<String>, E>)
    ensures
        r is Ok <==> forall|i: int| 0 <= i < reader@.len() ==> #[trigger] reader@[i] is Ok,
        r matches Ok(lines) ==> lines@.len() == reader@.len() && forall|i: int|
            0 <= i < reader@.len() ==> reader@[i] == Ok::<String, E>(#[trigger] lines@[i]),
        r matches Err(e) ==> exists|i: int|
            0 <= i < reader@.len() && (forall|k: int| 0 <= k < i ==> #[trigger] reader@[k] is Ok)
                && #[trigger] reader@[i] == Err::<String, E>(e),
{
    let mut rest = reader;
    let mut backwards: Vec<String> = Vec::new();
    let mut first_err: Option<E> = None;
    while rest.len() > 0
        invariant
            rest@ == reader@.subrange(0, rest@.len() as int),
            first_err is None ==> backwards@.len() == reader@.len() - rest@.len(),
            first_err is None ==> forall|k: int|
                rest@.len() <= k < reader@.len() ==> #[trigger] reader@[k] == Ok::<String, E>(
                    backwards@[reader@.len() - 1 - k],
                ),
            first_err is None <==> forall|k: int|
                rest@.len() <= k < reader@.len() ==> #[trigger] reader@[k] is Ok,
            first_err matches Some(e) ==> exists|i: int|
                rest@.len() <= i < reader@.len() && (forall|k: int|
                    rest@.len() <= k < i ==> #[trigger] reader@[k] is Ok) && #[trigger] reader@[i]
                    == Err::<String, E>(e),
        decreases rest.len(),
    {
        let item = rest.pop().unwrap();
        match item {
            Ok(line) => {
                backwards.push(line);
            },
            Err(e) => {
                first_err = Some(e);
            },
        }
    }
    match first_err {
        Some(e) => Err(e),
        None => {
            let mut lines: Vec<String> = Vec::new();
            while backwards.len() > 0
                invariant
                    backwards@.len() + lines@.len() == reader@.len(),
                    forall|k: int| 0 <= k < reader@.len() ==> #[trigger] reader@[k] is Ok,
                    forall|k: int|
                        lines@.len() <= k < reader@.len() ==> #[trigger] reader@[k]
                            == Ok::<String, E>(backwards@[reader@.len() - 1 - k]),
                    forall|k: int|
                        0 <= k < lines@.len() ==> reader@[k] == Ok::<String, E>(
                            #[trigger] lines@[k],
                        ),
                decreases backwards.len(),
            {
                let line = backwards.pop().unwrap();
                lines.push(line);
            }
            Ok(lines)
        },
    }
}

} // verus!
