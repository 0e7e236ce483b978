//! Terrain markers and the parsing of text lines into rows of terrain.
use vstd::prelude::*;

verus! {

/// One cell of the grid.
#[derive(Copy, Clone, Debug, PartialEq, Eq, Structural)]
pub enum Terrain {
    /// Open ground, written `.`.
    Slope,
    /// An obstacle, written `#`.
    Tree,
}

/// A character that is not a terrain marker, found while parsing.
#[derive(Copy, Clone, Debug, PartialEq, Eq, Structural)]
pub struct InvalidMarker {
    pub marker: char,
}

/// The markers of the input format: `.` and `#`.
pub open spec fn is_marker(c: char) -> bool {
    c == '.' || c == '#'
}

/// The terrain that a marker stands for.
pub open spec fn marker_terrain(c: char) -> Terrain {
    if c == '#' {
        Terrain::Tree
    } else {
        Terrain::Slope
    }
}

/// Every character of `s` is a marker.
pub open spec fn all_markers(s: Seq<char>) -> bool {
    forall|i: int| 0 <= i < s.len() ==> is_marker(#[trigger] s[i])
}

/// `j` is the position of the first character of `s` that is not a marker.
pub open spec fn first_invalid_at(s: Seq<char>, j: int) -> bool {
    &&& 0 <= j < s.len()
    &&& !is_marker(s[j])
    &&& forall|k: int| 0 <= k < j ==> is_marker(#[trigger] s[k])
}

/// The row of terrain that a line of markers describes, cell by cell.
pub open spec fn line_terrain(s: Seq<char>) -> Seq<Terrain> {
    s.map_values(|c: char| marker_terrain(c))
}

/// The terrain of one marker, or `None` for any other character.
pub fn parse_marker(c: char) -> (r: Option<Terrain>)
    ensures
        r == (if is_marker(c) {
            Some(marker_terrain(c))
        } else {
            None
        }),
{
    if c == '.' {
        Some(Terrain::Slope)
    } else if c == '#' {
        Some(Terrain::Tree)
    } else {
        None
    }
}

/// Parses one line into a row of terrain. The first character that is not a
/// marker makes the whole line invalid.
pub fn line_to_terrain_vec(line: &str) -> (r: Result<Vec<Terrain>, InvalidMarker>)
    ensures
        r is Ok <==> all_markers(line@),
        r matches Ok(row) ==> row@ == line_terrain(line@),
        r matches Err(e) ==> exists|j: int|
            first_invalid_at(line@, j) && e.marker == #[trigger] line@[j],
{
    let n = line.unicode_len();
    let mut row: Vec<Terrain> = Vec::new();
    let mut i: usize = 0;
    while i < n
        invariant
            n == line@.len(),
            i <= n,
            row@ == line_terrain(line@.subrange(0, i as int)),
            all_markers(line@.subrange(0, i as int)),
        decreases n - i,
    {
        let c = line.get_char(i);
        match parse_marker(c) {
            Some(t) => {
                row.push(t);
                proof {
                    assert(line@.subrange(0, i + 1) =~= line@.subrange(0, i as int).push(c));
                    assert(line_terrain(line@.subrange(0, i + 1)) =~= line_terrain(
                        line@.subrange(0, i as int),
                    ).push(t));
                }
            },
            None => {
                proof {
                    assert(forall|k: int|
                        0 <= k < i ==> line@.subrange(0, i as int)[k] == line@[k]);
                    assert(first_invalid_at(line@, i as int));
                }
                return Err(InvalidMarker { marker: c });
            },
        }
        i = i + 1;
    }
    proof {
        assert(line@.subrange(0, n as int) =~= line@);
    }
    Ok(row)
}

} // verus!
