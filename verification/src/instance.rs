//! An instance of the travelling-salesman problem: the places to visit and
//! what it costs to travel between them.
//!
//! An instance has a text form: comment lines that tell where the instance
//! comes from and where its destinations lie, then the matrix of travel
//! costs, one row per line. Numbers reach this module written out already,
//! with five decimals. What is decided here is the layout: which lines, in
//! which order, and how the numbers are aligned in their columns.

use crate::number::Single;
use vstd::prelude::*;
use vstd::string::StringSliceAdditionalSpecFns;

verus! {

/// A place on earth.
#[derive(Debug, Clone, Copy, PartialEq, Eq, Structural)]
pub struct Location {
    /// Degrees east of Greenwich.
    pub longitude: Single,
    /// Degrees north of the equator.
    pub latitude: Single,
}

impl Location {
    /// Both coordinates are finite.
    pub open spec fn finite(self) -> bool {
        self.longitude.finite() && self.latitude.finite()
    }

    /// Whether both coordinates are finite.
    pub fn is_finite(&self) -> (r: bool)
        ensures
            r == self.finite(),
    {
        self.longitude.is_finite() && self.latitude.is_finite()
    }
}

/// The places that must be visited, and the cost of travelling from each to
/// each: metres or seconds, as the instance was asked for.
#[derive(Debug, Clone)]
pub struct Instance {
    /// Where the destinations lie.
    pub destinations: Vec<Location>,
    /// `distances[i][j]` is the cost of travelling from destination `i` to
    /// destination `j`.
    pub distances: Vec<Vec<Single>>,
}

impl Instance {
    /// What an instance must be to be solved: 1 to 64 destinations at
    /// finite coordinates, and for every pair of them a cost that is
    /// finite and not below zero. Nothing is asked of the diagonal, of
    /// symmetry, or of the triangle inequality: the costs are measured.
    pub open spec fn wf(&self) -> bool {
        let n = self.destinations@.len();
        &&& 1 <= n <= 64
        &&& forall|i: int| 0 <= i < n ==> (#[trigger] self.destinations@[i]).finite()
        &&& self.distances@.len() == n
        &&& forall|i: int| 0 <= i < n ==> (#[trigger] self.distances@[i])@.len() == n
        &&& forall|i: int, j: int|
            0 <= i < n && 0 <= j < n ==> (#[trigger] self.distances@[i]@[j]).non_negative()
    }

    /// Whether the instance can be solved.
    pub fn is_well_formed(&self) -> (r: bool)
        ensures
            r == self.wf(),
    {
        let n = self.destinations.len();
        if n < 1 || n > 64 || self.distances.len() != n {
            return false;
        }
        let mut i: usize = 0;
        while i < n
            invariant
                n == self.destinations@.len(),
                n == self.distances@.len(),
                i <= n,
                forall|a: int| 0 <= a < i ==> (#[trigger] self.destinations@[a]).finite(),
                forall|a: int| 0 <= a < i ==> (#[trigger] self.distances@[a])@.len() == n,
                forall|a: int, b: int|
                    0 <= a < i && 0 <= b < n ==> (#[trigger] self.distances@[a]@[b]).non_negative(),
            decreases n - i,
        {
            if !self.destinations[i].is_finite() || self.distances[i].len() != n {
                return false;
            }
            let mut j: usize = 0;
            while j < n
                invariant
                    n == self.distances@.len(),
                    i < n,
                    j <= n,
                    self.distances@[i as int]@.len() == n,
                    forall|b: int|
                        0 <= b < j ==> (#[trigger] self.distances@[i as int]@[b]).non_negative(),
                decreases n - j,
            {
                if !self.distances[i][j].is_non_negative() {
                    return false;
                }
                j += 1;
            }
            i += 1;
        }
        true
    }

    /// Writes an instance in the form in which travelling-salesman instances
    /// are usually handed round. Each destination is given by the texts of its
    /// longitude and latitude, each travel cost by its text.
    pub fn instance_text(destinations: &[(Vec<u8>, Vec<u8>)], distances: &[Vec<Vec<u8>>]) -> (r:
        Vec<u8>)
        requires
            covers(distances@, destinations@.len()),
        ensures
            r@ == text_of(destinations@, distances@),
    {
        let n = destinations.len();
        let mut out: Vec<u8> = Vec::new();
        push_all(&mut out, "c This instance has been generated with tspgen \n".as_bytes());
        push_all(&mut out, "c https://github.com/xgillard/tspgen           \n".as_bytes());
        push_all(&mut out, "c --- destinations ----------------------------\n".as_bytes());
        assert(out@ =~= heading());
        let mut d: usize = 0;
        while d < n
            invariant
                n == destinations@.len(),
                d <= n,
                out@ == heading() + destination_lines(destinations@, d as nat),
            decreases n - d,
        {
            let ghost before = out@;
            out.push(99u8);
            out.push(32u8);
            push_right_aligned(&mut out, destinations[d].0.as_slice(), COORDINATE_WIDTH);
            out.push(32u8);
            push_right_aligned(&mut out, destinations[d].1.as_slice(), COORDINATE_WIDTH);
            out.push(10u8);
            assert(out@ =~= before + destination_line(
                destinations@[d as int].0@,
                destinations@[d as int].1@,
            ));
            d += 1;
        }
        push_all(&mut out, "c --- distances -------------------------------\n".as_bytes());
        let ghost top = heading() + destination_lines(destinations@, n as nat) + matrix_heading();
        assert(out@ =~= top);
        let mut i: usize = 0;
        while i < n
            invariant
                n == destinations@.len(),
                covers(distances@, n as nat),
                i <= n,
                out@ == top + matrix_lines(distances@, n as nat, i as nat),
            decreases n - i,
        {
            let ghost line_start = out@;
            let row = &distances[i];
            let mut j: usize = 0;
            while j < n
                invariant
                    n <= row@.len(),
                    j <= n,
                    out@ == line_start + row_cells(row@, j as nat),
                decreases n - j,
            {
                push_right_aligned(&mut out, row[j].as_slice(), COST_WIDTH);
                out.push(32u8);
                assert(out@ =~= line_start + row_cells(row@, (j + 1) as nat));
                j += 1;
            }
            out.push(10u8);
            assert(out@ =~= top + matrix_lines(distances@, n as nat, (i + 1) as nat));
            i += 1;
        }
        out
    }
}

/// The width of the column of a coordinate.
pub const COORDINATE_WIDTH: usize = 10;

/// The width of the column of a travel cost.
pub const COST_WIDTH: usize = 15;

/// The first lines of the text, and the line above the destinations.
pub open spec fn heading() -> Seq<u8> {
    "c This instance has been generated with tspgen \n".spec_bytes()
        + "c https://github.com/xgillard/tspgen           \n".spec_bytes()
        + "c --- destinations ----------------------------\n".spec_bytes()
}

/// The line above the matrix.
pub open spec fn matrix_heading() -> Seq<u8> {
    "c --- distances -------------------------------\n".spec_bytes()
}

/// As many spaces as a text needs on its left to fill its column; none for
/// a text as wide as the column or wider.
pub open spec fn padding(len: nat, width: nat) -> Seq<u8> {
    Seq::new(
        if len < width {
            (width - len) as nat
        } else {
            0
        },
        |i: int| 32u8,
    )
}

/// A text set against the right edge of its column. A text wider than the
/// column is left whole.
pub open spec fn right_aligned(text: Seq<u8>, width: nat) -> Seq<u8> {
    padding(text.len(), width) + text
}

/// The comment line of a destination: its longitude and its latitude.
pub open spec fn destination_line(longitude: Seq<u8>, latitude: Seq<u8>) -> Seq<u8> {
    seq![99u8, 32u8] + right_aligned(longitude, 10) + seq![32u8] + right_aligned(latitude, 10)
        + seq![10u8]
}

/// The comment lines of the first `upto` destinations.
pub open spec fn destination_lines(destinations: Seq<(Vec<u8>, Vec<u8>)>, upto: nat) -> Seq<u8>
    decreases upto,
{
    if upto == 0 {
        Seq::empty()
    } else {
        destination_lines(destinations, (upto - 1) as nat) + destination_line(
            destinations[upto - 1].0@,
            destinations[upto - 1].1@,
        )
    }
}

/// The first `upto` cells of a row, each in its column and followed by a
/// space.
pub open spec fn row_cells(row: Seq<Vec<u8>>, upto: nat) -> Seq<u8>
    decreases upto,
{
    if upto == 0 {
        Seq::empty()
    } else {
        row_cells(row, (upto - 1) as nat) + right_aligned(row[upto - 1]@, 15) + seq![32u8]
    }
}

/// The first `upto` rows of the matrix of an instance of `n` destinations,
/// one per line.
pub open spec fn matrix_lines(distances: Seq<Vec<Vec<u8>>>, n: nat, upto: nat) -> Seq<u8>
    decreases upto,
{
    if upto == 0 {
        Seq::empty()
    } else {
        matrix_lines(distances, n, (upto - 1) as nat) + row_cells(distances[upto - 1]@, n)
            + seq![10u8]
    }
}

/// The whole text of an instance.
pub open spec fn text_of(
    destinations: Seq<(Vec<u8>, Vec<u8>)>,
    distances: Seq<Vec<Vec<u8>>>,
) -> Seq<u8> {
    heading() + destination_lines(destinations, destinations.len()) + matrix_heading()
        + matrix_lines(distances, destinations.len(), destinations.len())
}

/// The matrix has a cell for every pair of destinations.
pub open spec fn covers(distances: Seq<Vec<Vec<u8>>>, n: nat) -> bool {
    &&& distances.len() >= n
    &&& forall|i: int| 0 <= i < n ==> (#[trigger] distances[i])@.len() >= n
}

fn push_all(out: &mut Vec<u8>, text: &[u8])
    ensures
        final(out)@ == old(out)@ + text@,
{
    let ghost start = out@;
    let mut i: usize = 0;
    while i < text.len()
        invariant
            i <= text@.len(),
            out@ == start + text@.take(i as int),
        decreases text.len() - i,
    {
        out.push(text[i]);
        assert(text@.take(i + 1) =~= text@.take(i as int).push(text@[i as int]));
        assert(out@ =~= start + text@.take(i + 1));
        i += 1;
    }
    assert(text@.take(i as int) =~= text@);
}

fn push_right_aligned(out: &mut Vec<u8>, text: &[u8], width: usize)
    ensures
        final(out)@ == old(out)@ + right_aligned(text@, width as nat),
{
    let ghost start = out@;
    let mut len = text.len();
    assert(out@ =~= start + padding(text@.len(), len as nat));
    while len < width
        invariant
            text@.len() <= len,
            len <= width || len == text@.len(),
            out@ == start + padding(text@.len(), len as nat),
        decreases width - len,
    {
        out.push(32u8);
        len += 1;
        assert(out@ =~= start + padding(text@.len(), len as nat));
    }
    assert(out@ =~= start + padding(text@.len(), width as nat));
    push_all(out, text);
    assert(out@ =~= start + right_aligned(text@, width as nat));
}

} // verus!
