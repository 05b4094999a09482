//! Types shared across the crate: players, node metadata, the actions a node
//! can carry, and boards (`TRRBTPattern`), which are named layers of
//! rectangular tile grids.
use toodee::TooDee;
use toodee::TooDeeOps;
use vstd::prelude::*;

verus! {

// ---------------------------------------------------------------------------
// Grids: `toodee::TooDee<String>`
// ---------------------------------------------------------------------------

#[verifier::external_type_specification]
#[verifier::external_body]
#[verifier::reject_recursive_types(T)]
pub struct ExTooDee<T>(TooDee<T>);

/// What a `toodee::TooDee<String>` holds: its rows from top to bottom, each
/// row its cells from left to right, each cell by its characters.
pub uninterp spec fn grid_rows(grid: TooDee<String>) -> Seq<Seq<Seq<char>>>;

/// The dimensions a `toodee::TooDee<String>` was made with, as the pair of
/// its column count and its row count.
pub uninterp spec fn grid_dims(grid: TooDee<String>) -> (usize, usize);

/// A grid by its rows and its dimensions (columns, then rows).
pub type GridView = (Seq<Seq<Seq<char>>>, (usize, usize));

/// A grid's rows and dimensions.
pub open spec fn grid_view(grid: TooDee<String>) -> GridView {
    (grid_rows(grid), grid_dims(grid))
}

/// Each string by its characters.
pub open spec fn cells_view(cells: Seq<String>) -> Seq<Seq<char>> {
    cells.map_values(|s: String| s@)
}

/// Each row of strings by the characters of its cells.
pub open spec fn rows_view(rows: Seq<Vec<String>>) -> Seq<Seq<Seq<char>>> {
    rows.map_values(|r: Vec<String>| cells_view(r@))
}

/// `num_rows` rows of `num_cols` cells each, cut from `cells` in row-major
/// order.
pub open spec fn chunk_rows(cells: Seq<Seq<char>>, num_cols: nat, num_rows: nat) -> Seq<
    Seq<Seq<char>>,
> {
    Seq::new(num_rows, |i: int| cells.subrange(i * num_cols, i * num_cols + num_cols))
}

/// `num_rows` rows of `num_cols` copies of `cell`.
pub open spec fn uniform_rows(cell: Seq<char>, num_cols: nat, num_rows: nat) -> Seq<
    Seq<Seq<char>>,
> {
    Seq::new(num_rows, |i: int| Seq::new(num_cols, |j: int| cell))
}

/// `toodee::TooDee::init(num_cols, num_rows, cell)`: a grid of `num_rows`
/// rows of `num_cols` clones of `cell`, with those dimensions. The crate
/// panics when exactly one of the two dimensions is zero, or when their
/// product overflows.
#[verifier::external_body]
fn grid_init(num_cols: usize, num_rows: usize, cell: String) -> (grid: TooDee<String>)
    requires
        (num_cols == 0) == (num_rows == 0),
        num_cols * num_rows <= usize::MAX,
    ensures
        grid_rows(grid) == uniform_rows(cell@, num_cols as nat, num_rows as nat),
        grid_dims(grid) == (num_cols, num_rows),
{
    TooDee::init(num_cols, num_rows, cell)
}

/// `toodee::TooDee::from_vec(num_cols, num_rows, cells)`: the grid whose
/// rows are the consecutive runs of `num_cols` cells of `cells`, with the
/// given dimensions. The crate
/// panics when exactly one dimension is zero or when the product of the
/// dimensions is not the number of cells.
#[verifier::external_body]
fn grid_from_vec(num_cols: usize, num_rows: usize, cells: Vec<String>) -> (grid: TooDee<String>)
    requires
        (num_cols == 0) == (num_rows == 0),
        num_cols * num_rows == cells@.len(),
    ensures
        grid_rows(grid) == chunk_rows(cells_view(cells@), num_cols as nat, num_rows as nat),
        grid_dims(grid) == (num_cols, num_rows),
{
    TooDee::from_vec(num_cols, num_rows, cells)
}

/// `<TooDee<String> as Clone>::clone`: the derived clone copies the cells,
/// the row count and the column count.
#[verifier::external_body]
fn grid_clone(grid: &TooDee<String>) -> (copy: TooDee<String>)
    ensures
        grid_view(copy) == grid_view(*grid),
{
    grid.clone()
}

/// `<TooDee<String> as PartialEq>::eq`: the derived equality compares the
/// cells, the row count and the column count, so two grids are equal when
/// they have the same rows and the same dimensions. (A grid without cells
/// can still have nonzero dimensions, for instance from `TooDee::new(5, 0)`,
/// so the rows alone do not decide it.)
#[verifier::external_body]
fn grid_eq(a: &TooDee<String>, b: &TooDee<String>) -> (same: bool)
    ensures
        same == (grid_view(*a) == grid_view(*b)),
{
    a == b
}

/// `toodee::TooDeeOps::rows`: the grid's rows from top to bottom, each
/// copied into a vector of its cells.
#[verifier::external_body]
fn grid_row_vecs(grid: &TooDee<String>) -> (rows: Vec<Vec<String>>)
    ensures
        rows_view(rows@) == grid_rows(*grid),
{
    grid.rows().map(|row| row.to_vec()).collect()
}

/// A grid of `width` columns and `height` rows whose cells, read row by row,
/// are `flat_cells`.
pub fn toodee_pattern<'a, const N: usize>(width: usize, height: usize, flat_cells: [&'a str; N]) -> (grid:
    TooDee<String>)
    requires
        (width == 0) == (height == 0),
        width * height == N,
    ensures
        grid_rows(grid) == chunk_rows(
            flat_cells@.map_values(|s: &str| s@),
            width as nat,
            height as nat,
        ),
        grid_dims(grid) == (width, height),
{
    let mut cells: Vec<String> = Vec::new();
    let mut i: usize = 0;
    while i < N
        invariant
            i <= N,
            cells@.len() == i,
            forall|k: int| 0 <= k < i ==> #[trigger] cells@[k]@ == flat_cells@[k]@,
        decreases N - i,
    {
        cells.push(flat_cells[i].to_string());
        i = i + 1;
    }
    proof {
        assert(cells_view(cells@) =~= flat_cells@.map_values(|s: &str| s@));
    }
    grid_from_vec(width, height, cells)
}

// ---------------------------------------------------------------------------
// Grids from rows
// ---------------------------------------------------------------------------

/// Why rows of tiles do not make a grid.
#[derive(Debug, PartialEq, Eq, Structural, Clone, Copy)]
pub enum GridError {
    /// A row is not as wide as the first row that has tiles.
    InconsistentWidth,
}

/// Some row after a row with tiles differs from it in width.
pub open spec fn inconsistent_width(rows: Seq<Seq<Seq<char>>>) -> bool {
    exists|i: int, j: int|
        0 <= i < j < rows.len() && #[trigger] rows[i].len() != 0 && #[trigger] rows[j].len()
            != rows[i].len()
}

/// Some row has no tiles.
pub open spec fn has_empty_row(rows: Seq<Seq<Seq<char>>>) -> bool {
    exists|i: int| 0 <= i < rows.len() && #[trigger] rows[i].len() == 0
}

/// The tiles of all rows, row after row.
pub open spec fn concat_rows(rows: Seq<Seq<Seq<char>>>) -> Seq<Seq<char>>
    decreases rows.len(),
{
    if rows.len() == 0 {
        Seq::empty()
    } else {
        concat_rows(rows.drop_last()) + rows.last()
    }
}

/// Rows that all have `w` tiles are cut back out of their concatenation.
pub proof fn lemma_concat_uniform(rows: Seq<Seq<Seq<char>>>, w: nat)
    requires
        forall|i: int| 0 <= i < rows.len() ==> #[trigger] rows[i].len() == w,
    ensures
        concat_rows(rows).len() == rows.len() * w,
        chunk_rows(concat_rows(rows), w, rows.len()) == rows,
    decreases rows.len(),
{
    let n = rows.len();
    if n == 0 {
        assert(chunk_rows(concat_rows(rows), w, rows.len()) =~= rows);
    } else {
        let front = rows.drop_last();
        lemma_concat_uniform(front, w);
        let c = concat_rows(front);
        assert(concat_rows(rows) == c + rows.last());
        assert(c.len() + w == n * w) by (nonlinear_arith)
            requires
                c.len() == (n - 1) * w,
                n >= 1,
        ;
        assert forall|i: int| 0 <= i < n implies #[trigger] chunk_rows(concat_rows(rows), w, n)[i]
            == rows[i] by {
            if i < n - 1 {
                assert(i * w + w <= (n - 1) * w) by (nonlinear_arith)
                    requires
                        0 <= i < n - 1,
                ;
                assert(0 <= i * w) by (nonlinear_arith)
                    requires
                        0 <= i,
                ;
                assert((c + rows.last()).subrange(i * w, i * w + w) =~= c.subrange(
                    i * w,
                    i * w + w,
                ));
                assert(chunk_rows(c, w, (n - 1) as nat)[i] == front[i]);
            } else {
                assert(i * w == (n - 1) * w);
                assert((c + rows.last()).subrange(i * w, i * w + w) =~= rows.last());
            }
        }
        assert(chunk_rows(concat_rows(rows), w, n) =~= rows);
    }
}

/// Rows are inconsistent in width only where two of them differ in width:
/// rows that all have the same number of tiles, whatever that number and
/// however many rows there are, are never inconsistent.
pub proof fn lemma_inconsistent_width_has_differing_rows(rows: Seq<Seq<Seq<char>>>)
    ensures
        inconsistent_width(rows) ==> exists|i: int, j: int|
            0 <= i < j < rows.len() && #[trigger] rows[i].len() != #[trigger] rows[j].len(),
        (forall|i: int, j: int|
            0 <= i < rows.len() && 0 <= j < rows.len() ==> #[trigger] rows[i].len()
                == #[trigger] rows[j].len()) ==> !inconsistent_width(rows),
{
    if inconsistent_width(rows) {
        let (i, j) = choose|i: int, j: int|
            0 <= i < j < rows.len() && #[trigger] rows[i].len() != 0 && #[trigger] rows[j].len()
                != rows[i].len();
        assert(rows[i].len() != rows[j].len());
    }
}

/// The width of the first row, or 0 when there are no rows.
pub open spec fn first_row_width(rows: Seq<Seq<Seq<char>>>) -> nat {
    if rows.len() == 0 {
        0
    } else {
        rows[0].len()
    }
}

/// Scans the widths of `rows`: whether some row differs in width from the
/// first row with tiles, whether some row has no tiles, and the width of the
/// first row with tiles (0 if none has tiles).
fn scan_widths(rows: &Vec<Vec<String>>) -> (scan: (bool, bool, usize))
    ensures
        scan.0 == inconsistent_width(rows_view(rows@)),
        scan.1 == has_empty_row(rows_view(rows@)),
        !scan.0 ==> forall|k: int|
            0 <= k < rows@.len() && #[trigger] rows_view(rows@)[k].len() != 0
                ==> rows_view(rows@)[k].len() == scan.2,
        scan.2 == 0 ==> forall|k: int|
            0 <= k < rows@.len() ==> #[trigger] rows_view(rows@)[k].len() == 0,
        scan.2 != 0 ==> exists|f: int|
            0 <= f < rows@.len() && #[trigger] rows_view(rows@)[f].len() == scan.2,
{
    let ghost all = rows_view(rows@);
    let mut first_width: usize = 0;
    let mut empty_seen = false;
    let mut i: usize = 0;
    while i < rows.len()
        invariant
            all == rows_view(rows@),
            i <= rows@.len(),
            !inconsistent_width(all.take(i as int)),
            empty_seen == has_empty_row(all.take(i as int)),
            first_width == 0 ==> forall|k: int| 0 <= k < i ==> #[trigger] all[k].len() == 0,
            first_width != 0 ==> exists|f: int| 0 <= f < i && #[trigger] all[f].len() == first_width,
            forall|k: int| 0 <= k < i && #[trigger] all[k].len() != 0 ==> all[k].len() == first_width,
        decreases rows@.len() - i,
    {
        let w = rows[i].len();
        proof {
            assert(all[i as int].len() == w);
            assert(all.take(i + 1)[i as int] == all[i as int]);
        }
        if w == 0 {
            empty_seen = true;
        }
        if first_width == 0 {
            first_width = w;
        }
        if first_width != w {
            proof {
                let f = choose|f: int| 0 <= f < i && #[trigger] all[f].len() == first_width;
                assert(all[f].len() != 0 && all[i as int].len() != all[f].len());
                if has_empty_row(all) {
                    let k = choose|k: int| 0 <= k < all.len() && #[trigger] all[k].len() == 0;
                }
            }
            let mut empty_anywhere = false;
            let mut j: usize = 0;
            proof {
                assert(!has_empty_row(all.take(0)));
            }
            while j < rows.len()
                invariant
                    all == rows_view(rows@),
                    j <= rows@.len(),
                    empty_anywhere == has_empty_row(all.take(j as int)),
                decreases rows@.len() - j,
            {
                proof {
                    assert(all.take(j + 1)[j as int] == all[j as int]);
                    if has_empty_row(all.take(j + 1)) && !has_empty_row(all.take(j as int)) {
                        let k = choose|k: int| 0 <= k < j + 1 && #[trigger] all.take(j + 1)[k].len() == 0;
                        if k < j {
                            assert(all.take(j as int)[k] == all.take(j + 1)[k]);
                        }
                    }
                    if has_empty_row(all.take(j as int)) {
                        let k = choose|k: int| 0 <= k < j && #[trigger] all.take(j as int)[k].len() == 0;
                        assert(all.take(j + 1)[k] == all.take(j as int)[k]);
                    }
                }
                if rows[j].len() == 0 {
                    empty_anywhere = true;
                }
                j = j + 1;
            }
            proof {
                assert(all.take(j as int) =~= all);
            }
            return (true, empty_anywhere, first_width);
        }
        proof {
            let p = all.take(i + 1);
            assert forall|a: int, b: int|
                0 <= a < b < p.len() && #[trigger] p[a].len() != 0 implies #[trigger] p[b].len()
                == p[a].len() by {
                assert(p[a] == all[a]);
                assert(p[b] == all[b]);
                if b < i {
                    assert(all.take(i as int)[a] == all[a]);
                    assert(all.take(i as int)[b] == all[b]);
                }
            }
            if has_empty_row(p) && !has_empty_row(all.take(i as int)) {
                let k = choose|k: int| 0 <= k < p.len() && #[trigger] p[k].len() == 0;
                if k < i {
                    assert(all.take(i as int)[k] == p[k]);
                }
            }
            if has_empty_row(all.take(i as int)) {
                let k = choose|k: int| 0 <= k < i && #[trigger] all.take(i as int)[k].len() == 0;
                assert(p[k] == all.take(i as int)[k]);
            }
        }
        i = i + 1;
    }
    proof {
        assert(all.take(i as int) =~= all);
    }
    (false, empty_seen, first_width)
}

/// The grid whose rows are `rows`, as documents spell a grid: a list of
/// rows of tiles. Rows must agree in width; when a row differs in width
/// from the first row with tiles the result is
/// `GridError::InconsistentWidth`. Rows without tiles that precede all rows
/// with tiles make no grid (the grid library panics on them), so they are
/// excluded unless a width mismatch is reported first. The grid has as many
/// columns as the first row has tiles and as many rows as `rows`.
pub fn deserialize_2d_array(rows: Vec<Vec<String>>) -> (grid: Result<TooDee<String>, GridError>)
    requires
        inconsistent_width(rows_view(rows@)) || !has_empty_row(rows_view(rows@)),
    ensures
        grid is Err <==> inconsistent_width(rows_view(rows@)),
        match grid {
            Ok(g) => grid_rows(g) == rows_view(rows@) && grid_dims(g) == (
                first_row_width(rows_view(rows@)) as usize,
                rows@.len() as usize,
            ),
            Err(e) => e == GridError::InconsistentWidth,
        },
        (forall|i: int, j: int|
            0 <= i < rows@.len() && 0 <= j < rows@.len() ==> #[trigger] rows_view(rows@)[i].len()
                == #[trigger] rows_view(rows@)[j].len()) ==> grid is Ok,
        grid is Err ==> exists|i: int, j: int|
            0 <= i < j < rows@.len() && #[trigger] rows_view(rows@)[i].len()
                != #[trigger] rows_view(rows@)[j].len(),
        grid matches Ok(g) ==> grid_dims(g).1 == rows@.len() && forall|i: int|
            0 <= i < rows@.len() ==> #[trigger] rows_view(rows@)[i].len() == grid_dims(g).0,
{
    let ghost all = rows_view(rows@);
    proof {
        lemma_inconsistent_width_has_differing_rows(all);
    }
    let (inconsistent, _, width) = scan_widths(&rows);
    if inconsistent {
        return Err(GridError::InconsistentWidth);
    }
    proof {
        assert forall|k: int| 0 <= k < all.len() implies #[trigger] all[k].len() == width by {
            if all[k].len() == 0 {
                assert(has_empty_row(all));
            }
        }
        if all.len() > 0 {
            assert(all[0].len() != 0) by {
                if all[0].len() == 0 {
                    assert(has_empty_row(all));
                }
            }
        }
    }
    let mut cells: Vec<String> = Vec::new();
    let mut i: usize = 0;
    while i < rows.len()
        invariant
            all == rows_view(rows@),
            i <= rows@.len(),
            cells_view(cells@) == concat_rows(all.take(i as int)),
        decreases rows@.len() - i,
    {
        let row = &rows[i];
        let ghost before = cells@;
        let mut j: usize = 0;
        while j < row.len()
            invariant
                j <= row@.len(),
                cells@.len() == before.len() + j,
                cells_view(cells@) == cells_view(before) + cells_view(row@).take(j as int),
            decreases row@.len() - j,
        {
            let ghost c = cells@;
            cells.push(row[j].clone());
            proof {
                assert(cells_view(cells@) =~= cells_view(c).push(row@[j as int]@));
                assert(cells_view(row@).take(j + 1) =~= cells_view(row@).take(j as int).push(
                    row@[j as int]@,
                ));
            }
            j = j + 1;
        }
        proof {
            assert(cells_view(row@).take(j as int) =~= all[i as int]);
            assert(all.take(i + 1).drop_last() =~= all.take(i as int));
            assert(all.take(i + 1).last() == all[i as int]);
            assert(cells_view(cells@) =~= concat_rows(all.take(i + 1)));
        }
        i = i + 1;
    }
    proof {
        assert(all.take(i as int) =~= all);
        lemma_concat_uniform(all, width as nat);
        assert(cells@.len() == cells_view(cells@).len());
        vstd::arithmetic::mul::lemma_mul_is_commutative(width as int, i as int);
    }
    Ok(grid_from_vec(width, rows.len(), cells))
}

/// Whether `deserialize_2d_array` cannot make a grid of `rows` without the
/// grid library panicking: the widths agree, yet some row has no tiles.
pub fn deserialize_2d_array_panics(rows: &Vec<Vec<String>>) -> (panics: bool)
    ensures
        panics == (!inconsistent_width(rows_view(rows@)) && has_empty_row(rows_view(rows@))),
{
    let (inconsistent, empty, _) = scan_widths(rows);
    !inconsistent && empty
}

// ---------------------------------------------------------------------------
// Boards: named layers of grids
// ---------------------------------------------------------------------------

/// No two entries share a key.
pub open spec fn distinct_keys<V>(s: Seq<(Seq<char>, V)>) -> bool {
    forall|i: int, j: int| 0 <= i < j < s.len() ==> s[i].0 != s[j].0
}

/// The map that inserting the entries of `s` in order builds: a later entry
/// replaces an earlier one with the same key.
pub open spec fn pairs_map<V>(s: Seq<(Seq<char>, V)>) -> Map<Seq<char>, V>
    decreases s.len(),
{
    if s.len() == 0 {
        Map::empty()
    } else {
        pairs_map(s.drop_last()).insert(s.last().0, s.last().1)
    }
}

/// The key set of `pairs_map(s)` is the set of keys of `s`, and it is
/// finite.
pub proof fn lemma_pairs_map_dom<V>(s: Seq<(Seq<char>, V)>)
    ensures
        pairs_map(s).dom().finite(),
        forall|k: Seq<char>|
            #![trigger pairs_map(s).dom().contains(k)]
            pairs_map(s).dom().contains(k) <==> exists|i: int| 0 <= i < s.len() && s[i].0 == k,
    decreases s.len(),
{
    if s.len() > 0 {
        lemma_pairs_map_dom(s.drop_last());
        assert forall|k: Seq<char>| pairs_map(s).dom().contains(k) implies exists|i: int|
            0 <= i < s.len() && s[i].0 == k by {
            if k != s.last().0 {
                let i = choose|i: int| 0 <= i < s.drop_last().len() && s.drop_last()[i].0 == k;
                assert(s[i].0 == k);
            }
        }
        assert forall|k: Seq<char>| (exists|i: int| 0 <= i < s.len() && s[i].0 == k) implies pairs_map(
            s,
        ).dom().contains(k) by {
            let i = choose|i: int| 0 <= i < s.len() && s[i].0 == k;
            if i < s.len() - 1 {
                assert(s.drop_last()[i].0 == k);
            }
        }
    }
}

/// With distinct keys, every entry can be read back from the map, and the
/// map has as many keys as `s` has entries.
pub proof fn lemma_pairs_map_distinct<V>(s: Seq<(Seq<char>, V)>)
    requires
        distinct_keys(s),
    ensures
        pairs_map(s).dom().finite(),
        pairs_map(s).dom().len() == s.len(),
        forall|i: int|
            0 <= i < s.len() ==> #[trigger] pairs_map(s).dom().contains(s[i].0) && pairs_map(s)[s[i].0]
                == s[i].1,
    decreases s.len(),
{
    lemma_pairs_map_dom(s);
    if s.len() > 0 {
        let t = s.drop_last();
        assert(distinct_keys(t));
        lemma_pairs_map_distinct(t);
        lemma_pairs_map_dom(t);
        assert(!pairs_map(t).dom().contains(s.last().0)) by {
            if pairs_map(t).dom().contains(s.last().0) {
                let i = choose|i: int| 0 <= i < t.len() && t[i].0 == s.last().0;
                assert(s[i].0 == s[s.len() - 1].0);
            }
        }
        assert forall|i: int| 0 <= i < s.len() implies #[trigger] pairs_map(s).dom().contains(s[i].0)
            && pairs_map(s)[s[i].0] == s[i].1 by {
            if i < s.len() - 1 {
                assert(t[i] == s[i]);
                assert(s[i].0 != s.last().0);
            }
        }
    }
}

/// Appending entries is the same as overriding the map of the prefix with
/// the map of the suffix.
pub proof fn lemma_pairs_map_append<V>(a: Seq<(Seq<char>, V)>, b: Seq<(Seq<char>, V)>)
    ensures
        pairs_map(a + b) == pairs_map(a).union_prefer_right(pairs_map(b)),
    decreases b.len(),
{
    if b.len() == 0 {
        assert(a + b =~= a);
        assert(pairs_map(a).union_prefer_right(pairs_map(b)) =~= pairs_map(a));
    } else {
        assert((a + b).drop_last() =~= a + b.drop_last());
        lemma_pairs_map_append(a, b.drop_last());
        assert(pairs_map(a + b) =~= pairs_map(a).union_prefer_right(pairs_map(b)));
    }
}

/// Of two layers with the same name, the one given later is kept.
pub proof fn lemma_later_layer_wins<V>(s: Seq<(Seq<char>, V)>, name: Seq<char>, value: V)
    ensures
        pairs_map(s.push((name, value))).dom().contains(name),
        pairs_map(s.push((name, value)))[name] == value,
{
    assert(s.push((name, value)).drop_last() =~= s);
}

/// The entries with each grid cut down to its rows.
pub open spec fn entry_rows(s: Seq<(Seq<char>, GridView)>) -> Seq<(Seq<char>, Seq<Seq<Seq<char>>>)> {
    s.map_values(|e: (Seq<char>, GridView)| (e.0, e.1.0))
}

/// A board's layers cut down to their rows.
pub open spec fn board_rows(board: Map<Seq<char>, GridView>) -> Map<Seq<char>, Seq<Seq<Seq<char>>>> {
    board.map_values(|g: GridView| g.0)
}

/// Cutting the grids down to their rows keeps the names distinct and
/// commutes with building the map.
pub proof fn lemma_entry_rows(s: Seq<(Seq<char>, GridView)>)
    ensures
        distinct_keys(s) ==> distinct_keys(entry_rows(s)),
        pairs_map(entry_rows(s)) == board_rows(pairs_map(s)),
    decreases s.len(),
{
    if s.len() == 0 {
        assert(pairs_map(entry_rows(s)) =~= board_rows(pairs_map(s)));
    } else {
        lemma_entry_rows(s.drop_last());
        assert(entry_rows(s).drop_last() =~= entry_rows(s.drop_last()));
        assert(entry_rows(s).last() == (s.last().0, s.last().1.0));
        lemma_pairs_map_dom(s);
        lemma_pairs_map_dom(s.drop_last());
        assert(pairs_map(entry_rows(s)) =~= board_rows(pairs_map(s)));
        if distinct_keys(s) {
            assert forall|i: int, j: int|
                0 <= i < j < entry_rows(s).len() implies entry_rows(s)[i].0 != entry_rows(
                s,
            )[j].0 by {
                assert(entry_rows(s)[i].0 == s[i].0);
                assert(entry_rows(s)[j].0 == s[j].0);
            }
        }
    }
}

/// A board made of a single layer hands back exactly that layer: one entry,
/// with the layer's name and rows.
pub proof fn lemma_single_layer_round_trip(
    name: Seq<char>,
    grid: GridView,
    handed: Seq<(Seq<char>, Seq<Seq<Seq<char>>>)>,
)
    requires
        distinct_keys(handed),
        pairs_map(handed) == board_rows(pairs_map(seq![(name, grid)])),
    ensures
        handed.len() == 1,
        handed[0] == (name, grid.0),
{
    let one = seq![(name, grid)];
    assert(one.drop_last() =~= Seq::<(Seq<char>, GridView)>::empty());
    assert(pairs_map(one.drop_last()) == Map::<Seq<char>, GridView>::empty());
    assert(pairs_map(one) =~= map![name => grid]);
    assert(board_rows(map![name => grid]) =~= map![name => grid.0]);
    lemma_pairs_map_distinct(handed);
    assert(map![name => grid.0].dom() =~= set![name]);
    assert(handed.len() == 1);
    assert(pairs_map(handed).dom().contains(handed[0].0));
}

/// The layers of a board, each name and grid by its view.
pub open spec fn layer_entries(layers: Seq<(String, TooDee<String>)>) -> Seq<(Seq<char>, GridView)> {
    layers.map_values(|p: (String, TooDee<String>)| (p.0@, grid_view(p.1)))
}

/// The layers of a board as handed out by `TRRBTPattern::layers`, each name
/// and row by its view.
pub open spec fn layer_row_entries(layers: Seq<(String, Vec<Vec<String>>)>) -> Seq<
    (Seq<char>, Seq<Seq<Seq<char>>>),
> {
    layers.map_values(|p: (String, Vec<Vec<String>>)| (p.0@, rows_view(p.1@)))
}

/// A board: grids of tiles, each under the name of its layer. Its view maps
/// each layer name to the rows and dimensions of that layer. The layers are held as a
/// vector of name-grid pairs whose names are distinct (the type invariant):
/// the map specification vstd gives `std::collections::HashMap` applies only
/// to keys that obey its key model, and `String` keys do not.
#[derive(Debug)]
pub struct TRRBTPattern {
    layers: Vec<(String, TooDee<String>)>,
}

impl View for TRRBTPattern {
    type V = Map<Seq<char>, GridView>;

    closed spec fn view(&self) -> Self::V {
        pairs_map(layer_entries(self.layers@))
    }
}

impl TRRBTPattern {
    /// No two layers share a name.
    #[verifier::type_invariant]
    closed spec fn layers_distinct(self) -> bool {
        distinct_keys(layer_entries(self.layers@))
    }

    /// The position of the layer named `name` among `layers`, if there is one.
    fn find_layer(layers: &Vec<(String, TooDee<String>)>, name: &String) -> (pos: Option<usize>)
        ensures
            match pos {
                Some(j) => j < layers@.len() && layers@[j as int].0@ == name@,
                None => forall|j: int| 0 <= j < layers@.len() ==> layers@[j].0@ != name@,
            },
    {
        let mut j: usize = 0;
        while j < layers.len()
            invariant
                j <= layers@.len(),
                forall|k: int| 0 <= k < j ==> layers@[k].0@ != name@,
            decreases layers@.len() - j,
        {
            if layers[j].0 == *name {
                return Some(j);
            }
            j = j + 1;
        }
        None
    }

    /// A board with the single layer `main`: `height` rows of `width` copies
    /// of `cell`.
    pub fn filled(cell: &str, width: usize, height: usize) -> (board: Self)
        requires
            (width == 0) == (height == 0),
            width * height <= usize::MAX,
        ensures
            board@ == map!["main"@ => (uniform_rows(cell@, width as nat, height as nat), (width, height))],
    {
        let grid = grid_init(width, height, cell.to_string());
        let mut layers: Vec<(String, TooDee<String>)> = Vec::new();
        layers.push(("main".to_string(), grid));
        let board = TRRBTPattern { layers };
        proof {
            let e = layer_entries(board.layers@);
            assert(e.len() == 1);
            assert(e[0] == ("main"@, (uniform_rows(cell@, width as nat, height as nat), (width, height))));
            assert(e.last() == e[0]);
            assert(pairs_map(e.drop_last()) == Map::<Seq<char>, GridView>::empty());
            assert(pairs_map(e) == pairs_map(e.drop_last()).insert(e.last().0, e.last().1));
            assert(e.drop_last() =~= Seq::<(Seq<char>, GridView)>::empty());
            assert(board@ =~= map!["main"@ => (uniform_rows(cell@, width as nat, height as nat), (width, height))]);
        }
        board
    }

    /// The board whose layers are `layers`; where two share a name, the
    /// later one is kept.
    pub fn from_layers(layers: Vec<(String, TooDee<String>)>) -> (board: Self)
        ensures
            board@ == pairs_map(layer_entries(layers@)),
    {
        let ghost orig = layer_entries(layers@);
        let mut rest = layers;
        let mut kept: Vec<(String, TooDee<String>)> = Vec::new();
        proof {
            assert(orig =~= layer_entries(rest@) + layer_entries(kept@));
            lemma_pairs_map_append(layer_entries(rest@), layer_entries(kept@));
        }
        while rest.len() > 0
            invariant
                distinct_keys(layer_entries(kept@)),
                pairs_map(orig) == pairs_map(layer_entries(rest@)).union_prefer_right(
                    pairs_map(layer_entries(kept@)),
                ),
            decreases rest@.len(),
        {
            let ghost before = rest@;
            let entry = rest.pop().unwrap();
            let ghost k = entry.0@;
            let ghost v = grid_view(entry.1);
            proof {
                assert(layer_entries(before) =~= layer_entries(rest@).push((k, v)));
                assert(layer_entries(before).drop_last() =~= layer_entries(rest@));
                assert(layer_entries(before).last() == (k, v));
                assert(pairs_map(layer_entries(before)) == pairs_map(layer_entries(rest@)).insert(
                    k,
                    v,
                ));
                lemma_pairs_map_dom(layer_entries(kept@));
            }
            match Self::find_layer(&kept, &entry.0) {
                Some(_) => {
                    proof {
                        let j = choose|j: int| 0 <= j < kept@.len() && kept@[j].0@ == k;
                        assert(layer_entries(kept@)[j].0 == k);
                        assert(pairs_map(layer_entries(kept@)).dom().contains(k));
                        assert(pairs_map(orig) =~= pairs_map(layer_entries(rest@)).union_prefer_right(
                            pairs_map(layer_entries(kept@)),
                        ));
                    }
                },
                None => {
                    let ghost old_kept = kept@;
                    kept.push(entry);
                    proof {
                        assert(layer_entries(kept@) =~= layer_entries(old_kept).push((k, v)));
                        assert(layer_entries(kept@).drop_last() =~= layer_entries(old_kept));
                        assert(layer_entries(kept@).last() == (k, v));
                        assert(pairs_map(layer_entries(kept@)) == pairs_map(
                            layer_entries(old_kept),
                        ).insert(k, v));
                        assert(!pairs_map(layer_entries(old_kept)).dom().contains(k)) by {
                            if pairs_map(layer_entries(old_kept)).dom().contains(k) {
                                let j = choose|j: int|
                                    0 <= j < layer_entries(old_kept).len() && layer_entries(
                                        old_kept,
                                    )[j].0 == k;
                                assert(old_kept[j].0@ == k);
                            }
                        }
                        assert(distinct_keys(layer_entries(kept@))) by {
                            assert forall|i: int, j: int|
                                0 <= i < j < layer_entries(kept@).len() implies layer_entries(
                                kept@,
                            )[i].0 != layer_entries(kept@)[j].0 by {
                                if j == layer_entries(kept@).len() - 1 {
                                    assert(old_kept[i].0@ != k);
                                } else {
                                    assert(layer_entries(old_kept)[i] == layer_entries(kept@)[i]);
                                    assert(layer_entries(old_kept)[j] == layer_entries(kept@)[j]);
                                }
                            }
                        }
                        assert(pairs_map(orig) =~= pairs_map(layer_entries(rest@)).union_prefer_right(
                            pairs_map(layer_entries(kept@)),
                        ));
                    }
                },
            }
        }
        proof {
            assert(layer_entries(rest@) =~= Seq::<(Seq<char>, GridView)>::empty());
            assert(pairs_map(orig) =~= pairs_map(layer_entries(kept@)));
        }
        TRRBTPattern { layers: kept }
    }

    /// The layers of the board, each as its name and its rows; no name
    /// occurs twice, and together they are the board's rows.
    pub fn layers(&self) -> (layers: Vec<(String, Vec<Vec<String>>)>)
        ensures
            distinct_keys(layer_row_entries(layers@)),
            pairs_map(layer_row_entries(layers@)) == board_rows(self@),
    {
        proof {
            use_type_invariant(self);
        }
        let mut out: Vec<(String, Vec<Vec<String>>)> = Vec::new();
        let mut i: usize = 0;
        while i < self.layers.len()
            invariant
                i <= self.layers@.len(),
                layer_row_entries(out@) == entry_rows(layer_entries(self.layers@).take(i as int)),
            decreases self.layers@.len() - i,
        {
            let name = self.layers[i].0.clone();
            let rows = grid_row_vecs(&self.layers[i].1);
            let ghost old_out = out@;
            out.push((name, rows));
            proof {
                assert(entry_rows(layer_entries(self.layers@).take(i + 1)) =~= entry_rows(
                    layer_entries(self.layers@).take(i as int),
                ).push((self.layers@[i as int].0@, grid_rows(self.layers@[i as int].1))));
                assert(layer_row_entries(out@) =~= layer_row_entries(old_out).push(
                    (self.layers@[i as int].0@, grid_rows(self.layers@[i as int].1)),
                ));
            }
            i = i + 1;
        }
        proof {
            assert(layer_entries(self.layers@).take(i as int) =~= layer_entries(self.layers@));
            lemma_entry_rows(layer_entries(self.layers@));
        }
        out
    }
}

impl Default for TRRBTPattern {
    /// The board with no layers.
    fn default() -> (board: Self)
        ensures
            board@ == Map::<Seq<char>, GridView>::empty(),
    {
        let board = TRRBTPattern { layers: Vec::new() };
        proof {
            assert(layer_entries(board.layers@) =~= Seq::<(Seq<char>, GridView)>::empty());
        }
        board
    }
}

impl Clone for TRRBTPattern {
    /// A board with the same layers.
    fn clone(&self) -> (copy: Self)
        ensures
            copy@ == self@,
    {
        proof {
            use_type_invariant(self);
        }
        let mut layers: Vec<(String, TooDee<String>)> = Vec::new();
        let mut i: usize = 0;
        while i < self.layers.len()
            invariant
                i <= self.layers@.len(),
                layer_entries(layers@) == layer_entries(self.layers@).take(i as int),
            decreases self.layers@.len() - i,
        {
            let name = self.layers[i].0.clone();
            let grid = grid_clone(&self.layers[i].1);
            let ghost old_layers = layers@;
            layers.push((name, grid));
            proof {
                assert(layer_entries(layers@) =~= layer_entries(old_layers).push(
                    layer_entries(self.layers@)[i as int],
                ));
                assert(layer_entries(self.layers@).take(i + 1) =~= layer_entries(self.layers@).take(
                    i as int,
                ).push(layer_entries(self.layers@)[i as int]));
            }
            i = i + 1;
        }
        proof {
            assert(layer_entries(self.layers@).take(i as int) =~= layer_entries(self.layers@));
        }
        TRRBTPattern { layers }
    }
}

/// The map has the entry's key, with the entry's value.
pub open spec fn holds_entry<V>(m: Map<Seq<char>, V>, e: (Seq<char>, V)) -> bool {
    m.dom().contains(e.0) && m[e.0] == e.1
}

impl PartialEq for TRRBTPattern {
    /// Two boards are equal when they have the same layers with the same
    /// rows and dimensions.
    fn eq(&self, other: &Self) -> (same: bool) {
        proof {
            use_type_invariant(self);
            use_type_invariant(other);
            lemma_pairs_map_distinct(layer_entries(self.layers@));
            lemma_pairs_map_distinct(layer_entries(other.layers@));
        }
        let ghost a = layer_entries(self.layers@);
        let ghost b = layer_entries(other.layers@);
        let ghost ma = pairs_map(a);
        let ghost mb = pairs_map(b);
        proof {
            assert forall|k: int| 0 <= k < a.len() implies holds_entry(ma, #[trigger] a[k]) by {
                assert(ma.dom().contains(a[k].0));
            }
            assert forall|k: int| 0 <= k < b.len() implies holds_entry(mb, #[trigger] b[k]) by {
                assert(mb.dom().contains(b[k].0));
            }
        }
        if self.layers.len() != other.layers.len() {
            return false;
        }
        let mut i: usize = 0;
        while i < self.layers.len()
            invariant
                i <= self.layers@.len(),
                self.layers@.len() == other.layers@.len(),
                a == layer_entries(self.layers@),
                b == layer_entries(other.layers@),
                ma == pairs_map(a),
                mb == pairs_map(b),
                ma.dom().len() == a.len(),
                mb.dom().len() == b.len(),
                ma.dom().finite(),
                mb.dom().finite(),
                forall|k: int| 0 <= k < a.len() ==> holds_entry(ma, #[trigger] a[k]),
                forall|k: int| 0 <= k < b.len() ==> holds_entry(mb, #[trigger] b[k]),
                forall|k: int| 0 <= k < i ==> holds_entry(mb, #[trigger] a[k]),
            decreases self.layers@.len() - i,
        {
            let ghost e = a[i as int];
            assert(holds_entry(ma, e));
            match Self::find_layer(&other.layers, &self.layers[i].0) {
                None => {
                    proof {
                        lemma_pairs_map_dom(b);
                        if ma == mb {
                            assert(mb.dom().contains(e.0));
                            let j = choose|j: int| 0 <= j < b.len() && b[j].0 == e.0;
                            assert(other.layers@[j].0@ == self.layers@[i as int].0@);
                        }
                    }
                    return false;
                },
                Some(j) => {
                    let ghost f = b[j as int];
                    assert(holds_entry(mb, f));
                    assert(f.0 == e.0);
                    if !grid_eq(&self.layers[i].1, &other.layers[j].1) {
                        proof {
                            assert(f.1 != e.1);
                        }
                        return false;
                    }
                    proof {
                        assert(f.1 == e.1);
                        assert(holds_entry(mb, e));
                    }
                },
            }
            i = i + 1;
        }
        proof {
            lemma_pairs_map_dom(a);
            assert(ma.dom().subset_of(mb.dom())) by {
                assert forall|k: Seq<char>| ma.dom().contains(k) implies mb.dom().contains(k) by {
                    let x = choose|x: int| 0 <= x < a.len() && a[x].0 == k;
                    assert(holds_entry(mb, a[x]));
                }
            }
            vstd::set_lib::lemma_subset_equality(ma.dom(), mb.dom());
            assert forall|k: Seq<char>| ma.dom().contains(k) implies ma[k] == mb[k] by {
                let x = choose|x: int| 0 <= x < a.len() && a[x].0 == k;
                assert(holds_entry(mb, a[x]));
                assert(holds_entry(ma, a[x]));
            }
            assert(ma =~= mb);
        }
        true
    }
}

impl Eq for TRRBTPattern {

}

impl vstd::std_specs::cmp::PartialEqSpecImpl for TRRBTPattern {
    open spec fn obeys_eq_spec() -> bool {
        true
    }

    open spec fn eq_spec(&self, other: &Self) -> bool {
        self@ == other@
    }
}

// ---------------------------------------------------------------------------
// Players and node metadata
// ---------------------------------------------------------------------------

/// The name of a player.
#[derive(Debug, PartialEq, Eq)]
pub struct PlayerId(pub String);

impl From<&str> for PlayerId {
    /// The player named `value`.
    fn from(value: &str) -> (id: Self)
        ensures
            id.0@ == value@,
    {
        PlayerId(value.to_string())
    }
}

impl vstd::std_specs::convert::FromSpecImpl<&str> for PlayerId {
    /// A player's name is a `String`, and two strings with the same
    /// characters need not be the same spec value, so `from` is not tied to
    /// one value; its own `ensures` gives the name's characters.
    open spec fn obeys_from_spec() -> bool {
        false
    }

    open spec fn from_spec(v: &str) -> Self {
        choose|id: PlayerId| id.0@ == v@
    }
}

/// Optional identifier and comment of a node; an empty string stands for
/// "absent" in documents.
#[derive(Debug, PartialEq, Eq)]
pub struct Info {
    nid: Option<String>,
    comment: Option<String>,
}

/// An optional string by its characters.
pub open spec fn opt_string_view(o: Option<String>) -> Option<Seq<char>> {
    match o {
        Some(s) => Some(s@),
        None => None,
    }
}

impl Default for Info {
    fn default() -> (info: Self)
        ensures
            info.id_view() is None,
            info.comment_view() is None,
    {
        Info { nid: None, comment: None }
    }
}

impl Info {
    /// The identifier, by its characters.
    pub closed spec fn id_view(&self) -> Option<Seq<char>> {
        opt_string_view(self.nid)
    }

    /// The comment, by its characters.
    pub closed spec fn comment_view(&self) -> Option<Seq<char>> {
        opt_string_view(self.comment)
    }

    /// Metadata with the given identifier and comment.
    pub fn new(nid: Option<String>, comment: Option<String>) -> (info: Self)
        ensures
            info.id_view() == opt_string_view(nid),
            info.comment_view() == opt_string_view(comment),
    {
        Info { nid, comment }
    }

    /// The identifier, if any.
    pub fn nid(&self) -> (r: &Option<String>)
        ensures
            opt_string_view(*r) == self.id_view(),
    {
        &self.nid
    }

    /// The comment, if any.
    pub fn comment(&self) -> (r: &Option<String>)
        ensures
            opt_string_view(*r) == self.comment_view(),
    {
        &self.comment
    }

    /// Sets the identifier to `id`; the comment stays.
    pub fn set_id(&mut self, id: &str)
        ensures
            final(self).id_view() == Some(id@),
            final(self).comment_view() == old(self).comment_view(),
    {
        self.nid = Some(id.to_string());
    }
}

/// The repetition count that a document gets when it names none.
pub fn one_times() -> (times: u32)
    ensures
        times == 1,
{
    1
}

// ---------------------------------------------------------------------------
// Node actions
// ---------------------------------------------------------------------------

/// What a node of a behaviour tree does.
#[derive(Debug, PartialEq, Eq)]
pub enum NodeAction {
    // Tree macros
    XIdent,
    XPrune,
    XMirror { remorig: bool },
    XSkew { remorig: bool },
    XRotate { remorig: bool },
    XSpin { remorig: bool },
    XFlip { remorig: bool },
    XSwap { what: String, with: String },
    XReplace { what: String, withs: Vec<String> },
    XUnrollReplace { what: String },
    XLink { target: String },
    // Players and outcomes
    Player { pid: PlayerId },
    Win { pid: PlayerId },
    Lose { pid: PlayerId },
    Draw,
    // Control flow
    Order,
    All,
    NoneOf,
    RandomTry,
    LoopUntilAll,
    LoopTimes { times: u32 },
    // Board rewrites
    SetBoard { pattern: TRRBTPattern },
    AppendRows { pattern: TRRBTPattern },
    AppendColumns { pattern: TRRBTPattern },
    Rewrite { lhs: TRRBTPattern, rhs: TRRBTPattern },
    RewriteAll { lhs: TRRBTPattern, rhs: TRRBTPattern },
    LayerTemplate { layer: String, with: String },
    // Conditions
    Match { pattern: TRRBTPattern },
    MatchTimes { times: u32, pattern: TRRBTPattern },
}

impl NodeAction {
    /// A rotation that keeps the original.
    pub fn default_x_rotate() -> (action: Self)
        ensures
            action == (NodeAction::XRotate { remorig: false }),
    {
        NodeAction::XRotate { remorig: false }
    }

    /// A skew that keeps the original.
    pub fn default_x_skew() -> (action: Self)
        ensures
            action == (NodeAction::XSkew { remorig: false }),
    {
        NodeAction::XSkew { remorig: false }
    }
}

} // verus!
