//! Sequences that are produced piece by piece from nested searches.

use vstd::prelude::*;

verus! {

/// A range of rows or columns of a grid: from `start` up to, not including,
/// `end`.
#[derive(Clone, Copy, Debug, PartialEq, Eq, Structural)]
pub struct Visible {
    pub start: usize,
    pub end: usize,
}

/// The locations of one row in the given columns, from the left.
pub open spec fn row_locations(row: int, cols: Visible) -> Seq<(usize, usize)> {
    Seq::new(
        if cols.end > cols.start {
            (cols.end - cols.start) as nat
        } else {
            0nat
        },
        |j: int| (row as usize, (cols.start + j) as usize),
    )
}

/// The locations of the rows from `rows.start` up to `end` in the given columns:
/// row after row, and each row from the left.
pub open spec fn locations_upto(rows: Visible, end: int, cols: Visible) -> Seq<(usize, usize)>
    decreases end - rows.start,
{
    if end <= rows.start {
        Seq::empty()
    } else {
        locations_upto(rows, end - 1, cols) + row_locations(end - 1, cols)
    }
}

/// The locations of a grid that lie in the visible rows and in the visible
/// columns: row after row, and each row from the left.
pub fn all_visible_locations(visible_rows: Visible, visible_cols: Visible) -> (locations: Vec<
    (usize, usize),
>)
    ensures
        locations@ == locations_upto(visible_rows, visible_rows.end as int, visible_cols),
{
    let mut locations: Vec<(usize, usize)> = Vec::new();
    let mut row = visible_rows.start;
    proof {
        assert(locations@ =~= locations_upto(visible_rows, row as int, visible_cols));
    }
    while row < visible_rows.end
        invariant
            visible_rows.start <= row,
            row <= visible_rows.end || row == visible_rows.start,
            locations@ == locations_upto(visible_rows, row as int, visible_cols),
        decreases visible_rows.end - row,
    {
        let ghost done = locations@;
        let mut col = visible_cols.start;
        while col < visible_cols.end
            invariant
                visible_cols.start <= col,
                col <= visible_cols.end || col == visible_cols.start,
                row < visible_rows.end,
                locations@.len() == done.len() + (col - visible_cols.start),
                forall|k: int| 0 <= k < done.len() ==> locations@[k] == done[k],
                forall|k: int|
                    done.len() <= k < locations@.len() ==> locations@[k] == (
                        row,
                        (visible_cols.start + (k - done.len())) as usize,
                    ),
            decreases visible_cols.end - col,
        {
            locations.push((row, col));
            col = col + 1;
        }
        proof {
            let added = row_locations(row as int, visible_cols);
            assert(added.len() == locations@.len() - done.len());
            assert forall|k: int| 0 <= k < added.len() implies locations@[done.len() + k]
                == added[k] by {}
            assert(locations@ =~= done + added);
        }
        row = row + 1;
    }
    proof {
        if visible_rows.end < visible_rows.start {
            assert(locations_upto(visible_rows, visible_rows.end as int, visible_cols)
                == Seq::<(usize, usize)>::empty());
            assert(locations_upto(visible_rows, row as int, visible_cols) == Seq::<
                (usize, usize),
            >::empty());
        }
    }
    locations
}

/// The source text of the file that declares a trait, and the place in it
/// where the declaration starts.
#[derive(Clone, Debug, PartialEq, Eq)]
pub struct TraitSource {
    pub src: Vec<u8>,
    pub point: usize,
}

/// The body of a trait in which its items are looked for: which trait of the
/// list it is, and the place behind the brace that opens its body.
#[derive(Clone, Copy, Debug, PartialEq, Eq, Structural)]
pub struct Scope {
    pub tr: usize,
    pub start: usize,
}

/// The place of the first opening brace of a text at `point` or behind it; the
/// length of the text if there is none.
pub open spec fn brace_from(src: Seq<u8>, point: int) -> int
    decreases src.len() - point,
{
    if point < 0 || point >= src.len() {
        src.len() as int
    } else if src[point] == 0x7b {
        point
    } else {
        brace_from(src, point + 1)
    }
}

/// The body of a trait, if its declaration has one.
pub open spec fn scope_of(traits: Seq<TraitSource>, tr: int) -> Seq<Scope> {
    let brace = brace_from(traits[tr].src@, traits[tr].point as int);
    if brace < traits[tr].src@.len() {
        seq![Scope { tr: tr as usize, start: (brace + 1) as usize }]
    } else {
        Seq::empty()
    }
}

/// The bodies of the first `n` traits of a list, in the order of the list.
pub open spec fn scopes_upto(traits: Seq<TraitSource>, n: int) -> Seq<Scope>
    decreases n,
{
    if n <= 0 {
        Seq::empty()
    } else {
        scopes_upto(traits, n - 1) + scope_of(traits, n - 1)
    }
}

/// The place behind the first opening brace of a text at `point` or behind it.
pub fn scope_start(src: &Vec<u8>, point: usize) -> (start: Option<usize>)
    ensures
        start == if brace_from(src@, point as int) < src@.len() {
            Some((brace_from(src@, point as int) + 1) as usize)
        } else {
            None
        },
{
    let mut i = point;
    while i < src.len()
        invariant
            point <= i,
            brace_from(src@, i as int) == brace_from(src@, point as int),
        decreases src.len() - i,
    {
        if src[i] == 0x7b {
            return Some(i + 1);
        }
        i = i + 1;
    }
    None
}

/// Where the items of a trait and of the traits that it inherits from are
/// looked for: the body of every trait of the list that has one, in the order
/// of the list.
pub fn search_for_trait_items(traits: &Vec<TraitSource>) -> (scopes: Vec<Scope>)
    ensures
        scopes@ == scopes_upto(traits@, traits@.len() as int),
{
    let mut scopes: Vec<Scope> = Vec::new();
    let mut i: usize = 0;
    proof {
        assert(scopes@ =~= scopes_upto(traits@, 0));
    }
    while i < traits.len()
        invariant
            0 <= i <= traits.len(),
            scopes@ == scopes_upto(traits@, i as int),
        decreases traits.len() - i,
    {
        let ghost done = scopes@;
        match scope_start(&traits[i].src, traits[i].point) {
            Some(start) => {
                scopes.push(Scope { tr: i, start });
                proof {
                    assert(scopes@ =~= done + scope_of(traits@, i as int));
                }
            },
            None => {
                proof {
                    assert(scopes@ =~= done + scope_of(traits@, i as int));
                }
            },
        }
        i = i + 1;
    }
    scopes
}

} // verus!
