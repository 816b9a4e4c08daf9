//! Reconstructing the table grid from the unordered list of labeled
//! document-analysis blocks.
//!
//! A Cell block carries 1-based row and column indices and refers to Word
//! blocks through child relationships; the grid is sized by the largest
//! indices seen among Cell blocks and each cell's text is the space-joined
//! text of its child Word blocks.

use vstd::prelude::*;
use vstd::string::StringExecFns;
use vstd::pervasive::VecAdditionalExecFns;

verus! {

/// The block label: a table cell, a recognised word, or anything else.
#[derive(Clone, Copy, Debug, PartialEq, Eq, Structural)]
pub enum BlockKind {
    Cell,
    Word,
    Other,
}

/// The label of a relationship list: child references or anything else.
#[derive(Clone, Copy, Debug, PartialEq, Eq, Structural)]
pub enum RelKind {
    Child,
    Other,
}

/// One relationship group of a block: a label and the referenced block ids,
/// in order.
pub struct Relationship {
    pub kind: RelKind,
    pub ids: Vec<String>,
}

/// One document-analysis primitive.
pub struct Block {
    pub id: Option<String>,
    pub kind: BlockKind,
    pub row_index: Option<u32>,
    pub column_index: Option<u32>,
    pub text: Option<String>,
    pub relationships: Vec<Relationship>,
}

pub open spec fn is_cell(b: Block) -> bool {
    b.kind == BlockKind::Cell
}

/// Number of grid rows: the largest 1-based row index among Cell blocks.
pub open spec fn grid_rows(s: Seq<Block>) -> int
    decreases s.len(),
{
    if s.len() == 0 {
        0
    } else {
        let rest = grid_rows(s.drop_last());
        let b = s.last();
        if is_cell(b) && b.row_index is Some && b.row_index->0 as int > rest {
            b.row_index->0 as int
        } else {
            rest
        }
    }
}

/// Number of grid columns: the largest 1-based column index among Cell blocks.
pub open spec fn grid_cols(s: Seq<Block>) -> int
    decreases s.len(),
{
    if s.len() == 0 {
        0
    } else {
        let rest = grid_cols(s.drop_last());
        let b = s.last();
        if is_cell(b) && b.column_index is Some && b.column_index->0 as int > rest {
            b.column_index->0 as int
        } else {
            rest
        }
    }
}

/// The 0-based row a cell lands on: its index minus one, missing indices
/// counting as one, and an explicit zero staying at zero.
pub open spec fn eff_row(b: Block) -> int {
    match b.row_index {
        Some(r) => if r == 0 {
            0
        } else {
            r - 1
        },
        None => 0,
    }
}

pub open spec fn eff_col(b: Block) -> int {
    match b.column_index {
        Some(c) => if c == 0 {
            0
        } else {
            c - 1
        },
        None => 0,
    }
}

/// Index of the last Cell block landing on (r, c), or -1 when none does.
/// The last one wins because earlier placements are overwritten.
pub open spec fn last_cell_at(s: Seq<Block>, r: int, c: int) -> int
    decreases s.len(),
{
    if s.len() == 0 {
        -1
    } else if is_cell(s.last()) && eff_row(s.last()) == r && eff_col(s.last()) == c {
        s.len() - 1
    } else {
        last_cell_at(s.drop_last(), r, c)
    }
}

/// The last block carrying id `id`, or `None`. The last one wins because
/// the id index is built by insertion over the whole list.
pub open spec fn lookup(s: Seq<Block>, id: Seq<char>) -> Option<Block>
    decreases s.len(),
{
    if s.len() == 0 {
        None
    } else if s.last().id is Some && s.last().id->0@ == id {
        Some(s.last())
    } else {
        lookup(s.drop_last(), id)
    }
}

/// The text a child reference contributes: the text of the referenced
/// block, provided that block exists and is a Word with text.
pub open spec fn word_text(s: Seq<Block>, id: Seq<char>) -> Option<Seq<char>> {
    match lookup(s, id) {
        Some(b) => if b.kind == BlockKind::Word && b.text is Some {
            Some(b.text->0@)
        } else {
            None
        },
        None => None,
    }
}

/// The ids referenced by one relationship group, empty unless it is a
/// child group.
pub open spec fn rel_ids(rel: Relationship) -> Seq<Seq<char>> {
    if rel.kind == RelKind::Child {
        rel.ids@.map_values(|s: String| s@)
    } else {
        Seq::empty()
    }
}

/// All child-referenced ids of a block, in relationship-list order.
pub open spec fn child_ids(rels: Seq<Relationship>) -> Seq<Seq<char>>
    decreases rels.len(),
{
    if rels.len() == 0 {
        Seq::empty()
    } else {
        child_ids(rels.drop_last()) + rel_ids(rels.last())
    }
}

/// The texts contributed by a list of child ids, in order.
pub open spec fn word_texts(s: Seq<Block>, ids: Seq<Seq<char>>) -> Seq<Seq<char>>
    decreases ids.len(),
{
    if ids.len() == 0 {
        Seq::empty()
    } else {
        let init = word_texts(s, ids.drop_last());
        match word_text(s, ids.last()) {
            Some(t) => init.push(t),
            None => init,
        }
    }
}

/// Text parts joined with single spaces.
pub open spec fn join_space(parts: Seq<Seq<char>>) -> Seq<char>
    decreases parts.len(),
{
    if parts.len() == 0 {
        Seq::empty()
    } else if parts.len() == 1 {
        parts[0]
    } else {
        join_space(parts.drop_last()) + seq![' '] + parts.last()
    }
}

/// The resolved text of cell block `b` against block list `s`.
pub open spec fn spec_cell_text(s: Seq<Block>, b: Block) -> Seq<char> {
    join_space(word_texts(s, child_ids(b.relationships@)))
}

/// The text the finished grid holds at (r, c).
pub open spec fn spec_grid_cell(s: Seq<Block>, r: int, c: int) -> Seq<char> {
    let i = last_cell_at(s, r, c);
    if i >= 0 {
        spec_cell_text(s, s[i])
    } else {
        Seq::empty()
    }
}

/// No two blocks carry the same id.
pub open spec fn unique_ids(s: Seq<Block>) -> bool {
    forall|i: int, j: int|
        0 <= i < j < s.len() && (#[trigger] s[i]).id is Some && (#[trigger] s[j]).id is Some
            ==> s[i].id->0@ != s[j].id->0@
}

/// No two Cell blocks land on the same grid position.
pub open spec fn unique_cells(s: Seq<Block>) -> bool {
    forall|i: int, j: int|
        0 <= i < j < s.len() && is_cell(#[trigger] s[i]) && is_cell(#[trigger] s[j]) ==> !(eff_row(
            s[i],
        ) == eff_row(s[j]) && eff_col(s[i]) == eff_col(s[j]))
}

/// What `grid_rows` computes: an upper bound on the Cell row indices that
/// is zero or attained.
proof fn lemma_grid_rows_char(s: Seq<Block>)
    ensures
        grid_rows(s) >= 0,
        forall|i: int|
            0 <= i < s.len() && is_cell(#[trigger] s[i]) && s[i].row_index is Some
                ==> s[i].row_index->0 <= grid_rows(s),
        grid_rows(s) == 0 || exists|i: int|
            0 <= i < s.len() && is_cell(#[trigger] s[i]) && s[i].row_index is Some
                && s[i].row_index->0 == grid_rows(s),
    decreases s.len(),
{
    if s.len() > 0 {
        lemma_grid_rows_char(s.drop_last());
        assert forall|i: int|
            0 <= i < s.len() && is_cell(#[trigger] s[i]) && s[i].row_index is Some implies s[i].row_index->0
            <= grid_rows(s) by {
            if i < s.len() - 1 {
                assert(s.drop_last()[i] == s[i]);
            }
        }
        if grid_rows(s) != 0 {
            let b = s.last();
            if is_cell(b) && b.row_index is Some && b.row_index->0 as int > grid_rows(
                s.drop_last(),
            ) {
                assert(s[s.len() - 1].row_index->0 == grid_rows(s));
            } else {
                let i = choose|i: int|
                    0 <= i < s.drop_last().len() && is_cell(#[trigger] s.drop_last()[i])
                        && s.drop_last()[i].row_index is Some && s.drop_last()[i].row_index->0
                        == grid_rows(s.drop_last());
                assert(s[i] == s.drop_last()[i]);
            }
        }
    }
}

/// The same, for columns.
proof fn lemma_grid_cols_char(s: Seq<Block>)
    ensures
        grid_cols(s) >= 0,
        forall|i: int|
            0 <= i < s.len() && is_cell(#[trigger] s[i]) && s[i].column_index is Some
                ==> s[i].column_index->0 <= grid_cols(s),
        grid_cols(s) == 0 || exists|i: int|
            0 <= i < s.len() && is_cell(#[trigger] s[i]) && s[i].column_index is Some
                && s[i].column_index->0 == grid_cols(s),
    decreases s.len(),
{
    if s.len() > 0 {
        lemma_grid_cols_char(s.drop_last());
        assert forall|i: int|
            0 <= i < s.len() && is_cell(#[trigger] s[i]) && s[i].column_index is Some implies s[i].column_index->0
            <= grid_cols(s) by {
            if i < s.len() - 1 {
                assert(s.drop_last()[i] == s[i]);
            }
        }
        if grid_cols(s) != 0 {
            let b = s.last();
            if is_cell(b) && b.column_index is Some && b.column_index->0 as int > grid_cols(
                s.drop_last(),
            ) {
                assert(s[s.len() - 1].column_index->0 == grid_cols(s));
            } else {
                let i = choose|i: int|
                    0 <= i < s.drop_last().len() && is_cell(#[trigger] s.drop_last()[i])
                        && s.drop_last()[i].column_index is Some && s.drop_last()[i].column_index->0
                        == grid_cols(s.drop_last());
                assert(s[i] == s.drop_last()[i]);
            }
        }
    }
}

/// What `lookup` finds: the found block is a member carrying the id, and
/// a miss means no member carries it.
proof fn lemma_lookup_char(s: Seq<Block>, id: Seq<char>)
    ensures
        match lookup(s, id) {
            Some(b) => s.contains(b) && b.id is Some && b.id->0@ == id,
            None => forall|i: int|
                0 <= i < s.len() ==> !((#[trigger] s[i]).id is Some && s[i].id->0@ == id),
        },
    decreases s.len(),
{
    if s.len() > 0 {
        lemma_lookup_char(s.drop_last(), id);
        if s.last().id is Some && s.last().id->0@ == id {
        } else {
            match lookup(s.drop_last(), id) {
                Some(b) => {
                    let i = choose|i: int|
                        0 <= i < s.drop_last().len() && #[trigger] s.drop_last()[i] == b;
                    assert(s[i] == b);
                },
                None => {
                    assert forall|i: int|
                        0 <= i < s.len() implies !((#[trigger] s[i]).id is Some && s[i].id->0@
                        == id) by {
                        if i < s.len() - 1 {
                            assert(s.drop_last()[i] == s[i]);
                        }
                    }
                },
            }
        }
    }
}

/// A member carrying the id makes `lookup` find something.
proof fn lemma_lookup_finds(s: Seq<Block>, id: Seq<char>, b: Block)
    requires
        s.contains(b),
        b.id is Some,
        b.id->0@ == id,
    ensures
        lookup(s, id) is Some,
    decreases s.len(),
{
    if s.len() > 0 {
        if !(s.last().id is Some && s.last().id->0@ == id) {
            assert(s.last() != b);
            let i = choose|i: int| 0 <= i < s.len() && #[trigger] s[i] == b;
            assert(s.drop_last()[i] == b);
            lemma_lookup_finds(s.drop_last(), id, b);
        }
    }
}

/// With unique ids, `lookup` depends only on which blocks are present.
proof fn lemma_lookup_permuted(s1: Seq<Block>, s2: Seq<Block>, id: Seq<char>)
    requires
        unique_ids(s1),
        s1.to_multiset() == s2.to_multiset(),
    ensures
        lookup(s1, id) == lookup(s2, id),
{
    broadcast use vstd::seq_lib::group_to_multiset_ensures;

    lemma_lookup_char(s1, id);
    lemma_lookup_char(s2, id);
    match lookup(s1, id) {
        Some(b1) => {
            assert(s2.contains(b1)) by {
                assert(s1.to_multiset().count(b1) > 0);
            }
            match lookup(s2, id) {
                Some(b2) => {
                    if b1 != b2 {
                        assert(s1.contains(b2)) by {
                            assert(s2.to_multiset().count(b2) > 0);
                        }
                        let i = choose|i: int| 0 <= i < s1.len() && #[trigger] s1[i] == b1;
                        let j = choose|j: int| 0 <= j < s1.len() && #[trigger] s1[j] == b2;
                        assert(false);
                    }
                },
                None => {
                    assert(false);
                },
            }
        },
        None => {
            match lookup(s2, id) {
                Some(b2) => {
                    assert(s1.contains(b2)) by {
                        assert(s2.to_multiset().count(b2) > 0);
                    }
                    let i = choose|i: int| 0 <= i < s1.len() && #[trigger] s1[i] == b2;
                    assert(false);
                },
                None => {},
            }
        },
    }
}

/// Texts resolve identically against two block lists whose lookups agree.
proof fn lemma_word_texts_same(s1: Seq<Block>, s2: Seq<Block>, ids: Seq<Seq<char>>)
    requires
        forall|k: int| 0 <= k < ids.len() ==> word_text(s1, #[trigger] ids[k]) == word_text(
            s2,
            ids[k],
        ),
    ensures
        word_texts(s1, ids) == word_texts(s2, ids),
    decreases ids.len(),
{
    if ids.len() > 0 {
        lemma_word_texts_same(s1, s2, ids.drop_last());
    }
}

/// What `last_cell_at` finds: the found block is a Cell member landing on
/// (r, c), and -1 means no Cell lands there.
proof fn lemma_last_cell_char(s: Seq<Block>, r: int, c: int)
    ensures
        last_cell_at(s, r, c) >= 0 ==> {
            let k = last_cell_at(s, r, c);
            &&& 0 <= k < s.len()
            &&& is_cell(s[k])
            &&& eff_row(s[k]) == r
            &&& eff_col(s[k]) == c
        },
        last_cell_at(s, r, c) < 0 ==> forall|i: int|
            0 <= i < s.len() ==> !(is_cell(#[trigger] s[i]) && eff_row(s[i]) == r && eff_col(s[i])
                == c),
    decreases s.len(),
{
    if s.len() > 0 {
        lemma_last_cell_char(s.drop_last(), r, c);
        if !(is_cell(s.last()) && eff_row(s.last()) == r && eff_col(s.last()) == c) {
            if last_cell_at(s, r, c) >= 0 {
                assert(s[last_cell_at(s, r, c)] == s.drop_last()[last_cell_at(s, r, c)]);
            } else {
                assert forall|i: int|
                    0 <= i < s.len() implies !(is_cell(#[trigger] s[i]) && eff_row(s[i]) == r
                    && eff_col(s[i]) == c) by {
                    if i < s.len() - 1 {
                        assert(s.drop_last()[i] == s[i]);
                    }
                }
            }
        }
    }
}

/// Reconstructing the grid does not depend on the order of the block list:
/// a permutation of the input yields identical dimensions and identical
/// cell texts, provided ids and cell positions are unambiguous.
pub proof fn lemma_grid_order_independent(s1: Seq<Block>, s2: Seq<Block>)
    requires
        s1.to_multiset() == s2.to_multiset(),
        unique_ids(s1),
        unique_cells(s1),
    ensures
        grid_rows(s1) == grid_rows(s2),
        grid_cols(s1) == grid_cols(s2),
        forall|r: int, c: int|
            0 <= r < grid_rows(s1) && 0 <= c < grid_cols(s1) ==> spec_grid_cell(s1, r, c)
                == #[trigger] spec_grid_cell(s2, r, c),
{
    broadcast use vstd::seq_lib::group_to_multiset_ensures;

    lemma_grid_rows_char(s1);
    lemma_grid_rows_char(s2);
    lemma_grid_cols_char(s1);
    lemma_grid_cols_char(s2);
    assert(grid_rows(s1) == grid_rows(s2)) by {
        if grid_rows(s1) != 0 {
            let i = choose|i: int|
                0 <= i < s1.len() && is_cell(#[trigger] s1[i]) && s1[i].row_index is Some
                    && s1[i].row_index->0 == grid_rows(s1);
            assert(s2.contains(s1[i])) by {
                assert(s1.to_multiset().count(s1[i]) > 0);
            }
            let j = choose|j: int| 0 <= j < s2.len() && #[trigger] s2[j] == s1[i];
            assert(grid_rows(s2) >= grid_rows(s1));
        }
        if grid_rows(s2) != 0 {
            let i = choose|i: int|
                0 <= i < s2.len() && is_cell(#[trigger] s2[i]) && s2[i].row_index is Some
                    && s2[i].row_index->0 == grid_rows(s2);
            assert(s1.contains(s2[i])) by {
                assert(s2.to_multiset().count(s2[i]) > 0);
            }
            let j = choose|j: int| 0 <= j < s1.len() && #[trigger] s1[j] == s2[i];
            assert(grid_rows(s1) >= grid_rows(s2));
        }
    }
    assert(grid_cols(s1) == grid_cols(s2)) by {
        if grid_cols(s1) != 0 {
            let i = choose|i: int|
                0 <= i < s1.len() && is_cell(#[trigger] s1[i]) && s1[i].column_index is Some
                    && s1[i].column_index->0 == grid_cols(s1);
            assert(s2.contains(s1[i])) by {
                assert(s1.to_multiset().count(s1[i]) > 0);
            }
            let j = choose|j: int| 0 <= j < s2.len() && #[trigger] s2[j] == s1[i];
            assert(grid_cols(s2) >= grid_cols(s1));
        }
        if grid_cols(s2) != 0 {
            let i = choose|i: int|
                0 <= i < s2.len() && is_cell(#[trigger] s2[i]) && s2[i].column_index is Some
                    && s2[i].column_index->0 == grid_cols(s2);
            assert(s1.contains(s2[i])) by {
                assert(s2.to_multiset().count(s2[i]) > 0);
            }
            let j = choose|j: int| 0 <= j < s1.len() && #[trigger] s1[j] == s2[i];
            assert(grid_cols(s1) >= grid_cols(s2));
        }
    }
    assert forall|r: int, c: int|
        0 <= r < grid_rows(s1) && 0 <= c < grid_cols(s1) implies spec_grid_cell(s1, r, c)
        == #[trigger] spec_grid_cell(s2, r, c) by {
        lemma_last_cell_char(s1, r, c);
        lemma_last_cell_char(s2, r, c);
        let k1 = last_cell_at(s1, r, c);
        let k2 = last_cell_at(s2, r, c);
        if k1 >= 0 && k2 >= 0 {
            let b1 = s1[k1];
            let b2 = s2[k2];
            assert(s1.contains(b1));
            assert(s2.contains(b2));
            if b1 != b2 {
                assert(s1.contains(b2)) by {
                    assert(s2.to_multiset().count(b2) > 0);
                }
                let i = choose|i: int| 0 <= i < s1.len() && #[trigger] s1[i] == b1;
                let j = choose|j: int| 0 <= j < s1.len() && #[trigger] s1[j] == b2;
                assert(false);
            }
            assert forall|k: int|
                0 <= k < child_ids(b1.relationships@).len() implies word_text(
                s1,
                #[trigger] child_ids(b1.relationships@)[k],
            ) == word_text(s2, child_ids(b1.relationships@)[k]) by {
                lemma_lookup_permuted(s1, s2, child_ids(b1.relationships@)[k]);
            }
            lemma_word_texts_same(s1, s2, child_ids(b1.relationships@));
        } else if k1 >= 0 {
            let b1 = s1[k1];
            assert(s2.contains(b1)) by {
                assert(s1.to_multiset().count(b1) > 0);
            }
            let j = choose|j: int| 0 <= j < s2.len() && #[trigger] s2[j] == b1;
            assert(false);
        } else if k2 >= 0 {
            let b2 = s2[k2];
            assert(s1.contains(b2)) by {
                assert(s2.to_multiset().count(b2) > 0);
            }
            assert(false);
        }
    }
}

/// Find the index of the last block with the given id.
fn lookup_exec(blocks: &Vec<Block>, id: &String) -> (r: Option<usize>)
    ensures
        match r {
            Some(j) => 0 <= j < blocks@.len() && lookup(blocks@, id@) == Some(blocks@[j as int]),
            None => lookup(blocks@, id@) is None,
        },
{
    let mut i: usize = blocks.len();
    proof {
        assert(blocks@.take(blocks@.len() as int) =~= blocks@);
    }
    while i > 0
        invariant
            0 <= i <= blocks@.len(),
            lookup(blocks@, id@) == lookup(blocks@.take(i as int), id@),
        decreases i,
    {
        i = i - 1;
        proof {
            assert(blocks@.take(i as int + 1).drop_last() =~= blocks@.take(i as int));
            assert(blocks@.take(i as int + 1).last() == blocks@[i as int]);
        }
        let b = &blocks[i];
        let hit = match &b.id {
            Some(bid) => *bid == *id,
            None => false,
        };
        if hit {
            return Some(i);
        }
    }
    None
}

/// Resolve the text of one cell block: the texts of its child Word blocks
/// joined with single spaces, in relationship order.
pub fn extract_text_from_cell(cell: &Block, blocks: &Vec<Block>) -> (r: String)
    ensures
        r@ == spec_cell_text(blocks@, *cell),
{
    let rels = &cell.relationships;
    let mut parts: Vec<String> = Vec::new();
    let ghost mut done: Seq<Seq<char>> = Seq::empty();
    let mut k: usize = 0;
    while k < rels.len()
        invariant
            0 <= k <= rels@.len(),
            rels@ == cell.relationships@,
            done == child_ids(rels@.take(k as int)),
            parts@.map_values(|s: String| s@) == word_texts(blocks@, done),
        decreases rels@.len() - k,
    {
        proof {
            assert(rels@.take(k as int + 1).drop_last() =~= rels@.take(k as int));
            assert(rels@.take(k as int + 1).last() == rels@[k as int]);
        }
        let rel = &rels[k];
        if rel.kind == RelKind::Child {
            let mut t: usize = 0;
            while t < rel.ids.len()
                invariant
                    0 <= t <= rel.ids@.len(),
                    rel == rels@[k as int],
                    done == child_ids(rels@.take(k as int)) + rel.ids@.take(t as int).map_values(
                        |s: String| s@,
                    ),
                    parts@.map_values(|s: String| s@) == word_texts(blocks@, done),
                decreases rel.ids@.len() - t,
            {
                let id = &rel.ids[t];
                let ghost prev_done = done;
                let ghost prev_parts = parts@;
                proof {
                    done = done.push(id@);
                    assert(done.drop_last() =~= prev_done);
                    assert(rel.ids@.take(t as int + 1).map_values(|s: String| s@) =~= rel.ids@.take(
                        t as int,
                    ).map_values(|s: String| s@).push(id@));
                    assert(done =~= child_ids(rels@.take(k as int)) + rel.ids@.take(
                        t as int + 1,
                    ).map_values(|s: String| s@));
                }
                match lookup_exec(blocks, id) {
                    Some(j) => {
                        let b = &blocks[j];
                        let keep = match &b.text {
                            Some(tx) => {
                                if b.kind == BlockKind::Word {
                                    parts.push(tx.clone());
                                    true
                                } else {
                                    false
                                }
                            },
                            None => false,
                        };
                        proof {
                            if keep {
                                assert(parts@.map_values(|s: String| s@) =~= prev_parts.map_values(
                                    |s: String| s@,
                                ).push(word_text(blocks@, id@)->0));
                            }
                        }
                    },
                    None => {},
                }
                t = t + 1;
            }
            proof {
                assert(rel.ids@.take(rel.ids@.len() as int) =~= rel.ids@);
                assert(done =~= child_ids(rels@.take(k as int + 1)));
            }
        } else {
            proof {
                assert(rel_ids(rels@[k as int]) =~= Seq::<Seq<char>>::empty());
                assert(done =~= child_ids(rels@.take(k as int + 1)));
            }
        }
        k = k + 1;
    }
    proof {
        assert(rels@.take(rels@.len() as int) =~= rels@);
    }
    let ghost partsv = parts@.map_values(|s: String| s@);
    let mut out = String::new();
    let mut t: usize = 0;
    proof {
        reveal_strlit(" ");
    }
    while t < parts.len()
        invariant
            0 <= t <= parts@.len(),
            partsv == parts@.map_values(|s: String| s@),
            out@ == join_space(partsv.take(t as int)),
        decreases parts@.len() - t,
    {
        proof {
            assert(partsv.take(t as int + 1).drop_last() =~= partsv.take(t as int));
            assert(partsv.take(t as int + 1).last() == partsv[t as int]);
            reveal_strlit(" ");
        }
        if t > 0 {
            out.append(" ");
            proof {
                assert(" "@ =~= seq![' ']);
            }
        }
        out.append(parts[t].as_str());
        t = t + 1;
    }
    proof {
        assert(partsv.take(parts@.len() as int) =~= partsv);
    }
    out
}

/// Replace one cell of the grid.
fn set_grid_cell(grid: &mut Vec<Vec<String>>, r: usize, c: usize, v: String)
    requires
        r < old(grid)@.len(),
        c < old(grid)@[r as int]@.len(),
    ensures
        final(grid)@.len() == old(grid)@.len(),
        forall|i: int|
            0 <= i < old(grid)@.len() && i != r ==> final(grid)@[i] == old(grid)@[i],
        final(grid)@[r as int]@ == old(grid)@[r as int]@.update(c as int, v),
{
    let mut row = grid.remove(r);
    row.set(c, v);
    grid.insert(r, row);
    proof {
        assert forall|i: int| 0 <= i < old(grid)@.len() && i != r implies final(grid)@[i] == old(
            grid,
        )@[i] by {
            if i < r {
                assert(final(grid)@[i] == old(grid)@.remove(r as int).insert(r as int, row)[i]);
            }
        }
    }
}

/// Rebuild the table grid from the unordered block list. The grid has one
/// row per observed row index and one column per observed column index;
/// cells nothing lands on hold the empty string.
pub fn parse_blocks(blocks: &Vec<Block>) -> (r: Vec<Vec<String>>)
    ensures
        r@.len() == grid_rows(blocks@),
        forall|i: int| 0 <= i < r@.len() ==> #[trigger] r@[i]@.len() == grid_cols(blocks@),
        forall|i: int, j: int|
            0 <= i < grid_rows(blocks@) && 0 <= j < grid_cols(blocks@) ==> #[trigger] r@[i]@[j]@
                == spec_grid_cell(blocks@, i, j),
{
    let ghost s = blocks@;
    let mut max_row: u32 = 0;
    let mut max_col: u32 = 0;
    let mut i: usize = 0;
    while i < blocks.len()
        invariant
            0 <= i <= s.len(),
            s == blocks@,
            max_row == grid_rows(s.take(i as int)),
            max_col == grid_cols(s.take(i as int)),
        decreases s.len() - i,
    {
        proof {
            assert(s.take(i as int + 1).drop_last() =~= s.take(i as int));
            assert(s.take(i as int + 1).last() == s[i as int]);
        }
        let b = &blocks[i];
        if b.kind == BlockKind::Cell {
            match b.row_index {
                Some(ri) => if ri > max_row {
                    max_row = ri;
                },
                None => {},
            }
            match b.column_index {
                Some(ci) => if ci > max_col {
                    max_col = ci;
                },
                None => {},
            }
        }
        i = i + 1;
    }
    proof {
        assert(s.take(s.len() as int) =~= s);
    }
    let mut grid: Vec<Vec<String>> = Vec::new();
    let mut rr: usize = 0;
    while rr < max_row as usize
        invariant
            grid@.len() == rr,
            rr <= max_row as usize,
            forall|a: int| 0 <= a < rr ==> #[trigger] grid@[a]@.len() == max_col,
            forall|a: int, bq: int|
                0 <= a < rr && 0 <= bq < max_col ==> #[trigger] grid@[a]@[bq]@ == Seq::<
                    char,
                >::empty(),
        decreases max_row as usize - rr,
    {
        let mut row: Vec<String> = Vec::new();
        let mut cc: usize = 0;
        while cc < max_col as usize
            invariant
                row@.len() == cc,
                cc <= max_col as usize,
                forall|bq: int| 0 <= bq < cc ==> #[trigger] row@[bq]@ == Seq::<char>::empty(),
            decreases max_col as usize - cc,
        {
            row.push(String::new());
            cc = cc + 1;
        }
        grid.push(row);
        rr = rr + 1;
    }
    let mut i: usize = 0;
    while i < blocks.len()
        invariant
            0 <= i <= s.len(),
            s == blocks@,
            max_row == grid_rows(s),
            max_col == grid_cols(s),
            grid@.len() == max_row,
            forall|a: int| 0 <= a < grid@.len() ==> #[trigger] grid@[a]@.len() == max_col,
            forall|a: int, bq: int|
                0 <= a < max_row && 0 <= bq < max_col ==> #[trigger] grid@[a]@[bq]@ == (if
                last_cell_at(s.take(i as int), a, bq) >= 0 {
                    spec_cell_text(s, s[last_cell_at(s.take(i as int), a, bq)])
                } else {
                    Seq::<char>::empty()
                }),
        decreases s.len() - i,
    {
        proof {
            assert(s.take(i as int + 1).drop_last() =~= s.take(i as int));
            assert(s.take(i as int + 1).last() == s[i as int]);
        }
        let b = &blocks[i];
        if b.kind == BlockKind::Cell {
            let ri: u32 = match b.row_index {
                Some(r) => if r == 0 {
                    0
                } else {
                    r - 1
                },
                None => 0,
            };
            let ci: u32 = match b.column_index {
                Some(c) => if c == 0 {
                    0
                } else {
                    c - 1
                },
                None => 0,
            };
            let txt = extract_text_from_cell(b, blocks);
            if ri < max_row && ci < max_col {
                set_grid_cell(&mut grid, ri as usize, ci as usize, txt);
            }
        }
        i = i + 1;
    }
    proof {
        assert(s.take(s.len() as int) =~= s);
    }
    grid
}

} // verus!
