//! Structured form of the search results, ready for an external serializer:
//! the catalog table by shape id, and each accepted packing as a sorted,
//! deduplicated set of shape/anchor pairs.

use vstd::prelude::*;

verus! {

use crate::algorithm::{from_catalog, PlacementResult};
use crate::tetra::{spec_catalog, static_tetras_iter, PlacedTetraInBoundaries, TetraShape, TETRAS_COUNT};
use crate::util::Pos;

/// One catalog shape in output form: its four relative offsets.
pub struct Tetra {
    pub positions: Vec<Pos>,
}

/// One placed shape: a catalog id and its anchor.
#[derive(Clone, Copy, PartialEq, Eq, Structural, Debug)]
pub struct TetraPos {
    pub tetra: usize,
    pub pos: Pos,
}

/// One packing: its shape/anchor pairs in ascending order, and the count of
/// cells left empty.
pub struct Placement {
    pub tetras: Vec<TetraPos>,
    pub free: usize,
}

/// Structured form of a result collection.
pub struct Output {
    pub tetras: Vec<Tetra>,
    pub placements: Vec<Placement>,
}

/// Strict order on shape/anchor pairs: by shape id, then anchor row, then
/// anchor column.
pub open spec fn tp_lt(a: TetraPos, b: TetraPos) -> bool {
    ||| a.tetra < b.tetra
    ||| (a.tetra == b.tetra && a.pos.row < b.pos.row)
    ||| (a.tetra == b.tetra && a.pos.row == b.pos.row && a.pos.col < b.pos.col)
}

pub open spec fn tp_le(a: TetraPos, b: TetraPos) -> bool {
    tp_lt(a, b) || a == b
}

/// Lexicographic order on pair sequences; a strict prefix sorts first.
pub open spec fn tp_seq_lt(a: Seq<TetraPos>, b: Seq<TetraPos>) -> bool
    decreases a.len(),
{
    if b.len() == 0 {
        false
    } else if a.len() == 0 {
        true
    } else if tp_lt(a[0], b[0]) {
        true
    } else if a[0] == b[0] {
        tp_seq_lt(a.drop_first(), b.drop_first())
    } else {
        false
    }
}

/// Strict order on packings: by their pair sequences, then by leftover.
pub open spec fn placement_lt(p: Placement, q: Placement) -> bool {
    tp_seq_lt(p.tetras@, q.tetras@) || (p.tetras@ == q.tetras@ && p.free < q.free)
}

proof fn lemma_tp_seq_trichotomy(a: Seq<TetraPos>, b: Seq<TetraPos>)
    ensures
        tp_seq_lt(a, b) || tp_seq_lt(b, a) || a == b,
    decreases a.len(),
{
    if a.len() == 0 && b.len() == 0 {
        assert(a =~= b);
    } else if a.len() > 0 && b.len() > 0 {
        if !tp_lt(a[0], b[0]) && !tp_lt(b[0], a[0]) {
            assert(a[0] == b[0]);
            lemma_tp_seq_trichotomy(a.drop_first(), b.drop_first());
            if a.drop_first() == b.drop_first() {
                assert(a.drop_first().len() == b.drop_first().len());
                assert(a.len() == b.len());
                assert forall|x: int| 0 <= x < a.len() implies a[x] == b[x] by {
                    if x > 0 {
                        assert(a[x] == a.drop_first()[x - 1]);
                        assert(b[x] == b.drop_first()[x - 1]);
                        assert(a.drop_first()[x - 1] == b.drop_first()[x - 1]);
                    }
                }
                assert(a =~= b);
            }
        }
    }
}

/// The first catalog index holding shape `t`; the catalog length if none.
pub open spec fn catalog_index_from(t: TetraShape, i: int) -> int
    decreases TETRAS_COUNT - i,
{
    if i < 0 || i >= TETRAS_COUNT {
        TETRAS_COUNT as int
    } else if spec_catalog()[i] == t {
        i
    } else {
        catalog_index_from(t, i + 1)
    }
}

/// Output form of one placement: its shape's catalog id and its anchor.
pub open spec fn spec_tetra_pos(p: PlacedTetraInBoundaries) -> TetraPos {
    TetraPos {
        tetra: catalog_index_from(p.spec_placed().tetra@, 0) as usize,
        pos: p.spec_placed().position,
    }
}

/// Pairs in ascending order.
pub open spec fn sorted_le(s: Seq<TetraPos>) -> bool {
    forall|i: int, j: int| 0 <= i < j < s.len() ==> tp_le(#[trigger] s[i], #[trigger] s[j])
}

/// `pl` is the output form of `r`: same leftover, and the same placements
/// as pairs, reordered ascending.
pub open spec fn is_conversion(r: PlacementResult, pl: Placement) -> bool {
    &&& pl.free == r.free
    &&& pl.tetras@.to_multiset() == r.placement@.map_values(
        |p: PlacedTetraInBoundaries| spec_tetra_pos(p),
    ).to_multiset()
    &&& sorted_le(pl.tetras@)
}

/// Every entry is the conversion of some input result.
pub open spec fn conversions_sound(results: Seq<PlacementResult>, pls: Seq<Placement>) -> bool {
    forall|m: int|
        0 <= m < pls.len() ==> exists|k: int|
            0 <= k < results.len() && is_conversion(results[k], #[trigger] pls[m])
}

/// Every input result has its conversion among the entries.
pub open spec fn conversions_complete(results: Seq<PlacementResult>, pls: Seq<Placement>) -> bool {
    forall|k: int|
        0 <= k < results.len() ==> exists|m: int|
            0 <= m < pls.len() && is_conversion(#[trigger] results[k], pls[m])
}

/// Entries in strictly ascending order.
pub open spec fn placements_sorted(pls: Seq<Placement>) -> bool {
    forall|m: int| 0 <= m < pls.len() - 1 ==> placement_lt(#[trigger] pls[m], pls[m + 1])
}

fn tp_lt_exec(a: &TetraPos, b: &TetraPos) -> (r: bool)
    ensures
        r == tp_lt(*a, *b),
{
    a.tetra < b.tetra || (a.tetra == b.tetra && a.pos.row < b.pos.row) || (a.tetra == b.tetra
        && a.pos.row == b.pos.row && a.pos.col < b.pos.col)
}

#[verifier::loop_isolation(false)]
fn tp_seq_lt_exec(a: &Vec<TetraPos>, b: &Vec<TetraPos>) -> (r: bool)
    ensures
        r == tp_seq_lt(a@, b@),
{
    proof {
        assert(a@.skip(0) =~= a@);
        assert(b@.skip(0) =~= b@);
    }
    let mut i: usize = 0;
    while i < a.len() && i < b.len()
        invariant
            i <= a@.len(),
            i <= b@.len(),
            tp_seq_lt(a@, b@) == tp_seq_lt(a@.skip(i as int), b@.skip(i as int)),
        decreases a@.len() - i,
    {
        let ghost ai = a@.skip(i as int);
        let ghost bi = b@.skip(i as int);
        proof {
            assert(ai[0] == a@[i as int]);
            assert(bi[0] == b@[i as int]);
            assert(ai.drop_first() =~= a@.skip(i + 1));
            assert(bi.drop_first() =~= b@.skip(i + 1));
        }
        if tp_lt_exec(&a[i], &b[i]) {
            return true;
        }
        if !(a[i] == b[i]) {
            proof {
                assert(!tp_seq_lt(ai, bi));
            }
            return false;
        }
        i = i + 1;
    }
    proof {
        assert(a@.skip(i as int).len() == a@.len() - i);
        assert(b@.skip(i as int).len() == b@.len() - i);
    }
    i < b.len()
}

fn tp_seq_eq_exec(a: &Vec<TetraPos>, b: &Vec<TetraPos>) -> (r: bool)
    ensures
        r == (a@ == b@),
{
    if a.len() != b.len() {
        return false;
    }
    let mut i: usize = 0;
    while i < a.len()
        invariant
            i <= a@.len(),
            a@.len() == b@.len(),
            forall|j: int| 0 <= j < i ==> a@[j] == b@[j],
        decreases a@.len() - i,
    {
        if !(a[i] == b[i]) {
            return false;
        }
        i = i + 1;
    }
    proof {
        assert(a@ =~= b@);
    }
    true
}

fn placement_lt_exec(p: &Placement, q: &Placement) -> (r: bool)
    ensures
        r == placement_lt(*p, *q),
{
    if tp_seq_lt_exec(&p.tetras, &q.tetras) {
        return true;
    }
    tp_seq_eq_exec(&p.tetras, &q.tetras) && p.free < q.free
}

fn placement_eq_exec(p: &Placement, q: &Placement) -> (r: bool)
    ensures
        r == (p.tetras@ == q.tetras@ && p.free == q.free),
{
    p.free == q.free && tp_seq_eq_exec(&p.tetras, &q.tetras)
}

#[verifier::loop_isolation(false)]
fn catalog_index_of(catalog: &Vec<crate::tetra::Tetra>, t: &crate::tetra::Tetra) -> (r: usize)
    requires
        catalog@.len() == TETRAS_COUNT,
        forall|i: int| 0 <= i < TETRAS_COUNT ==> (#[trigger] catalog@[i])@ == spec_catalog()[i],
        exists|i: int| 0 <= i < TETRAS_COUNT && t@ == #[trigger] spec_catalog()[i],
    ensures
        r < TETRAS_COUNT,
        r as int == catalog_index_from(t@, 0),
{
    let mut i: usize = 0;
    while i < TETRAS_COUNT
        invariant
            i <= TETRAS_COUNT,
            forall|j: int| 0 <= j < i ==> spec_catalog()[j] != t@,
            catalog_index_from(t@, 0) == catalog_index_from(t@, i as int),
        decreases TETRAS_COUNT - i,
    {
        if catalog[i].same_shape(t) {
            return i;
        }
        i = i + 1;
    }
    proof {
        let w = choose|w: int| 0 <= w < TETRAS_COUNT && t@ == #[trigger] spec_catalog()[w];
        assert(spec_catalog()[w] != t@);
        assert(false);
    }
    0
}

/// Converts one accepted result: each placement becomes a shape id with its
/// anchor, and the pairs are sorted ascending by insertion.
#[verifier::loop_isolation(false)]
fn convert_result(catalog: &Vec<crate::tetra::Tetra>, r: &PlacementResult) -> (pl: Placement)
    requires
        catalog@.len() == TETRAS_COUNT,
        forall|i: int| 0 <= i < TETRAS_COUNT ==> (#[trigger] catalog@[i])@ == spec_catalog()[i],
        forall|j: int| 0 <= j < r.placement@.len() ==> from_catalog(#[trigger] r.placement@[j]),
    ensures
        is_conversion(*r, pl),
{
    broadcast use vstd::seq_lib::group_to_multiset_ensures;
    broadcast use vstd::seq_lib::to_multiset_insert;

    let ghost conv = r.placement@.map_values(|p: PlacedTetraInBoundaries| spec_tetra_pos(p));
    let mut tps: Vec<TetraPos> = Vec::new();
    let mut j: usize = 0;
    while j < r.placement.len()
        invariant
            j <= r.placement@.len(),
            tps@ == conv.subrange(0, j as int),
        decreases r.placement@.len() - j,
    {
        let placed = r.placement[j].as_placed();
        let id = catalog_index_of(catalog, &placed.tetra);
        tps.push(TetraPos { tetra: id, pos: placed.position });
        proof {
            assert(tps@ =~= conv.subrange(0, j + 1));
        }
        j = j + 1;
    }
    proof {
        assert(tps@ =~= conv);
    }

    let mut sorted: Vec<TetraPos> = Vec::new();
    let mut j2: usize = 0;
    while j2 < tps.len()
        invariant
            j2 <= tps@.len(),
            sorted@.to_multiset() == tps@.subrange(0, j2 as int).to_multiset(),
            sorted_le(sorted@),
        decreases tps@.len() - j2,
    {
        let x = tps[j2];
        let ghost pre_sorted = sorted@;
        let mut m: usize = 0;
        while m < sorted.len() && !tp_lt_exec(&x, &sorted[m])
            invariant
                m <= sorted@.len(),
                sorted@ == pre_sorted,
                forall|j3: int| 0 <= j3 < m ==> !tp_lt(x, #[trigger] sorted@[j3]),
            decreases sorted@.len() - m,
        {
            m = m + 1;
        }
        sorted.insert(m, x);
        proof {
            assert(sorted@ == pre_sorted.insert(m as int, x));
            assert(tps@.subrange(0, j2 + 1).drop_last() =~= tps@.subrange(0, j2 as int));
            assert(tps@.subrange(0, j2 + 1) =~= tps@.subrange(0, j2 as int).push(x));
            assert forall|i1: int, i2: int| 0 <= i1 < i2 < sorted@.len() implies tp_le(
                #[trigger] sorted@[i1],
                #[trigger] sorted@[i2],
            ) by {
                if i1 < m && i2 == m {
                    assert(sorted@[i1] == pre_sorted[i1]);
                    assert(!tp_lt(x, pre_sorted[i1]));
                    if !(pre_sorted[i1] == x) {
                        assert(tp_lt(pre_sorted[i1], x) || tp_lt(x, pre_sorted[i1]) || pre_sorted[
                        i1] == x);
                    }
                } else if i1 == m {
                    assert(sorted@[i2] == pre_sorted[i2 - 1]);
                    if m < pre_sorted.len() {
                        assert(tp_lt(x, pre_sorted[m as int]));
                        if i2 - 1 > m {
                            assert(tp_le(pre_sorted[m as int], pre_sorted[i2 - 1]));
                        }
                    }
                } else if i1 < m && i2 > m {
                    assert(sorted@[i1] == pre_sorted[i1]);
                    assert(sorted@[i2] == pre_sorted[i2 - 1]);
                    assert(tp_le(pre_sorted[i1], pre_sorted[i2 - 1]));
                } else if i1 > m {
                    assert(sorted@[i1] == pre_sorted[i1 - 1]);
                    assert(sorted@[i2] == pre_sorted[i2 - 1]);
                    assert(tp_le(pre_sorted[i1 - 1], pre_sorted[i2 - 1]));
                } else {
                    assert(sorted@[i1] == pre_sorted[i1]);
                    assert(sorted@[i2] == pre_sorted[i2]);
                }
            }
        }
        j2 = j2 + 1;
    }
    proof {
        assert(tps@.subrange(0, tps@.len() as int) =~= tps@);
    }
    Placement { tetras: sorted, free: r.free }
}

impl Output {
    /// Builds the structured form: the full catalog table, and the accepted
    /// results converted, sorted ascending and deduplicated.
    #[verifier::loop_isolation(false)]
    pub fn new(results: &Vec<PlacementResult>) -> (out: Output)
        requires
            forall|k: int, j: int|
                0 <= k < results@.len() && 0 <= j < results@[k].placement@.len() ==> from_catalog(
                    #[trigger] results@[k].placement@[j],
                ),
        ensures
            out.tetras@.len() == TETRAS_COUNT,
            forall|i: int|
                0 <= i < TETRAS_COUNT ==> (#[trigger] out.tetras@[i]).positions@ == spec_catalog()[
                i].offsets,
            conversions_sound(results@, out.placements@),
            conversions_complete(results@, out.placements@),
            placements_sorted(out.placements@),
    {
        let catalog = static_tetras_iter();
        let mut tetras: Vec<Tetra> = Vec::new();
        let mut i: usize = 0;
        while i < catalog.len()
            invariant
                catalog@.len() == TETRAS_COUNT,
                forall|t: int|
                    0 <= t < TETRAS_COUNT ==> (#[trigger] catalog@[t])@ == spec_catalog()[t],
                i <= TETRAS_COUNT,
                tetras@.len() == i,
                forall|t: int|
                    0 <= t < i ==> (#[trigger] tetras@[t]).positions@ == spec_catalog()[t].offsets,
            decreases catalog@.len() - i,
        {
            let offs = catalog[i].iter();
            let mut positions: Vec<Pos> = Vec::new();
            positions.push(offs[0]);
            positions.push(offs[1]);
            positions.push(offs[2]);
            positions.push(offs[3]);
            proof {
                assert(positions@ =~= catalog@[i as int]@.offsets);
            }
            tetras.push(Tetra { positions });
            i = i + 1;
        }

        let mut placements: Vec<Placement> = Vec::new();
        let mut k: usize = 0;
        while k < results.len()
            invariant
                catalog@.len() == TETRAS_COUNT,
                forall|t: int|
                    0 <= t < TETRAS_COUNT ==> (#[trigger] catalog@[t])@ == spec_catalog()[t],
                k <= results@.len(),
                conversions_sound(results@, placements@),
                conversions_complete(results@.subrange(0, k as int), placements@),
                placements_sorted(placements@),
            decreases results@.len() - k,
        {
            let pl = convert_result(&catalog, &results[k]);
            let ghost pre_pl = placements@;
            let ghost pre_sub = results@.subrange(0, k as int);
            let ghost new_sub = results@.subrange(0, k + 1);
            let mut m: usize = 0;
            let mut duplicate = false;
            while m < placements.len() && !duplicate && placement_lt_exec(&placements[m], &pl)
                invariant
                    m <= placements@.len(),
                    placements@ == pre_pl,
                    !duplicate ==> forall|m2: int|
                        0 <= m2 < m ==> placement_lt(#[trigger] placements@[m2], pl),
                    duplicate ==> m < placements@.len() && placements@[m as int].tetras@
                        == pl.tetras@ && placements@[m as int].free == pl.free,
                decreases placements@.len() - m + (if duplicate {
                    0int
                } else {
                    1int
                }),
            {
                if placement_eq_exec(&placements[m], &pl) {
                    duplicate = true;
                } else {
                    m = m + 1;
                }
            }
            let mut skip_insert = duplicate;
            if !duplicate && m < placements.len() {
                if placement_eq_exec(&placements[m], &pl) {
                    skip_insert = true;
                }
            }
            if skip_insert {
                proof {
                    assert(is_conversion(results@[k as int], placements@[m as int]));
                    assert(conversions_complete(new_sub, placements@)) by {
                        assert forall|k2: int| 0 <= k2 < new_sub.len() implies exists|m2: int|
                            0 <= m2 < placements@.len() && is_conversion(
                                #[trigger] new_sub[k2],
                                placements@[m2],
                            ) by {
                            if k2 < k {
                                assert(pre_sub[k2] == new_sub[k2]);
                                assert(exists|m2: int|
                                    0 <= m2 < placements@.len() && is_conversion(
                                        #[trigger] pre_sub[k2],
                                        placements@[m2],
                                    ));
                            } else {
                                assert(new_sub[k2] == results@[k as int]);
                                assert(is_conversion(new_sub[k2], placements@[m as int]));
                            }
                        }
                    }
                }
            } else {
                proof {
                    if m < pre_pl.len() {
                        assert(!placement_lt(pre_pl[m as int], pl));
                        assert(!(pre_pl[m as int].tetras@ == pl.tetras@ && pre_pl[m as int].free
                            == pl.free));
                        lemma_tp_seq_trichotomy(pre_pl[m as int].tetras@, pl.tetras@);
                        assert(placement_lt(pl, pre_pl[m as int]));
                    }
                }
                placements.insert(m, pl);
                proof {
                    assert(placements@ == pre_pl.insert(m as int, pl));
                    assert(placements@[m as int] == pl);
                    assert(placements_sorted(placements@)) by {
                        assert forall|m2: int|
                            0 <= m2 < placements@.len() - 1 implies placement_lt(
                            #[trigger] placements@[m2],
                            placements@[m2 + 1],
                        ) by {
                            if m2 < m - 1 || m2 > m {
                                let a = if m2 < m {
                                    m2
                                } else {
                                    m2 - 1
                                };
                                assert(placements@[m2] == pre_pl[a]);
                                assert(placements@[m2 + 1] == pre_pl[a + 1]);
                                assert(placement_lt(pre_pl[a], pre_pl[a + 1]));
                            } else if m2 == m - 1 {
                                assert(placements@[m2] == pre_pl[m2]);
                                assert(placement_lt(pre_pl[m2], pl));
                            } else {
                                assert(m2 == m);
                                assert(placements@[m2 + 1] == pre_pl[m as int]);
                            }
                        }
                    }
                    assert(conversions_sound(results@, placements@)) by {
                        assert forall|m2: int| 0 <= m2 < placements@.len() implies exists|k2: int|
                            0 <= k2 < results@.len() && is_conversion(
                                results@[k2],
                                #[trigger] placements@[m2],
                            ) by {
                            if m2 == m {
                                assert(is_conversion(results@[k as int], placements@[m2]));
                            } else {
                                let a = if m2 < m {
                                    m2
                                } else {
                                    m2 - 1
                                };
                                assert(placements@[m2] == pre_pl[a]);
                                let k2 = choose|k2: int|
                                    0 <= k2 < results@.len() && is_conversion(
                                        results@[k2],
                                        #[trigger] pre_pl[a],
                                    );
                                assert(is_conversion(results@[k2], placements@[m2]));
                            }
                        }
                    }
                    assert(conversions_complete(new_sub, placements@)) by {
                        assert forall|k2: int| 0 <= k2 < new_sub.len() implies exists|m2: int|
                            0 <= m2 < placements@.len() && is_conversion(
                                #[trigger] new_sub[k2],
                                placements@[m2],
                            ) by {
                            if k2 < k {
                                assert(pre_sub[k2] == new_sub[k2]);
                                let m2 = choose|m2: int|
                                    0 <= m2 < pre_pl.len() && is_conversion(
                                        #[trigger] pre_sub[k2],
                                        pre_pl[m2],
                                    );
                                let m3 = if m2 < m {
                                    m2
                                } else {
                                    m2 + 1
                                };
                                assert(placements@[m3] == pre_pl[m2]);
                                assert(is_conversion(new_sub[k2], placements@[m3]));
                            } else {
                                assert(new_sub[k2] == results@[k as int]);
                                assert(is_conversion(new_sub[k2], placements@[m as int]));
                            }
                        }
                    }
                }
            }
            k = k + 1;
        }
        proof {
            assert(results@.subrange(0, results@.len() as int) =~= results@);
        }
        let ghost final_pl = placements@;
        let out = Output { tetras, placements };
        proof {
            assert(out.placements@ == final_pl);
            assert(conversions_sound(results@, out.placements@));
            assert(conversions_complete(results@, out.placements@));
            assert(placements_sorted(out.placements@));
        }
        out
    }
}

} // verus!
