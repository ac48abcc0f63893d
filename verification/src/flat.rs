//! Facts about flat descriptions: how the sizes of the layers grow along
//! the list, what a list in which every cell stands in its place looks
//! like, and what a rearrangement of the list keeps.
use vstd::prelude::*;
use crate::circuit_builder::Cell;
use crate::declarative_builder::{
    cell_at, consecutive, distinct_in_layer, gapless_in_layer, holds, is_at, layer_size,
};

verus! {

/// The cell at `j` carries as its index the number of cells of its layer
/// that stand before it in the list.
pub open spec fn in_place(cells: Seq<Cell>, j: int) -> bool {
    cells[j].index == layer_size(cells.take(j), cells[j].layer_id as int)
}

/// `a` does not come after `b` in the order by layer id and, within a
/// layer, by index.
pub open spec fn key_le(a: Cell, b: Cell) -> bool {
    a.layer_id < b.layer_id || (a.layer_id == b.layer_id && a.index <= b.index)
}

/// The list is ordered by layer id and, within a layer, by index.
pub open spec fn ordered(cells: Seq<Cell>) -> bool {
    forall|i: int, j: int| 0 <= i <= j < cells.len() ==> key_le(cells[i], cells[j])
}

/// One more cell adds one to the size of its layer and nothing to the others.
pub proof fn lemma_layer_size_step(cells: Seq<Cell>, p: int, layer: int)
    requires
        0 <= p < cells.len(),
    ensures
        layer_size(cells.take(p + 1), layer) == layer_size(cells.take(p), layer) + if cells[p].layer_id
            == layer {
            1nat
        } else {
            0nat
        },
{
    assert(cells.take(p + 1).drop_last() == cells.take(p));
}

/// The sizes of the layers grow along the list.
pub proof fn lemma_layer_size_monotone(cells: Seq<Cell>, a: int, b: int, layer: int)
    requires
        0 <= a <= b <= cells.len(),
    ensures
        layer_size(cells.take(a), layer) <= layer_size(cells.take(b), layer),
        layer_size(cells.take(b), layer) <= layer_size(cells, layer),
    decreases cells.len() - a,
{
    assert(cells.take(cells.len() as int) == cells);
    if a < b {
        lemma_layer_size_step(cells, a, layer);
        lemma_layer_size_monotone(cells, a + 1, b, layer);
    } else if b < cells.len() {
        lemma_layer_size_step(cells, b, layer);
        lemma_layer_size_monotone(cells, b + 1, b + 1, layer);
    }
}

/// A layer has at most as many cells as the list.
pub proof fn lemma_layer_size_bound(cells: Seq<Cell>, layer: int)
    ensures
        layer_size(cells, layer) <= cells.len(),
    decreases cells.len(),
{
    if cells.len() > 0 {
        lemma_layer_size_bound(cells.drop_last(), layer);
    }
}

/// A layer in which no cell of the list lies has size 0.
pub proof fn lemma_layer_size_zero(cells: Seq<Cell>, layer: int)
    requires
        forall|j: int| 0 <= j < cells.len() ==> (#[trigger] cells[j]).layer_id != layer,
    ensures
        layer_size(cells, layer) == 0,
    decreases cells.len(),
{
    if cells.len() > 0 {
        let rest = cells.drop_last();
        assert(cells[cells.len() - 1].layer_id != layer);
        assert forall|j: int| 0 <= j < rest.len() implies (#[trigger] rest[j]).layer_id != layer by {
            assert(cells[j].layer_id != layer);
        }
        lemma_layer_size_zero(rest, layer);
    }
}

/// Among the first `n` cells, the layer has a cell before which exactly `i`
/// cells of the layer stand, for each `i` below the size that it has there.
pub proof fn lemma_nth_of_layer(cells: Seq<Cell>, n: int, layer: int, i: int)
    requires
        0 <= n <= cells.len(),
        0 <= i < layer_size(cells.take(n), layer),
    ensures
        exists|j: int|
            0 <= j < n && (#[trigger] cells[j]).layer_id == layer && layer_size(cells.take(j), layer)
                == i,
    decreases n,
{
    if n > 0 {
        lemma_layer_size_step(cells, n - 1, layer);
        if i < layer_size(cells.take(n - 1), layer) {
            lemma_nth_of_layer(cells, n - 1, layer, i);
        } else {
            assert(cells[n - 1].layer_id == layer);
        }
    }
}

/// A layer whose cells all stand in their places among the first `n` cells
/// of the list has consecutive indices, and its indices are those below its
/// size.
pub proof fn lemma_in_place_consecutive(cells: Seq<Cell>, n: int, layer: int)
    requires
        0 <= n <= cells.len(),
        forall|j: int| 0 <= j < n ==> in_place(cells, j),
        forall|j: int| n <= j < cells.len() ==> (#[trigger] cells[j]).layer_id != layer,
    ensures
        consecutive(cells, layer),
        forall|i: int| holds(cells, layer, i) <==> 0 <= i < layer_size(cells, layer),
        forall|j: int|
            0 <= j < cells.len() && (#[trigger] cells[j]).layer_id == layer ==> cells[j].index
                < layer_size(cells, layer),
{
    assert forall|j: int|
        0 <= j < cells.len() && (#[trigger] cells[j]).layer_id == layer implies cells[j].index
        < layer_size(cells, layer) by {
        assert(in_place(cells, j));
        lemma_layer_size_step(cells, j, layer);
        lemma_layer_size_monotone(cells, j + 1, j + 1, layer);
    }
    assert forall|j: int, k: int|
        0 <= j < k < cells.len() && (#[trigger] cells[j]).layer_id == layer && (
        #[trigger] cells[k]).layer_id == layer implies cells[j].index != cells[k].index by {
        assert(in_place(cells, j));
        assert(in_place(cells, k));
        lemma_layer_size_step(cells, j, layer);
        lemma_layer_size_monotone(cells, j + 1, k, layer);
    }
    assert forall|i: int| 0 <= i < layer_size(cells, layer) implies holds(cells, layer, i) by {
        assert(cells.take(cells.len() as int) == cells);
        lemma_nth_of_layer(cells, cells.len() as int, layer, i);
        let j = choose|j: int|
            0 <= j < cells.len() && (#[trigger] cells[j]).layer_id == layer && layer_size(
                cells.take(j),
                layer,
            ) == i;
        assert(in_place(cells, j));
        assert(is_at(cells, j, layer, i));
    }
    assert forall|i: int| holds(cells, layer, i) implies 0 <= i < layer_size(cells, layer) by {
        let j = choose|j: int| is_at(cells, j, layer, i);
        assert(cells[j].index < layer_size(cells, layer));
    }
    assert forall|j: int, i: int|
        0 <= j < cells.len() && (#[trigger] cells[j]).layer_id == layer && 0 <= i
            < cells[j].index implies #[trigger] holds(cells, layer, i) by {
        assert(cells[j].index < layer_size(cells, layer));
    }
}

/// In an ordered list, the layer of the first cell that does not stand in
/// its place has no consecutive indices.
pub proof fn lemma_out_of_place(cells: Seq<Cell>, p: int)
    requires
        ordered(cells),
        0 <= p < cells.len(),
        forall|j: int| 0 <= j < p ==> in_place(cells, j),
        !in_place(cells, p),
    ensures
        !consecutive(cells, cells[p].layer_id as int),
{
    let layer = cells[p].layer_id as int;
    let seen = layer_size(cells.take(p), layer);
    if cells[p].index < seen {
        lemma_nth_of_layer(cells, p, layer, cells[p].index as int);
        let j = choose|j: int|
            0 <= j < p && (#[trigger] cells[j]).layer_id == layer && layer_size(cells.take(j), layer)
                == cells[p].index;
        assert(in_place(cells, j));
        assert(cells[j].index == cells[p].index);
        assert(!distinct_in_layer(cells, layer));
    } else {
        if holds(cells, layer, seen as int) {
            let j = choose|j: int| is_at(cells, j, layer, seen as int);
            if j < p {
                assert(in_place(cells, j));
                lemma_layer_size_step(cells, j, layer);
                lemma_layer_size_monotone(cells, j + 1, p, layer);
            } else if j > p {
                assert(key_le(cells[p], cells[j]));
            }
        }
        assert(!holds(cells, layer, seen as int));
        assert(!gapless_in_layer(cells, layer));
    }
}

/// The size of a layer in a list from which one cell was taken out.
pub proof fn lemma_layer_size_remove(cells: Seq<Cell>, p: int, layer: int)
    requires
        0 <= p < cells.len(),
    ensures
        layer_size(cells, layer) == layer_size(cells.remove(p), layer) + if cells[p].layer_id == layer {
            1nat
        } else {
            0nat
        },
    decreases cells.len(),
{
    if p == cells.len() - 1 {
        assert(cells.remove(p) == cells.drop_last());
    } else {
        lemma_layer_size_remove(cells.drop_last(), p, layer);
        assert(cells.remove(p).drop_last() == cells.drop_last().remove(p));
        assert(cells.remove(p).last() == cells.last());
    }
}

/// A rearrangement of the list keeps the size of every layer.
pub proof fn lemma_layer_size_permutation(s: Seq<Cell>, t: Seq<Cell>, layer: int)
    requires
        s.to_multiset() == t.to_multiset(),
    ensures
        layer_size(s, layer) == layer_size(t, layer),
    decreases s.len(),
{
    broadcast use vstd::seq_lib::group_to_multiset_ensures;

    if s.len() == 0 {
        assert(s.to_multiset().len() == s.len());
        assert(t.to_multiset().len() == t.len());
    } else {
        let x = s.last();
        let front = s.drop_last();
        assert(s == front.push(x));
        assert(s.to_multiset().count(x) > 0);
        assert(t.contains(x));
        let p = choose|p: int| 0 <= p < t.len() && t[p] == x;
        assert(t.remove(p).to_multiset() =~= front.to_multiset());
        lemma_layer_size_permutation(front, t.remove(p), layer);
        lemma_layer_size_remove(t, p, layer);
    }
}

/// A rearrangement of the list holds the same cells.
pub proof fn lemma_contains_permutation(s: Seq<Cell>, t: Seq<Cell>, j: int)
    requires
        s.to_multiset() == t.to_multiset(),
        0 <= j < s.len(),
    ensures
        exists|k: int| 0 <= k < t.len() && t[k] == s[j],
{
    broadcast use vstd::seq_lib::group_to_multiset_ensures;

    assert(s.contains(s[j]));
    assert(s.to_multiset().count(s[j]) > 0);
    assert(t.contains(s[j]));
}

/// A cell that stands twice in the list stands twice in a rearrangement of it.
pub proof fn lemma_twice_permutation(s: Seq<Cell>, t: Seq<Cell>, j: int, k: int)
    requires
        s.to_multiset() == t.to_multiset(),
        0 <= j < k < s.len(),
        s[j] == s[k],
    ensures
        exists|a: int, b: int| 0 <= a < b < t.len() && t[a] == s[j] && t[b] == s[j],
{
    broadcast use vstd::seq_lib::group_to_multiset_ensures;

    let x = s[j];
    let s1 = s.remove(k);
    assert(s1[j] == x);
    assert(s1.contains(x));
    assert(s1.to_multiset().count(x) > 0);
    assert(s.to_multiset().count(x) >= 2);
    assert(t.contains(x));
    let a = choose|a: int| 0 <= a < t.len() && t[a] == x;
    let t1 = t.remove(a);
    assert(t1.to_multiset().count(x) >= 1);
    assert(t1.contains(x));
    let b = choose|b: int| 0 <= b < t1.len() && t1[b] == x;
    if b < a {
        assert(t[b] == x);
    } else {
        assert(t[b + 1] == x);
    }
}

/// A rearrangement of the list has the same indices in every layer.
pub proof fn lemma_holds_permutation(s: Seq<Cell>, t: Seq<Cell>, layer: int, index: int)
    requires
        s.to_multiset() == t.to_multiset(),
        holds(s, layer, index),
    ensures
        holds(t, layer, index),
{
    let j = choose|j: int| is_at(s, j, layer, index);
    lemma_contains_permutation(s, t, j);
    let k = choose|k: int| 0 <= k < t.len() && t[k] == s[j];
    assert(is_at(t, k, layer, index));
}

/// A rearrangement of the list keeps the indices of a layer consecutive.
pub proof fn lemma_consecutive_permutation(s: Seq<Cell>, t: Seq<Cell>, layer: int)
    requires
        s.to_multiset() == t.to_multiset(),
        consecutive(s, layer),
    ensures
        consecutive(t, layer),
{
    assert forall|j: int, k: int|
        0 <= j < k < t.len() && (#[trigger] t[j]).layer_id == layer && (#[trigger] t[k]).layer_id
            == layer implies t[j].index != t[k].index by {
        if t[j].index == t[k].index {
            if t[j] == t[k] {
                lemma_twice_permutation(t, s, j, k);
                let (a, b) = choose|a: int, b: int|
                    0 <= a < b < s.len() && s[a] == t[j] && s[b] == t[j];
                assert(s[a].index == s[b].index);
            } else {
                lemma_contains_permutation(t, s, j);
                lemma_contains_permutation(t, s, k);
                let a = choose|a: int| 0 <= a < s.len() && s[a] == t[j];
                let b = choose|b: int| 0 <= b < s.len() && s[b] == t[k];
                if a < b {
                    assert(s[a].index != s[b].index);
                } else {
                    assert(s[b].index != s[a].index);
                }
            }
        }
    }
    assert forall|j: int, i: int|
        0 <= j < t.len() && (#[trigger] t[j]).layer_id == layer && 0 <= i
            < t[j].index implies #[trigger] holds(t, layer, i) by {
        lemma_contains_permutation(t, s, j);
        let a = choose|a: int| 0 <= a < s.len() && s[a] == t[j];
        assert(holds(s, layer, i));
        lemma_holds_permutation(s, t, layer, i);
    }
}

/// In a layer without repeated indices, a cell found with some layer and
/// index in a rearrangement of the list is the cell with that layer and index.
pub proof fn lemma_cell_at_permutation(s: Seq<Cell>, t: Seq<Cell>, j: int, layer: int, index: int)
    requires
        s.to_multiset() == t.to_multiset(),
        distinct_in_layer(t, layer),
        is_at(s, j, layer, index),
    ensures
        cell_at(t, layer, index) == s[j],
{
    lemma_contains_permutation(s, t, j);
    let k = choose|k: int| 0 <= k < t.len() && t[k] == s[j];
    assert(is_at(t, k, layer, index));
    let c = choose|c: int| is_at(t, c, layer, index);
    if c < k {
        assert(t[c].index != t[k].index);
    } else if k < c {
        assert(t[k].index != t[c].index);
    }
}

} // verus!
