//! The pairs of nodes that a step examines: every two members of a cell, the
//! earlier member first, and each pair only the first time it is met.
//!
//! The pairs already met are recorded in one set of keys for each earlier
//! node, which holds the later nodes met with it.

use vstd::prelude::*;

verus! {

/// The set of 64-bit keys in which a step records the later nodes that it has
/// examined together with one earlier node.
#[verifier::external_type_specification]
#[verifier::external_body]
pub struct ExSetU64(tinyset::SetU64);

/// The keys that a `tinyset::SetU64` holds.
pub uninterp spec fn set_contents(s: &tinyset::SetU64) -> Set<u64>;

/// `tinyset::SetU64::new` returns a set that holds no key.
pub assume_specification[ tinyset::SetU64::new ]() -> (s: tinyset::SetU64)
    ensures
        set_contents(&s) == Set::<u64>::empty(),
;

/// `tinyset::SetU64::insert` adds the key to the set and returns whether the
/// key was absent before. The set turns keys, and sizes that it derives from
/// them, into `usize`: where `usize` has 32 bits this is claimed only of keys
/// that fit 32 bits, which no such cast changes.
pub assume_specification[ tinyset::SetU64::insert ](s: &mut tinyset::SetU64, e: u64) -> (fresh:
    bool)
    requires
        usize::BITS == 64 || e <= u32::MAX,
    ensures
        set_contents(final(s)) == set_contents(old(s)).insert(e),
        fresh == !set_contents(old(s)).contains(e),
;

/// `tinyset::SetU64::contains` returns whether the set holds the key. Where
/// `usize` has 32 bits this is claimed only of keys that fit 32 bits, as for
/// `insert`.
pub assume_specification[ tinyset::SetU64::contains ](s: &tinyset::SetU64, e: u64) -> (found:
    bool)
    requires
        usize::BITS == 64 || e <= u32::MAX,
    ensures
        found == set_contents(s).contains(e),
;

/// The pairs that start at position `i` of a member list: `m[i]` with each
/// later member, in list order.
pub open spec fn row_pairs(m: Seq<int>, i: int) -> Seq<(int, int)> {
    Seq::new((m.len() - 1 - i) as nat, |j: int| (m[i], m[i + 1 + j]))
}

/// The rows of pairs of a member list, one for each position.
pub open spec fn rows(m: Seq<int>) -> Seq<Seq<(int, int)>> {
    Seq::new(m.len(), |i: int| row_pairs(m, i))
}

/// All pairs of two members of one cell, the earlier member first, in the order
/// in which a walk over the list meets them.
pub open spec fn cell_pairs(m: Seq<int>) -> Seq<(int, int)> {
    rows(m).flatten()
}

/// The pairs met in the first `c` cells.
pub open spec fn visits_upto(cells: Seq<Seq<int>>, c: int) -> Seq<(int, int)> {
    cells.take(c).map_values(|m: Seq<int>| cell_pairs(m)).flatten()
}

/// The pairs met in a walk over all cells, cell by cell.
pub open spec fn visits(cells: Seq<Seq<int>>) -> Seq<(int, int)> {
    visits_upto(cells, cells.len() as int)
}

/// A sequence without its repetitions: each value stays where it first occurs.
pub open spec fn distinct(s: Seq<(int, int)>) -> Seq<(int, int)>
    decreases s.len(),
{
    if s.len() == 0 {
        s
    } else {
        let earlier = distinct(s.drop_last());
        if earlier.contains(s.last()) {
            earlier
        } else {
            earlier.push(s.last())
        }
    }
}

/// Of a sequence of visits, those that are examined: with more than one cell,
/// each pair once; with a single cell, all of them, as none can be met twice.
pub open spec fn examined_of(vis: Seq<(int, int)>, many_cells: bool) -> Seq<(int, int)> {
    if many_cells {
        distinct(vis)
    } else {
        vis
    }
}

/// The pairs that a step examines, in order.
pub open spec fn examined(cells: Seq<Seq<int>>) -> Seq<(int, int)> {
    examined_of(visits(cells), cells.len() > 1)
}

/// The keys that each set of a sequence of sets holds.
pub open spec fn sets_view(sets: Seq<tinyset::SetU64>) -> Seq<Set<u64>> {
    Seq::new(sets.len(), |a: int| set_contents(&sets[a]))
}

/// `distinct` keeps exactly the values of the sequence, each once.
pub proof fn lemma_distinct(s: Seq<(int, int)>)
    ensures
        distinct(s).no_duplicates(),
        forall|p: (int, int)|
            #![trigger distinct(s).contains(p)]
            #![trigger s.contains(p)]
            distinct(s).contains(p) <==> s.contains(p),
    decreases s.len(),
{
    if s.len() > 0 {
        let front = s.drop_last();
        let last = s.last();
        lemma_distinct(front);
        let e = distinct(front);
        let d = distinct(s);
        assert forall|p: (int, int)| d.contains(p) <==> s.contains(p) by {
            if d.contains(p) {
                let k = choose|k: int| 0 <= k < d.len() && d[k] == p;
                if k < e.len() {
                    assert(e[k] == p);
                    assert(e.contains(p));
                    assert(front.contains(p));
                    let q = choose|q: int| 0 <= q < front.len() && front[q] == p;
                    assert(s[q] == p);
                } else {
                    assert(p == last);
                    assert(s[s.len() - 1] == p);
                }
            }
            if s.contains(p) {
                let q = choose|q: int| 0 <= q < s.len() && s[q] == p;
                if q < front.len() {
                    assert(front[q] == p);
                    assert(front.contains(p));
                    assert(e.contains(p));
                    let k = choose|k: int| 0 <= k < e.len() && e[k] == p;
                    assert(d[k] == p);
                } else {
                    assert(p == last);
                    if e.contains(last) {
                    } else {
                        assert(d[d.len() - 1] == p);
                    }
                }
            }
        }
    } else {
        assert forall|p: (int, int)| distinct(s).contains(p) <==> s.contains(p) by {}
    }
}

/// What `distinct` makes of one more visit.
pub proof fn lemma_distinct_push(s: Seq<(int, int)>, p: (int, int))
    ensures
        s.contains(p) ==> distinct(s.push(p)) == distinct(s),
        !s.contains(p) ==> distinct(s.push(p)) == distinct(s).push(p),
{
    lemma_distinct(s);
    assert(s.push(p).drop_last() =~= s);
    assert(s.push(p).last() == p);
}

/// The pairs of the first `i + 1` rows are those of the first `i` rows and then row `i`.
pub proof fn lemma_rows_step(m: Seq<int>, i: int)
    requires
        0 <= i < m.len(),
    ensures
        rows(m).take(i + 1).flatten() == rows(m).take(i).flatten() + row_pairs(m, i),
{
    let r = rows(m);
    assert(r.take(i + 1) =~= r.take(i).push(r[i]));
    r.take(i).lemma_flatten_push(r[i]);
}

/// The visits of the first `c + 1` cells are those of the first `c` cells and
/// then the pairs of cell `c`.
pub proof fn lemma_visits_step(cells: Seq<Seq<int>>, c: int)
    requires
        0 <= c < cells.len(),
    ensures
        visits_upto(cells, c + 1) == visits_upto(cells, c) + cell_pairs(cells[c]),
{
    let f = |m: Seq<int>| cell_pairs(m);
    let lists = cells.take(c).map_values(f);
    assert(cells.take(c + 1).map_values(f) =~= lists.push(cell_pairs(cells[c])));
    lists.lemma_flatten_push(cell_pairs(cells[c]));
}

/// A member list in which every member is less than the members after it.
pub open spec fn ascending(m: Seq<int>) -> bool {
    forall|i: int, j: int| 0 <= i < j < m.len() ==> m[i] < m[j]
}

/// A value occurs in a flattened sequence exactly if it occurs in one of the
/// sequences that were flattened.
pub proof fn lemma_flatten_contains<A>(lists: Seq<Seq<A>>, x: A)
    ensures
        lists.flatten().contains(x) <==> exists|k: int|
            0 <= k < lists.len() && (#[trigger] lists[k]).contains(x),
    decreases lists.len(),
{
    if lists.len() > 0 {
        let front = lists.drop_last();
        let last = lists.last();
        assert(lists =~= front.push(last));
        front.lemma_flatten_push(last);
        lemma_flatten_contains(front, x);
        let flat = lists.flatten();
        let head = front.flatten();
        assert(flat =~= head + last);
        if flat.contains(x) {
            let q = choose|q: int| 0 <= q < flat.len() && flat[q] == x;
            if q < head.len() {
                assert(head[q] == x);
                assert(head.contains(x));
                let k = choose|k: int| 0 <= k < front.len() && (#[trigger] front[k]).contains(x);
                assert(lists[k] == front[k]);
            } else {
                assert(last[q - head.len()] == x);
                assert(lists[lists.len() - 1].contains(x));
            }
        }
        if exists|k: int| 0 <= k < lists.len() && (#[trigger] lists[k]).contains(x) {
            let k = choose|k: int| 0 <= k < lists.len() && (#[trigger] lists[k]).contains(x);
            if k < front.len() {
                assert(front[k] == lists[k]);
                assert(head.contains(x));
                let q = choose|q: int| 0 <= q < head.len() && head[q] == x;
                assert(flat[q] == x);
            } else {
                let q = choose|q: int| 0 <= q < last.len() && last[q] == x;
                assert(flat[head.len() + q] == x);
            }
        }
    } else {
        assert(lists.flatten() =~= Seq::empty());
    }
}

/// The pairs of a cell are the pairs of an earlier and a later position of its list.
pub proof fn lemma_cell_pairs(m: Seq<int>, p: (int, int))
    ensures
        cell_pairs(m).contains(p) <==> exists|i: int, j: int|
            0 <= i < j < m.len() && #[trigger] m[i] == p.0 && #[trigger] m[j] == p.1,
{
    let r = rows(m);
    lemma_flatten_contains(r, p);
    if cell_pairs(m).contains(p) {
        let i = choose|i: int| 0 <= i < r.len() && (#[trigger] r[i]).contains(p);
        let row = row_pairs(m, i);
        let q = choose|q: int| 0 <= q < row.len() && row[q] == p;
        assert(m[i] == p.0 && m[i + 1 + q] == p.1);
    }
    if exists|i: int, j: int|
        0 <= i < j < m.len() && #[trigger] m[i] == p.0 && #[trigger] m[j] == p.1 {
        let (i, j) = choose|i: int, j: int|
            0 <= i < j < m.len() && #[trigger] m[i] == p.0 && #[trigger] m[j] == p.1;
        let row = row_pairs(m, i);
        assert(row[j - i - 1] == p);
        assert(r[i].contains(p));
    }
}

/// The visits of a walk are the pairs of its cells.
pub proof fn lemma_visits(cells: Seq<Seq<int>>, p: (int, int))
    ensures
        visits(cells).contains(p) <==> exists|c: int|
            0 <= c < cells.len() && #[trigger] cell_pairs(cells[c]).contains(p),
{
    let f = |m: Seq<int>| cell_pairs(m);
    assert(cells.take(cells.len() as int) =~= cells);
    let lists = cells.map_values(f);
    lemma_flatten_contains(lists, p);
    if visits(cells).contains(p) {
        let c = choose|c: int| 0 <= c < lists.len() && (#[trigger] lists[c]).contains(p);
        assert(cell_pairs(cells[c]).contains(p));
    }
    if exists|c: int| 0 <= c < cells.len() && #[trigger] cell_pairs(cells[c]).contains(p) {
        let c = choose|c: int| 0 <= c < cells.len() && #[trigger] cell_pairs(cells[c]).contains(p);
        assert(lists[c].contains(p));
    }
}

/// The pairs of an ascending member list are met once each.
pub proof fn lemma_cell_pairs_once(m: Seq<int>)
    requires
        ascending(m),
    ensures
        cell_pairs(m).no_duplicates(),
{
    lemma_rows_once(m, m.len() as int);
    assert(rows(m).take(m.len() as int) =~= rows(m));
}

/// The pairs of the first `i` rows of an ascending member list are met once
/// each, and each starts at one of the first `i` positions.
proof fn lemma_rows_once(m: Seq<int>, i: int)
    requires
        ascending(m),
        0 <= i <= m.len(),
    ensures
        rows(m).take(i).flatten().no_duplicates(),
        forall|q: int|
            0 <= q < rows(m).take(i).flatten().len() ==> exists|k: int|
                0 <= k < i && m[k] == (#[trigger] rows(m).take(i).flatten()[q]).0,
    decreases i,
{
    let r = rows(m);
    if i > 0 {
        lemma_rows_once(m, i - 1);
        lemma_rows_step(m, i - 1);
        let head = r.take(i - 1).flatten();
        let row = row_pairs(m, i - 1);
        let flat = r.take(i).flatten();
        assert(flat =~= head + row);
        assert forall|x: int, y: int| 0 <= x < head.len() && 0 <= y < row.len() implies head[x]
            != row[y] by {
            let k = choose|k: int| 0 <= k < i - 1 && m[k] == (#[trigger] head[x]).0;
            assert(m[k] < m[i - 1]);
        }
        assert(row.no_duplicates()) by {
            assert forall|x: int, y: int|
                0 <= x < row.len() && 0 <= y < row.len() && x != y implies row[x] != row[y] by {
                if x < y {
                    assert(m[i + x] < m[i + y]);
                } else {
                    assert(m[i + y] < m[i + x]);
                }
            }
        }
        vstd::seq_lib::lemma_no_dup_in_concat(head, row);
        assert forall|q: int| 0 <= q < flat.len() implies exists|k: int|
            0 <= k < i && m[k] == (#[trigger] flat[q]).0 by {
            if q < head.len() {
                assert(flat[q] == head[q]);
                let k = choose|k: int| 0 <= k < i - 1 && m[k] == (#[trigger] head[q]).0;
                assert(0 <= k < i && m[k] == flat[q].0);
            } else {
                assert(flat[q] == row[q - head.len()]);
                assert(m[i - 1] == flat[q].0);
            }
        }
    } else {
        assert(r.take(0) =~= Seq::empty());
        assert(r.take(0).flatten() =~= Seq::empty());
    }
}

/// Every cell's member list is ascending.
pub open spec fn all_ascending(cells: Seq<Seq<int>>) -> bool {
    forall|c: int| 0 <= c < cells.len() ==> ascending(#[trigger] cells[c])
}

/// However many cells two nodes share, their pair is examined once.
pub proof fn lemma_examined_once(cells: Seq<Seq<int>>)
    requires
        all_ascending(cells),
    ensures
        examined(cells).no_duplicates(),
{
    if cells.len() > 1 {
        lemma_distinct(visits(cells));
    } else if cells.len() == 1 {
        lemma_visits_step(cells, 0);
        assert(cells.take(0).map_values(|m: Seq<int>| cell_pairs(m)) =~= Seq::empty());
        assert(visits_upto(cells, 0) =~= Seq::empty());
        assert(visits(cells) =~= cell_pairs(cells[0]));
        lemma_cell_pairs_once(cells[0]);
    } else {
        assert(cells.take(0).map_values(|m: Seq<int>| cell_pairs(m)) =~= Seq::empty());
        assert(visits(cells) =~= Seq::empty());
    }
}

/// A pair is examined exactly if its first node is less than its second and
/// some cell holds both.
pub proof fn lemma_examined_pairs(cells: Seq<Seq<int>>, p: (int, int))
    requires
        all_ascending(cells),
    ensures
        examined(cells).contains(p) <==> (p.0 < p.1 && exists|c: int|
            0 <= c < cells.len() && (#[trigger] cells[c]).contains(p.0) && cells[c].contains(
                p.1,
            )),
{
    lemma_distinct(visits(cells));
    lemma_visits(cells, p);
    if examined(cells).contains(p) {
        assert(visits(cells).contains(p));
        let c = choose|c: int| 0 <= c < cells.len() && #[trigger] cell_pairs(cells[c]).contains(p);
        let m = cells[c];
        lemma_cell_pairs(m, p);
        let (i, j) = choose|i: int, j: int|
            0 <= i < j < m.len() && #[trigger] m[i] == p.0 && #[trigger] m[j] == p.1;
        assert(m.contains(p.0) && m.contains(p.1));
        assert(ascending(m));
        assert(m[i] < m[j]);
    }
    if p.0 < p.1 && exists|c: int|
        0 <= c < cells.len() && (#[trigger] cells[c]).contains(p.0) && cells[c].contains(p.1) {
        let c = choose|c: int|
            0 <= c < cells.len() && (#[trigger] cells[c]).contains(p.0) && cells[c].contains(p.1);
        let m = cells[c];
        let i = choose|i: int| 0 <= i < m.len() && m[i] == p.0;
        let j = choose|j: int| 0 <= j < m.len() && m[j] == p.1;
        assert(ascending(m));
        if j <= i {
            if j < i {
                assert(m[j] < m[i]);
            }
            assert(false);
        }
        lemma_cell_pairs(m, p);
        assert(cell_pairs(cells[c]).contains(p));
    }
}

} // verus!
