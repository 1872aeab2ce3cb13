//! The multi-version store: for every key, an ordered list of cells, one per
//! transaction that was predicted to write the key.

use std::collections::HashMap;
use vstd::prelude::*;

verus! {

broadcast use vstd::std_specs::hash::group_hash_axioms;

/// Index of a transaction in its block; it is also its place in the serial order.
pub type Version = usize;

/// The identifier of a piece of state.
pub type Key = u64;

/// The state of the cell that one version owns for one key.
pub enum WriteCell<V> {
    /// Reserved when the store was primed; the owner has not finished yet.
    Unset,
    /// The owner finished without writing the key.
    Skipped,
    /// The value the owner wrote.
    Value(V),
}

/// The cells of one key, in strictly increasing version order.
pub open spec fn sorted_cells<V>(s: Seq<(Version, WriteCell<V>)>) -> bool {
    forall|i: int, j: int| 0 <= i < j < s.len() ==> s[i].0 < s[j].0
}

/// Whether some cell of `s` belongs to version `w`.
pub open spec fn has_version<V>(s: Seq<(Version, WriteCell<V>)>, w: Version) -> bool {
    exists|i: int| 0 <= i < s.len() && s[i].0 == w
}

/// What a reader at version `reader` sees among the cells `s` of one key: the
/// cell of the greatest version below `reader` that is not `Skipped`. A value
/// there is `Ok`; an unfinished owner `w` is `Err(Some(w))`; no such cell at
/// all is `Err(None)`.
pub open spec fn read_cells<V>(s: Seq<(Version, WriteCell<V>)>, reader: Version) -> Result<
    V,
    Option<Version>,
>
    decreases s.len(),
{
    if s.len() == 0 {
        Err(None)
    } else if s.last().0 >= reader {
        read_cells(s.drop_last(), reader)
    } else {
        match s.last().1 {
            WriteCell::Value(x) => Ok(x),
            WriteCell::Unset => Err(Some(s.last().0)),
            WriteCell::Skipped => read_cells(s.drop_last(), reader),
        }
    }
}

/// `s` with the cell of version `w` replaced by `c`.
pub open spec fn set_cell<V>(s: Seq<(Version, WriteCell<V>)>, w: Version, c: WriteCell<V>) -> Seq<
    (Version, WriteCell<V>),
> {
    s.map_values(|p: (Version, WriteCell<V>)| if p.0 == w { (w, c) } else { p })
}

/// `s` with the cell of version `w` turned to `Skipped` if it is still `Unset`.
pub open spec fn skip_cell<V>(s: Seq<(Version, WriteCell<V>)>, w: Version) -> Seq<
    (Version, WriteCell<V>),
> {
    s.map_values(
        |p: (Version, WriteCell<V>)|
            if p.0 == w && p.1 is Unset {
                (w, WriteCell::<V>::Skipped)
            } else {
                p
            },
    )
}

/// How the cells of a store may change while version `w` finishes: the same
/// keys and versions, the cells of other versions untouched, and no closed
/// cell reopened.
pub open spec fn evolves<V>(
    a: Map<Key, Seq<(Version, WriteCell<V>)>>,
    b: Map<Key, Seq<(Version, WriteCell<V>)>>,
    w: Version,
) -> bool {
    &&& a.dom() == b.dom()
    &&& forall|k: Key| #[trigger] a.contains_key(k) ==> a[k].len() == b[k].len()
    &&& forall|k: Key, i: int|
        #![trigger b[k][i]]
        a.contains_key(k) && 0 <= i < a[k].len() ==> {
            &&& b[k][i].0 == a[k][i].0
            &&& (a[k][i].0 != w ==> b[k][i] == a[k][i])
            &&& (!(a[k][i].1 is Unset) ==> !(b[k][i].1 is Unset))
        }
}

/// Every cell of version `w` is closed: written or skipped.
pub open spec fn closed_at<V>(m: Map<Key, Seq<(Version, WriteCell<V>)>>, w: Version) -> bool {
    forall|k: Key, i: int|
        #![trigger m[k][i]]
        m.contains_key(k) && 0 <= i < m[k].len() && m[k][i].0 == w ==> !(m[k][i].1 is Unset)
}

/// Every cell below version `w` is closed.
pub open spec fn closed_below<V>(m: Map<Key, Seq<(Version, WriteCell<V>)>>, w: Version) -> bool {
    forall|k: Key, i: int|
        #![trigger m[k][i]]
        m.contains_key(k) && 0 <= i < m[k].len() && m[k][i].0 < w ==> !(m[k][i].1 is Unset)
}

/// The cells after version `w` wrote `writes` in order.
pub open spec fn apply_writes<V>(
    m: Map<Key, Seq<(Version, WriteCell<V>)>>,
    w: Version,
    writes: Seq<(Key, V)>,
) -> Map<Key, Seq<(Version, WriteCell<V>)>>
    decreases writes.len(),
{
    if writes.len() == 0 {
        m
    } else {
        let prev = apply_writes(m, w, writes.drop_last());
        prev.insert(writes.last().0, set_cell(prev[writes.last().0], w, WriteCell::Value(writes.last().1)))
    }
}

/// The cells after version `w` closed each of its cells that is still `Unset`.
pub open spec fn close_version<V>(m: Map<Key, Seq<(Version, WriteCell<V>)>>, w: Version) -> Map<
    Key,
    Seq<(Version, WriteCell<V>)>,
> {
    m.map_values(|s: Seq<(Version, WriteCell<V>)>| skip_cell(s, w))
}

/// `evolves` is transitive.
pub proof fn lemma_evolves_trans<V>(
    a: Map<Key, Seq<(Version, WriteCell<V>)>>,
    b: Map<Key, Seq<(Version, WriteCell<V>)>>,
    c: Map<Key, Seq<(Version, WriteCell<V>)>>,
    w: Version,
)
    requires
        evolves(a, b, w),
        evolves(b, c, w),
    ensures
        evolves(a, c, w),
{
    assert forall|k: Key, i: int|
        #![trigger c[k][i]]
        a.contains_key(k) && 0 <= i < a[k].len() implies {
            &&& c[k][i].0 == a[k][i].0
            &&& (a[k][i].0 != w ==> c[k][i] == a[k][i])
            &&& (!(a[k][i].1 is Unset) ==> !(c[k][i].1 is Unset))
        } by {
        assert(b[k][i].0 == a[k][i].0);
        assert(c[k][i].0 == b[k][i].0);
    }
}

/// If no cell below `reader` is open, a read at `reader` never waits: it sees
/// the value of the latest earlier writer of the key, or no writer at all.
pub proof fn lemma_closed_reads_resolve<V>(s: Seq<(Version, WriteCell<V>)>, reader: Version)
    requires
        forall|i: int| 0 <= i < s.len() && (#[trigger] s[i]).0 < reader ==> !(s[i].1 is Unset),
    ensures
        !(read_cells(s, reader) matches Err(Some(_))),
    decreases s.len(),
{
    if s.len() > 0 {
        assert(s.last() == s[s.len() - 1]);
        lemma_closed_reads_resolve(s.drop_last(), reader);
    }
}

/// Under `evolves` the store keeps exactly its cells.
pub proof fn lemma_evolves_keeps_cells<V>(
    a: Map<Key, Seq<(Version, WriteCell<V>)>>,
    b: Map<Key, Seq<(Version, WriteCell<V>)>>,
    w: Version,
    k: Key,
    v: Version,
)
    requires
        evolves(a, b, w),
    ensures
        (a.contains_key(k) && has_version(a[k], v)) <==> (b.contains_key(k) && has_version(b[k], v)),
{
    if a.contains_key(k) && has_version(a[k], v) {
        let i = choose|i: int| 0 <= i < a[k].len() && a[k][i].0 == v;
        assert(b[k][i].0 == v);
    }
    if b.contains_key(k) && has_version(b[k], v) {
        let i = choose|i: int| 0 <= i < b[k].len() && b[k][i].0 == v;
        assert(b[k][i].0 == a[k][i].0);
    }
}

/// Once version `w` has closed its cells, every cell below `w + 1` is closed.
pub proof fn lemma_closed_advance<V>(
    a: Map<Key, Seq<(Version, WriteCell<V>)>>,
    b: Map<Key, Seq<(Version, WriteCell<V>)>>,
    w: Version,
)
    requires
        closed_below(a, w),
        evolves(a, b, w),
        closed_at(b, w),
        w < usize::MAX,
    ensures
        closed_below(b, (w + 1) as Version),
{
    assert forall|k: Key, i: int|
        #![trigger b[k][i]]
        b.contains_key(k) && 0 <= i < b[k].len() && b[k][i].0 < w + 1 implies !(
        b[k][i].1 is Unset) by {
        assert(a.contains_key(k));
        assert(b[k][i].0 == a[k][i].0);
        if b[k][i].0 < w {
            assert(!(a[k][i].1 is Unset));
        }
    }
}

/// Once every cell below `reader` is closed, no read at `reader` waits: each
/// sees the value of the latest earlier writer of its key, or no writer.
pub proof fn lemma_store_reads_resolve<V>(store: MVHashMap<V>, reader: Version)
    requires
        closed_below(store.cells(), reader),
    ensures
        forall|k: Key| !(#[trigger] store.read_spec(k, reader) matches Err(Some(_))),
{
    assert forall|k: Key| !(#[trigger] store.read_spec(k, reader) matches Err(Some(_))) by {
        if store.cells().contains_key(k) {
            lemma_closed_reads_resolve(store.cells()[k], reader);
        }
    }
}

/// The value that the writes `w` of one transaction leave in `k`, if any.
pub open spec fn last_write<V>(w: Seq<(Key, V)>, k: Key) -> Option<V>
    decreases w.len(),
{
    if w.len() == 0 {
        None
    } else if w.last().0 == k {
        Some(w.last().1)
    } else {
        last_write(w.drop_last(), k)
    }
}

/// The value of `k` after the transactions below `v` ran one after the other,
/// transaction `u` writing `ws[u]`; `None` when none of them wrote `k`.
pub open spec fn sequential_value<V>(ws: Seq<Seq<(Key, V)>>, k: Key, v: nat) -> Option<V>
    decreases v,
{
    if v == 0 {
        None
    } else {
        match last_write(ws[v - 1], k) {
            Some(x) => Some(x),
            None => sequential_value(ws, k, (v - 1) as nat),
        }
    }
}

/// The cell that version `u` leaves for `k` once it has finished.
pub open spec fn finished_cell<V>(ws: Seq<Seq<(Key, V)>>, k: Key, u: Version) -> WriteCell<V> {
    match last_write(ws[u as int], k) {
        Some(x) => WriteCell::Value(x),
        None => WriteCell::Skipped,
    }
}

/// The cells `s` of `k` hold what the versions below `v` left: each such cell
/// is the finished cell of its version, and every version below `v` that
/// wrote `k` has one.
pub open spec fn finished_below<V>(
    s: Seq<(Version, WriteCell<V>)>,
    ws: Seq<Seq<(Key, V)>>,
    k: Key,
    v: Version,
) -> bool {
    &&& forall|i: int|
        0 <= i < s.len() && (#[trigger] s[i]).0 < v ==> s[i].1 == finished_cell(ws, k, s[i].0)
    &&& forall|u: Version| u < v && (#[trigger] last_write(ws[u as int], k)) is Some ==> has_version(s, u)
}

/// With no write of `k` by the versions in `[a, v)`, the value of `k` after
/// `v` versions is its value after `a`.
pub proof fn lemma_no_writes_between<V>(ws: Seq<Seq<(Key, V)>>, k: Key, a: nat, v: nat)
    requires
        a <= v <= usize::MAX,
        forall|u: Version| a <= u < v ==> (#[trigger] last_write(ws[u as int], k)) is None,
    ensures
        sequential_value(ws, k, v) == sequential_value(ws, k, a),
    decreases v,
{
    if v > a {
        assert(last_write(ws[(v - 1) as Version as int], k) is None);
        lemma_no_writes_between(ws, k, a, (v - 1) as nat);
    }
}

proof fn lemma_read_above_all<V>(s: Seq<(Version, WriteCell<V>)>, a: Version, b: Version)
    requires
        forall|i: int| 0 <= i < s.len() ==> (#[trigger] s[i]).0 < a && s[i].0 < b,
    ensures
        read_cells(s, a) == read_cells(s, b),
    decreases s.len(),
{
    if s.len() > 0 {
        assert(s.last() == s[s.len() - 1]);
        lemma_read_above_all(s.drop_last(), a, b);
    }
}

/// Equivalence with a serial run: when the cells of `k` hold what the
/// versions below `v` left, a read at `v` sees exactly the value that running
/// those versions one after the other leaves in `k`.
pub proof fn lemma_reads_match_serial_run<V>(
    s: Seq<(Version, WriteCell<V>)>,
    ws: Seq<Seq<(Key, V)>>,
    k: Key,
    v: Version,
)
    requires
        sorted_cells(s),
        finished_below(s, ws, k, v),
    ensures
        read_cells(s, v) == match sequential_value(ws, k, v as nat) {
            Some(x) => Ok::<V, Option<Version>>(x),
            None => Err::<V, Option<Version>>(None),
        },
    decreases s.len(),
{
    if s.len() == 0 {
        lemma_no_writes_between(ws, k, 0, v as nat);
        assert forall|u: Version| 0 <= u < v implies (#[trigger] last_write(ws[u as int], k)) is None by {
            if last_write(ws[u as int], k) is Some {
                assert(has_version(s, u));
            }
        }
        lemma_no_writes_between(ws, k, 0, v as nat);
    } else {
        let t = s.drop_last();
        let w = s.last().0;
        assert(s.last() == s[s.len() - 1]);
        assert forall|i: int| 0 <= i < t.len() implies (#[trigger] t[i]).0 < w by {
            assert(s[i].0 < s[s.len() - 1].0);
        }
        if w >= v {
            assert forall|u: Version| u < v && (#[trigger] last_write(ws[u as int], k)) is Some
                implies has_version(t, u) by {
                let j = choose|j: int| 0 <= j < s.len() && s[j].0 == u;
                assert(t[j].0 == u);
            }
            assert forall|i: int| 0 <= i < t.len() && (#[trigger] t[i]).0 < v implies t[i].1
                == finished_cell(ws, k, t[i].0) by {
                assert(s[i] == t[i]);
            }
            lemma_reads_match_serial_run(t, ws, k, v);
        } else {
            assert forall|u: Version| w < u < v implies (#[trigger] last_write(ws[u as int], k)) is None by {
                if last_write(ws[u as int], k) is Some {
                    assert(has_version(s, u));
                    let j = choose|j: int| 0 <= j < s.len() && s[j].0 == u;
                    if j < s.len() - 1 {
                        assert(s[j].0 < s[s.len() - 1].0);
                    }
                }
            }
            lemma_no_writes_between(ws, k, (w + 1) as nat, v as nat);
            assert(s[s.len() - 1].1 == finished_cell(ws, k, w));
            if last_write(ws[w as int], k) is None {
                assert forall|u: Version| u < w && (#[trigger] last_write(ws[u as int], k)) is Some
                    implies has_version(t, u) by {
                    let j = choose|j: int| 0 <= j < s.len() && s[j].0 == u;
                    assert(t[j].0 == u);
                }
                assert forall|i: int| 0 <= i < t.len() && (#[trigger] t[i]).0 < w implies t[i].1
                    == finished_cell(ws, k, t[i].0) by {
                    assert(s[i] == t[i]);
                }
                lemma_reads_match_serial_run(t, ws, k, w);
                lemma_read_above_all(t, v, w);
            }
        }
    }
}

/// A key that some write of `w` leaves a value in is written by one of them.
pub proof fn lemma_last_write_written<V>(w: Seq<(Key, V)>, k: Key)
    requires
        last_write(w, k) is Some,
    ensures
        exists|j: int| 0 <= j < w.len() && (#[trigger] w[j]).0 == k,
    decreases w.len(),
{
    if w.last().0 == k {
        assert(w[w.len() - 1].0 == k);
    } else {
        lemma_last_write_written(w.drop_last(), k);
        let j = choose|j: int| 0 <= j < w.len() - 1 && (#[trigger] w.drop_last()[j]).0 == k;
        assert(w[j].0 == k);
    }
}

/// What the writes `w` of version `v` leave in the cells of each key.
pub proof fn lemma_apply_writes_key<V>(
    m: Map<Key, Seq<(Version, WriteCell<V>)>>,
    v: Version,
    w: Seq<(Key, V)>,
    k: Key,
)
    requires
        forall|j: int| 0 <= j < w.len() ==> m.contains_key(#[trigger] w[j].0),
        m.contains_key(k),
    ensures
        apply_writes(m, v, w).dom() == m.dom(),
        apply_writes(m, v, w)[k] == match last_write(w, k) {
            Some(x) => set_cell(m[k], v, WriteCell::Value(x)),
            None => m[k],
        },
    decreases w.len(),
{
    if w.len() > 0 {
        let t = w.drop_last();
        assert forall|j: int| 0 <= j < t.len() implies m.contains_key(#[trigger] t[j].0) by {
            assert(t[j] == w[j]);
        }
        lemma_apply_writes_key(m, v, t, k);
        lemma_apply_writes_key(m, v, t, w.last().0);
        assert(w.last() == w[w.len() - 1]);
        let prev = apply_writes(m, v, t);
        assert(apply_writes(m, v, w).dom() =~= m.dom());
        if w.last().0 == k {
            let s = prev[k];
            match last_write(t, k) {
                Some(y) => {
                    assert(set_cell(set_cell(m[k], v, WriteCell::Value(y)), v, WriteCell::Value(w.last().1))
                        =~= set_cell(m[k], v, WriteCell::Value(w.last().1)));
                },
                None => {},
            }
        }
    }
}

/// What running the versions below `i` leaves in each key does not depend on
/// the versions at or after `i`.
pub proof fn lemma_sequential_prefix<V>(ws: Seq<Seq<(Key, V)>>, x: Seq<(Key, V)>, k: Key, i: nat)
    requires
        i <= ws.len(),
    ensures
        sequential_value(ws.push(x), k, i) == sequential_value(ws, k, i),
    decreases i,
{
    if i > 0 {
        assert(ws.push(x)[i - 1] == ws[i - 1]);
        lemma_sequential_prefix(ws, x, k, (i - 1) as nat);
    }
}

/// Once version `v` has written `wv` and closed its cells, the cells of `k`
/// hold what the versions up to `v` left.
pub proof fn lemma_finish_key<V>(
    s: Seq<(Version, WriteCell<V>)>,
    ws: Seq<Seq<(Key, V)>>,
    wv: Seq<(Key, V)>,
    k: Key,
    v: Version,
)
    requires
        v < usize::MAX,
        ws.len() == v,
        finished_below(s, ws, k, v),
        forall|i: int| 0 <= i < s.len() && (#[trigger] s[i]).0 >= v ==> s[i].1 is Unset,
        last_write(wv, k) is Some ==> has_version(s, v),
    ensures
        finished_below(
            skip_cell(
                match last_write(wv, k) {
                    Some(x) => set_cell(s, v, WriteCell::Value(x)),
                    None => s,
                },
                v,
            ),
            ws.push(wv),
            k,
            (v + 1) as Version,
        ),
{
    let c = match last_write(wv, k) {
        Some(x) => set_cell(s, v, WriteCell::Value(x)),
        None => s,
    };
    let t = skip_cell(c, v);
    let ws2 = ws.push(wv);
    assert(t.len() == s.len());
    assert forall|i: int| 0 <= i < t.len() && (#[trigger] t[i]).0 < v + 1 implies t[i].1
        == finished_cell(ws2, k, t[i].0) by {
        assert(t[i].0 == s[i].0);
        if s[i].0 < v {
            assert(ws2[s[i].0 as int] == ws[s[i].0 as int]);
        } else {
            assert(ws2[v as int] == wv);
        }
    }
    assert forall|u: Version| u < v + 1 && (#[trigger] last_write(ws2[u as int], k)) is Some
        implies has_version(t, u) by {
        let j = if u < v {
            assert(ws2[u as int] == ws[u as int]);
            choose|j: int| 0 <= j < s.len() && s[j].0 == u
        } else {
            assert(ws2[u as int] == wv);
            choose|j: int| 0 <= j < s.len() && s[j].0 == u
        };
        assert(t[j].0 == u);
    }
}

proof fn lemma_sorted_at_least_index<V>(s: Seq<(Version, WriteCell<V>)>, i: int)
    requires
        sorted_cells(s),
        0 <= i < s.len(),
    ensures
        s[i].0 >= i,
    decreases i,
{
    if i > 0 {
        lemma_sorted_at_least_index(s, i - 1);
    }
}

/// The sorted cells of one key, all of versions below `n`, number at most `n`.
pub proof fn lemma_cells_at_most<V>(s: Seq<(Version, WriteCell<V>)>, n: nat)
    requires
        sorted_cells(s),
        forall|i: int| 0 <= i < s.len() ==> (#[trigger] s[i]).0 < n,
    ensures
        s.len() <= n,
{
    if s.len() > 0 {
        lemma_sorted_at_least_index(s, s.len() - 1);
    }
}

proof fn lemma_covering_identity<V>(s: Seq<(Version, WriteCell<V>)>, n: nat, i: int)
    requires
        sorted_cells(s),
        forall|x: int| 0 <= x < s.len() ==> (#[trigger] s[x]).0 < n,
        forall|w: Version| w < n ==> #[trigger] has_version(s, w),
        0 <= i < s.len(),
    ensures
        s[i].0 == i,
    decreases i,
{
    if i > 0 {
        lemma_covering_identity(s, n, i - 1);
    }
    lemma_sorted_at_least_index(s, i);
    assert(has_version(s, i as Version));
    let j = choose|j: int| 0 <= j < s.len() && s[j].0 == i as Version;
    if j < i {
        if j < i - 1 {
            assert(s[j].0 < s[i - 1].0);
        }
    } else if j > i {
        assert(s[i].0 < s[j].0);
    }
}

/// Sorted cells of one key, all of versions below `n`, that hold a cell of
/// every version below `n` number exactly `n`.
pub proof fn lemma_covering_cells<V>(s: Seq<(Version, WriteCell<V>)>, n: nat)
    requires
        n <= usize::MAX,
        sorted_cells(s),
        forall|i: int| 0 <= i < s.len() ==> (#[trigger] s[i]).0 < n,
        forall|w: Version| w < n ==> #[trigger] has_version(s, w),
    ensures
        s.len() == n,
{
    lemma_cells_at_most(s, n);
    if s.len() < n {
        assert(has_version(s, s.len() as Version));
        let j = choose|j: int| 0 <= j < s.len() && s[j].0 == s.len() as Version;
        lemma_covering_identity(s, n, j);
    }
}

/// The write of a key that the store holds no cell for at the writer's version.
pub struct UnexpectedWrite;

/// A multi-version map from keys to values.
pub struct MVHashMap<V> {
    data: HashMap<Key, Vec<(Version, WriteCell<V>)>>,
}

/// Whether every cell of `s` is still `Unset`.
pub open spec fn all_unset<V>(s: Seq<(Version, WriteCell<V>)>) -> bool {
    forall|i: int| 0 <= i < s.len() ==> (#[trigger] s[i]).1 is Unset
}

/// Adds an `Unset` cell for version `w` to the sorted cells of one key, unless
/// one is there already.
#[verifier::spinoff_prover]
fn insert_version<V>(cells: &mut Vec<(Version, WriteCell<V>)>, w: Version)
    requires
        sorted_cells(old(cells)@),
        all_unset(old(cells)@),
    ensures
        sorted_cells(final(cells)@),
        all_unset(final(cells)@),
        final(cells)@.len() >= old(cells)@.len(),
        final(cells)@.len() > 0,
        forall|x: Version|
            has_version(final(cells)@, x) <==> (has_version(old(cells)@, x) || x == w),
{
    let mut p: usize = 0;
    while p < cells.len() && cells[p].0 < w
        invariant
            p <= cells.len(),
            forall|j: int| 0 <= j < p ==> cells@[j].0 < w,
        decreases cells.len() - p,
    {
        p += 1;
    }
    if p < cells.len() && cells[p].0 == w {
        assert(has_version(cells@, w));
        return;
    }
    let ghost prev = cells@;
    cells.insert(p, (w, WriteCell::Unset));
    proof {
        assert forall|i: int, j: int| 0 <= i < j < cells@.len() implies cells@[i].0
            < cells@[j].0 by {
            if j < p {
            } else if j == p {
            } else if i < p {
                assert(prev[j - 1].0 >= prev[p as int].0);
            } else if i == p {
                assert(prev[j - 1].0 >= prev[p as int].0);
            }
        }
        assert(cells@ == prev.insert(p as int, (w, WriteCell::<V>::Unset)));
        lemma_insert_versions(prev, p as int, w);
    }
}

proof fn lemma_insert_versions<V>(prev: Seq<(Version, WriteCell<V>)>, p: int, w: Version)
    requires
        0 <= p <= prev.len(),
    ensures
        forall|x: Version|
            has_version(prev.insert(p, (w, WriteCell::<V>::Unset)), x) <==> (has_version(prev, x)
                || x == w),
{
    let s = prev.insert(p, (w, WriteCell::<V>::Unset));
    assert forall|x: Version| has_version(s, x) <==> (has_version(prev, x) || x == w) by {
        if has_version(s, x) {
            let i = choose|i: int| 0 <= i < s.len() && s[i].0 == x;
            if i < p {
                assert(prev[i].0 == x);
            } else if i > p {
                assert(prev[i - 1].0 == x);
            }
        }
        if has_version(prev, x) {
            let i = choose|i: int| 0 <= i < prev.len() && prev[i].0 == x;
            if i < p {
                assert(s[i].0 == x);
            } else {
                assert(s[i + 1].0 == x);
            }
        }
        if x == w {
            assert(s[p].0 == x);
        }
    }
}

/// The position of the cell of version `w` among the sorted cells of one key.
fn find_version<V>(cells: &Vec<(Version, WriteCell<V>)>, w: Version) -> (r: Option<usize>)
    ensures
        match r {
            Some(i) => i < cells.len() && cells@[i as int].0 == w,
            None => !has_version(cells@, w),
        },
{
    let mut i: usize = 0;
    while i < cells.len()
        invariant
            i <= cells.len(),
            forall|j: int| 0 <= j < i ==> cells@[j].0 != w,
        decreases cells.len() - i,
    {
        if cells[i].0 == w {
            return Some(i);
        }
        i += 1;
    }
    None
}

impl<V> MVHashMap<V> {
    /// The cells of each key that has any.
    pub closed spec fn cells(&self) -> Map<Key, Seq<(Version, WriteCell<V>)>> {
        self.data@.map_values(|v: Vec<(Version, WriteCell<V>)>| v@)
    }

    /// Every key's cells are in strictly increasing version order.
    pub open spec fn wf(&self) -> bool {
        forall|k: Key| #[trigger] self.cells().contains_key(k) ==> sorted_cells(self.cells()[k])
    }

    /// Whether the store holds a cell for `k` at version `w`.
    pub open spec fn has_cell(&self, k: Key, w: Version) -> bool {
        self.cells().contains_key(k) && has_version(self.cells()[k], w)
    }

    /// What a read of `k` at version `reader` sees.
    pub open spec fn read_spec(&self, k: Key, reader: Version) -> Result<V, Option<Version>> {
        if self.cells().contains_key(k) {
            read_cells(self.cells()[k], reader)
        } else {
            Err(None)
        }
    }

    /// Builds the store for a block: one `Unset` cell for each predicted
    /// (key, version) pair. Also returns the dependency level: the largest
    /// number of versions predicted to write one key, 0 when none is.
    pub fn new_from(possible_writes: Vec<(Key, Version)>) -> (r: (MVHashMap<V>, usize))
        ensures
            r.0.wf(),
            forall|k: Key, w: Version|
                #![trigger r.0.has_cell(k, w)]
                r.0.has_cell(k, w) <==> exists|i: int|
                    0 <= i < possible_writes.len() && possible_writes@[i] == (k, w),
            forall|k: Key| #[trigger]
                r.0.cells().contains_key(k) ==> all_unset(r.0.cells()[k]),
            forall|k: Key| #[trigger]
                r.0.cells().contains_key(k) ==> r.0.cells()[k].len() <= r.1,
            possible_writes.len() == 0 ==> r.1 == 0,
            possible_writes.len() > 0 ==> exists|k: Key|
                #[trigger] r.0.cells().contains_key(k) && r.0.cells()[k].len() == r.1,
    {
        let mut store = MVHashMap { data: HashMap::new() };
        let mut level: usize = 0;
        let mut n: usize = 0;
        proof {
            assert(store.cells() =~= Map::empty());
        }
        while n < possible_writes.len()
            invariant
                n <= possible_writes.len(),
                store.wf(),
                forall|k: Key, w: Version|
                    #![trigger store.has_cell(k, w)]
                    store.has_cell(k, w) <==> exists|i: int|
                        0 <= i < n && possible_writes@[i] == (k, w),
                forall|k: Key| #[trigger]
                    store.cells().contains_key(k) ==> all_unset(store.cells()[k]),
                forall|k: Key| #[trigger]
                    store.cells().contains_key(k) ==> store.cells()[k].len() <= level,
                n == 0 ==> level == 0,
                n > 0 ==> exists|k: Key|
                    #[trigger] store.cells().contains_key(k) && store.cells()[k].len() == level,
            decreases possible_writes.len() - n,
        {
            let (k, w) = possible_writes[n];
            let ghost before = store.cells();
            let ghost old_store = store;
            let ghost old_level = level;
            let mut cells = match store.data.remove(&k) {
                Some(c) => c,
                None => Vec::new(),
            };
            proof {
                if before.contains_key(k) {
                    assert(cells@ == before[k]);
                } else {
                    assert(cells@ =~= Seq::<(Version, WriteCell<V>)>::empty());
                }
            }
            let ghost prev = cells@;
            insert_version(&mut cells, w);
            if cells.len() > level {
                level = cells.len();
            }
            store.data.insert(k, cells);
            proof {
                assert(store.cells() =~= before.insert(k, cells@));
                assert forall|k2: Key, w2: Version| #![trigger store.has_cell(k2, w2)]
                    store.has_cell(k2, w2) <==> exists|i: int|
                        0 <= i < n + 1 && possible_writes@[i] == (k2, w2) by {
                    let old_has = before.contains_key(k2) && has_version(before[k2], w2);
                    assert(old_has == old_store.has_cell(k2, w2));
                    assert(old_has <==> exists|i: int|
                        0 <= i < n && possible_writes@[i] == (k2, w2));
                    if k2 == k {
                        assert(before.contains_key(k) ==> prev == before[k]);
                        assert(store.has_cell(k2, w2) <==> (old_has || w2 == w));
                    } else {
                        assert(store.has_cell(k2, w2) <==> old_has);
                    }
                    if store.has_cell(k2, w2) {
                        if old_has {
                            let i = choose|i: int| 0 <= i < n && possible_writes@[i] == (k2, w2);
                            assert(0 <= i < n + 1 && possible_writes@[i] == (k2, w2));
                        } else {
                            assert(possible_writes@[n as int] == (k2, w2));
                        }
                    }
                    if exists|i: int| 0 <= i < n + 1 && possible_writes@[i] == (k2, w2) {
                        let i = choose|i: int| 0 <= i < n + 1 && possible_writes@[i] == (k2, w2);
                        if i < n {
                            assert(old_has);
                        }
                    }
                }
                if n > 0 && level == old_level {
                    let k0 = choose|k0: Key| #[trigger] before.contains_key(k0)
                        && before[k0].len() == old_level;
                    if k0 == k {
                        assert(store.cells().contains_key(k) && store.cells()[k].len() == level);
                    } else {
                        assert(store.cells().contains_key(k0) && store.cells()[k0].len() == level);
                    }
                } else {
                    assert(store.cells().contains_key(k) && store.cells()[k].len() == level);
                }
            }
            n += 1;
        }
        proof {
            if n > 0 {
                let k0 = choose|k0: Key| #[trigger] store.cells().contains_key(k0)
                    && store.cells()[k0].len() == level;
                assert(store.cells().contains_key(k0) && store.cells()[k0].len() == level);
            }
        }
        (store, level)
    }

    /// Records that version `version` wrote `value` to `key`. Fails, and
    /// changes nothing, when no cell was reserved for that pair.
    pub fn write(&mut self, key: &Key, version: Version, value: V) -> (r: Result<
        (),
        UnexpectedWrite,
    >)
        requires
            old(self).wf(),
        ensures
            final(self).wf(),
            r is Ok <==> old(self).has_cell(*key, version),
            r is Ok ==> final(self).cells() == old(self).cells().insert(
                *key,
                set_cell(old(self).cells()[*key], version, WriteCell::Value(value)),
            ),
            r is Err ==> final(self).cells() == old(self).cells(),
            evolves(old(self).cells(), final(self).cells(), version),
    {
        let ghost before = self.cells();
        match self.data.remove(key) {
            None => {
                assert(self.cells() =~= before);
                Err(UnexpectedWrite)
            },
            Some(mut cells) => {
                assert(cells@ == before[*key]);
                match find_version(&cells, version) {
                    None => {
                        self.data.insert(*key, cells);
                        assert(self.cells() =~= before);
                        Err(UnexpectedWrite)
                    },
                    Some(i) => {
                        let ghost prev = cells@;
                        assert(before.contains_key(*key));
                        assert(sorted_cells(prev));
                        cells[i] = (version, WriteCell::Value(value));
                        proof {
                            assert forall|j: int| 0 <= j < prev.len() && prev[j].0 == version
                                implies j == i by {
                                if j < i {
                                    assert(prev[j].0 < prev[i as int].0);
                                } else if j > i {
                                    assert(prev[i as int].0 < prev[j].0);
                                }
                            }
                            assert(cells@ =~= set_cell(prev, version, WriteCell::Value(value)));
                            assert(sorted_cells(cells@));
                        }
                        self.data.insert(*key, cells);
                        assert(self.cells() =~= before.insert(*key, cells@));
                        Ok(())
                    },
                }
            },
        }
    }

    /// Commits the writes of `version` in order. Stops at the first key that
    /// has no cell of `version`, and then returns false.
    pub fn write_all(&mut self, version: Version, writes: Vec<(Key, V)>) -> (r: bool)
        requires
            old(self).wf(),
        ensures
            final(self).wf(),
            evolves(old(self).cells(), final(self).cells(), version),
            r == forall|i: int|
                0 <= i < writes.len() ==> old(self).has_cell(#[trigger] writes@[i].0, version),
            r ==> final(self).cells() == apply_writes(old(self).cells(), version, writes@),
            !r ==> exists|j: int|
                0 <= j < writes.len() && !old(self).has_cell(writes@[j].0, version) && (forall|
                    i: int,
                | 0 <= i < j ==> old(self).has_cell(#[trigger] writes@[i].0, version))
                    && final(self).cells() == apply_writes(
                    old(self).cells(),
                    version,
                    writes@.take(j),
                ),
    {
        let ghost start = self.cells();
        let ghost all = writes@;
        assert(all.len() == writes.len());
        let mut rest = writes;
        let mut i: usize = 0;
        proof {
            assert(all.take(0) =~= Seq::<(Key, V)>::empty());
            assert(all.skip(0) =~= all);
        }
        while rest.len() > 0
            invariant
                start == old(self).cells(),
                all == writes@,
                all.len() <= usize::MAX,
                i + rest@.len() == all.len(),
                rest@ == all.skip(i as int),
                self.wf(),
                evolves(start, self.cells(), version),
                self.cells() == apply_writes(start, version, all.take(i as int)),
                forall|j: int| 0 <= j < i ==> old(self).has_cell(#[trigger] all[j].0, version),
            decreases rest.len(),
        {
            let ghost before = self.cells();
            let (k, val) = rest.remove(0);
            assert((k, val) == all[i as int]);
            proof {
                lemma_evolves_keeps_cells(start, before, version, k, version);
            }
            match self.write(&k, version, val) {
                Ok(()) => {
                    proof {
                        lemma_evolves_trans(start, before, self.cells(), version);
                        assert(all.take(i + 1).drop_last() =~= all.take(i as int));
                        assert(all.take(i + 1).last() == all[i as int]);
                        assert(rest@ =~= all.skip(i + 1));
                    }
                    i += 1;
                },
                Err(_) => {
                    proof {
                        assert(!old(self).has_cell(all[i as int].0, version));
                        assert(0 <= i < writes.len() && !old(self).has_cell(writes@[i as int].0, version));
                    }
                    return false;
                },
            }
        }
        proof {
            assert(all.take(i as int) =~= all);
        }
        true
    }

    /// Closes the cell of `version` for `key` if its owner did not write it, so
    /// that later readers look past it.
    pub fn skip_if_unset(&mut self, key: &Key, version: Version)
        requires
            old(self).wf(),
            old(self).has_cell(*key, version),
        ensures
            final(self).wf(),
            final(self).cells() == old(self).cells().insert(
                *key,
                skip_cell(old(self).cells()[*key], version),
            ),
            evolves(old(self).cells(), final(self).cells(), version),
            forall|i: int|
                0 <= i < final(self).cells()[*key].len() && final(self).cells()[*key][i].0 == version
                    ==> !(final(self).cells()[*key][i].1 is Unset),
    {
        let ghost before = self.cells();
        let mut cells = match self.data.remove(key) {
            Some(c) => c,
            None => Vec::new(),
        };
        assert(cells@ == before[*key]);
        let ghost prev = cells@;
        match find_version(&cells, version) {
            None => {},
            Some(i) => {
                if let WriteCell::Unset = cells[i].1 {
                    cells[i] = (version, WriteCell::Skipped);
                }
            },
        }
        proof {
            assert(cells@ =~= skip_cell(prev, version));
        }
        self.data.insert(*key, cells);
        assert(self.cells() =~= before.insert(*key, cells@));
    }

    /// Reads `key` as version `version` sees it: the value of the nearest
    /// earlier writer, the version of an earlier owner that has not finished,
    /// or no writer at all.
    pub fn read(&self, key: &Key, version: Version) -> (r: Result<&V, Option<Version>>)
        ensures
            match r {
                Ok(x) => self.read_spec(*key, version) == Ok::<V, Option<Version>>(*x),
                Err(e) => self.read_spec(*key, version) == Err::<V, Option<Version>>(e),
            },
    {
        match self.data.get(key) {
            None => Err(None),
            Some(cells) => {
                let mut i: usize = cells.len();
                proof {
                    assert(cells@.take(i as int) =~= cells@);
                }
                while i > 0
                    invariant
                        i <= cells.len(),
                        self.cells().contains_key(*key),
                        self.cells()[*key] == cells@,
                        read_cells(cells@, version) == read_cells(cells@.take(i as int), version),
                    decreases i,
                {
                    proof {
                        assert(cells@.take(i as int).drop_last() =~= cells@.take(i - 1));
                        assert(cells@.take(i as int).last() == cells@[i - 1]);
                    }
                    let c = &cells[i - 1];
                    if c.0 < version {
                        match &c.1 {
                            WriteCell::Value(x) => {
                                return Ok(x);
                            },
                            WriteCell::Unset => {
                                return Err(Some(c.0));
                            },
                            WriteCell::Skipped => {},
                        }
                    }
                    i -= 1;
                }
                Err(None)
            },
        }
    }
}

} // verus!
