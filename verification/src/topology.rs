//! Who a node knows of in the cluster, and whom it gossips to.

use rand::seq::SliceRandom;
use vstd::prelude::*;

use crate::numbers::lemma_same_set_same_len;

verus! {

/// The names held by a list of node ids.
pub open spec fn names(s: Seq<String>) -> Seq<Seq<char>> {
    s.map_values(|x: String| x@)
}

/// The predicate "is not the node `id`".
pub open spec fn is_other(id: Seq<char>) -> spec_fn(Seq<char>) -> bool {
    |n: Seq<char>| n != id
}

/// `lo + len` capped at `hi`.
pub open spec fn capped_end(lo: int, len: int, hi: int) -> int {
    if lo + len < hi {
        lo + len
    } else {
        hi
    }
}

/// The cluster as seen from one node.
pub struct Topology {
    pub node_id: String,
    pub all_nodes: Vec<String>,
    pub neighbors: Vec<String>,
}

impl Topology {
    /// Up to `count` nodes other than the node itself, picked at random and
    /// none of them in `exclude`.
    pub fn get_random_targets_from_all(&self, count: usize, exclude: &[String]) -> (r: Vec<String>)
        requires
            count + exclude@.len() <= usize::MAX,
        ensures
            targets_ok(names(r@), names(self.all_nodes@), count as nat, names(exclude@)),
    {
        get_random_targets_from(self.all_nodes.as_slice(), count, exclude)
    }

    /// Up to `count` neighbours, picked at random and none of them in `exclude`.
    pub fn get_random_targets_from_neighbors(&self, count: usize, exclude: &[String]) -> (r: Vec<String>)
        requires
            count + exclude@.len() <= usize::MAX,
        ensures
            targets_ok(names(r@), names(self.neighbors@), count as nat, names(exclude@)),
    {
        get_random_targets_from(self.neighbors.as_slice(), count, exclude)
    }

    /// Builds the topology of node `node_id` in a cluster of `all_nodes`
    /// laid out on a grid of rows of `chunk_size` nodes. Every other node is
    /// a neighbour.
    pub fn new(node_id: String, all_nodes: Vec<String>, chunk_size: usize) -> (r: Self)
        requires
            chunk_size > 0,
            names(all_nodes@).contains(node_id@),
        ensures
            r.node_id@ == node_id@,
            names(r.all_nodes@) == names(all_nodes@).filter(is_other(node_id@)),
            names(r.neighbors@) == names(all_nodes@).filter(is_other(node_id@)),
    {
        let all_chunks = chunk_nodes(&all_nodes, chunk_size);
        let (i, i_in_chunk) = match find_in_chunks(&all_chunks, &node_id) {
            Some(found) => found,
            None => {
                proof {
                    lemma_chunk_holds(all_nodes@, all_chunks@, chunk_size as int, node_id@);
                }
                (0, 0)
            },
        };
        let chunk = &all_chunks[i];
        proof {
            assert(names(chunk@).len() == chunk@.len());
        }
        let neighbors = if chunk.len() <= all_nodes.len() {
            others(&all_nodes, &node_id)
        } else {
            calculate_neighbors(&all_chunks, i, i_in_chunk)
        };
        let rest = others(&all_nodes, &node_id);
        Topology { node_id: node_id.clone(), all_nodes: rest, neighbors }
    }
}

/// Row `k` of the split of `all` into rows of `size` nodes is `row`.
pub open spec fn row_ok(all: Seq<String>, size: int, k: int, row: Seq<String>) -> bool {
    &&& k * size < all.len()
    &&& names(row) == names(all).subrange(k * size, capped_end(k * size, size, all.len() as int))
}

/// Splits `all` into consecutive rows of `size` nodes, the last possibly shorter.
fn chunk_nodes(all: &Vec<String>, size: usize) -> (chunks: Vec<Vec<String>>)
    requires
        size > 0,
    ensures
        chunks@.len() * size >= all@.len(),
        forall|k: int| 0 <= k < chunks@.len() ==> row_ok(all@, size as int, k, #[trigger] chunks@[k]@),
{
    let mut chunks: Vec<Vec<String>> = Vec::new();
    let mut start: usize = 0;
    assert(chunks@.len() * size == 0);
    while start < all.len()
        invariant
            size > 0,
            start <= all@.len(),
            start < all@.len() ==> start == chunks@.len() * size,
            start == all@.len() ==> chunks@.len() * size >= all@.len(),
            forall|k: int| 0 <= k < chunks@.len() ==> row_ok(all@, size as int, k, #[trigger] chunks@[k]@),
        decreases all@.len() - start,
    {
        let end = if all.len() - start > size {
            start + size
        } else {
            all.len()
        };
        let mut chunk: Vec<String> = Vec::new();
        let mut j: usize = start;
        while j < end
            invariant
                start <= j <= end <= all@.len(),
                names(chunk@) =~= names(all@).subrange(start as int, j as int),
            decreases end - j,
        {
            let ghost before = chunk@;
            chunk.push(all[j].clone());
            assert(names(chunk@) =~= names(before).push(all@[j as int]@));
            j = j + 1;
        }
        let ghost c = chunks@.len() as int;
        let ghost before = chunks@;
        let ghost row = chunk@;
        proof {
            assert((c + 1) * size == c * size + size) by (nonlinear_arith);
        }
        chunks.push(chunk);
        proof {
            assert(capped_end(c * size, size as int, all@.len() as int) == end);
            assert forall|k: int| 0 <= k < chunks@.len() implies row_ok(all@, size as int, k, #[trigger] chunks@[k]@) by {
                if k < c {
                    assert(chunks@[k] == before[k]);
                } else {
                    assert(chunks@[k]@ == row);
                    assert(c * size == start);
                }
            }
        }
        start = end;
    }
    chunks
}

/// Where `all` holds `id`, some row of its split holds it too.
proof fn lemma_chunk_holds(all: Seq<String>, chunks: Seq<Vec<String>>, size: int, id: Seq<char>)
    requires
        size > 0,
        names(all).contains(id),
        chunks.len() * size >= all.len(),
        forall|k: int| 0 <= k < chunks.len() ==> row_ok(all, size, k, #[trigger] chunks[k]@),
    ensures
        exists|k: int| 0 <= k < chunks.len() && #[trigger] names(chunks[k]@).contains(id),
{
    let j = choose|j: int| 0 <= j < names(all).len() && names(all)[j] == id;
    let k = j / size;
    vstd::arithmetic::div_mod::lemma_fundamental_div_mod(j, size);
    vstd::arithmetic::div_mod::lemma_mod_bound(j, size);
    assert(k * size == size * k) by (nonlinear_arith);
    assert(k >= 0) by (nonlinear_arith)
        requires
            j >= 0,
            size > 0,
            k == j / size,
    ;
    assert(k < chunks.len()) by (nonlinear_arith)
        requires
            k * size <= j,
            j < chunks.len() * size,
            size > 0,
    ;
    let e = capped_end(k * size, size, all.len() as int);
    assert(row_ok(all, size, k, chunks[k]@));
    assert(0 <= j - k * size < e - k * size);
    assert(names(chunks[k]@)[j - k * size] == names(all)[j]);
    assert(names(chunks[k]@).contains(id));
}

/// The first row and the place in it where `id` stands, if any row holds it.
fn find_in_chunks(chunks: &Vec<Vec<String>>, id: &String) -> (r: Option<(usize, usize)>)
    ensures
        match r {
            Some((i, p)) => i < chunks@.len() && p < chunks@[i as int]@.len()
                && chunks@[i as int]@[p as int]@ == id@,
            None => forall|k: int|
                0 <= k < chunks@.len() ==> !(#[trigger] names(chunks@[k]@)).contains(id@),
        },
{
    let mut i: usize = 0;
    while i < chunks.len()
        invariant
            i <= chunks@.len(),
            forall|k: int| 0 <= k < i ==> !(#[trigger] names(chunks@[k]@)).contains(id@),
        decreases chunks@.len() - i,
    {
        match position_of(chunks[i].as_slice(), id) {
            Some(p) => {
                return Some((i, p));
            },
            None => {},
        }
        i = i + 1;
    }
    None
}

/// The first place in `list` where `id` stands, if any.
fn position_of(list: &[String], id: &String) -> (r: Option<usize>)
    ensures
        match r {
            Some(p) => p < list@.len() && list@[p as int]@ == id@,
            None => !names(list@).contains(id@),
        },
{
    let mut i: usize = 0;
    while i < list.len()
        invariant
            i <= list@.len(),
            forall|k: int| 0 <= k < i ==> list@[k]@ != id@,
        decreases list@.len() - i,
    {
        if list[i] == *id {
            return Some(i);
        }
        i = i + 1;
    }
    proof {
        assert forall|k: int| 0 <= k < names(list@).len() implies names(list@)[k] != id@ by {
            assert(names(list@)[k] == list@[k]@);
        }
    }
    None
}

/// Every node of `all` but `id`, in order.
fn others(all: &Vec<String>, id: &String) -> (r: Vec<String>)
    ensures
        names(r@) == names(all@).filter(is_other(id@)),
{
    let mut r: Vec<String> = Vec::new();
    let mut i: usize = 0;
    while i < all.len()
        invariant
            i <= all@.len(),
            names(r@) == names(all@).take(i as int).filter(is_other(id@)),
        decreases all@.len() - i,
    {
        proof {
            assert(names(all@).take(i + 1) =~= names(all@).take(i as int).push(all@[i as int]@));
            names(all@).take(i as int).lemma_filter_push(all@[i as int]@, is_other(id@));
        }
        if all[i] != *id {
            r.push(all[i].clone());
            proof {
                assert(names(r@) =~= names(r@.drop_last()).push(all@[i as int]@));
            }
        }
        i = i + 1;
    }
    assert(names(all@).take(all@.len() as int) =~= names(all@));
    r
}

/// The grid coordinates around `(y, x)` on a grid whose last row is `max_y`
/// and last column `max_x`, wrapping at the edges: left and right on a single
/// row, else the eight surrounding cells.
pub open spec fn wrapped_coordinates(y: usize, x: usize, max_y: usize, max_x: usize) -> Seq<(usize, usize)> {
    let left = if x == 0 { max_x } else { (x - 1) as usize };
    let right = if x == max_x { 0 } else { (x + 1) as usize };
    let up = if y == 0 { max_y } else { (y - 1) as usize };
    let down = if y == max_y { 0 } else { (y + 1) as usize };
    if max_y == 0 {
        seq![(y, left), (y, right)]
    } else {
        seq![(up, left), (up, x), (up, right), (y, left), (y, right), (down, left), (down, x), (down, right)]
    }
}

pub fn calculate_neighbors_coordinates_wrapped(y: usize, x: usize, max_y: usize, max_x: usize) -> (r: Vec<(usize, usize)>)
    requires
        x != max_x ==> x < usize::MAX,
        y != max_y ==> y < usize::MAX,
    ensures
        r@ == wrapped_coordinates(y, x, max_y, max_x),
        y <= max_y && x <= max_x ==> forall|i: int|
            0 <= i < r@.len() ==> (#[trigger] r@[i]).0 <= max_y && r@[i].1 <= max_x,
{
    let y_max = max_y;
    let x_max = max_x;
    let left = if x == 0 { x_max } else { x - 1 };
    let right = if x == x_max { 0 } else { x + 1 };
    let up = if y == 0 { y_max } else { y - 1 };
    let down = if y == y_max { 0 } else { y + 1 };
    if y_max == 0 {
        let r = vec![(y, left), (y, right)];
        assert(r@ =~= wrapped_coordinates(y, x, max_y, max_x));
        return r;
    }
    let r = vec![
        (up, left),
        (up, x),
        (up, right),
        (y, left),
        (y, right),
        (down, left),
        (down, x),
        (down, right),
    ];
    assert(r@ =~= wrapped_coordinates(y, x, max_y, max_x));
    r
}

/// The length in bytes of the UTF-8 encoding of `s`.
pub open spec fn byte_len(s: Seq<char>) -> nat {
    vstd::utf8::encode_utf8(s).len()
}

/// The wrapped cells around row `y`, column `x` of `rows`: the last row is
/// that of the grid, and the last column is one less than the byte length
/// of the node id at `(y, x)`.
pub open spec fn grid_cells(rows: Seq<Vec<String>>, y: usize, x: usize) -> Seq<(usize, usize)> {
    wrapped_coordinates(y, x, (rows.len() - 1) as usize, (byte_len(rows[y as int]@[x as int]@) - 1) as usize)
}

/// The nodes at the wrapped cells around row `y`, column `x`, the last
/// column taken being one less than the byte length of the id at `(y, x)`.
pub fn calculate_neighbors(all_chunks: &Vec<Vec<String>>, y: usize, x: usize) -> (r: Vec<String>)
    requires
        y < all_chunks@.len(),
        x < all_chunks@[y as int]@.len(),
        0 < byte_len(all_chunks@[y as int]@[x as int]@) <= usize::MAX,
        forall|i: int|
            0 <= i < grid_cells(all_chunks@, y, x).len() ==> {
                let c = #[trigger] grid_cells(all_chunks@, y, x)[i];
                c.0 < all_chunks@.len() && c.1 < all_chunks@[c.0 as int]@.len()
            },
    ensures
        r@.len() == grid_cells(all_chunks@, y, x).len(),
        forall|i: int|
            0 <= i < r@.len() ==> (#[trigger] r@[i])@
                == all_chunks@[grid_cells(all_chunks@, y, x)[i].0 as int]@[grid_cells(all_chunks@, y, x)[i].1 as int]@,
{
    let mut neighbors: Vec<String> = Vec::new();
    let y_max = all_chunks.len() - 1;
    let chunk = all_chunks[y][x].clone();
    let _row_len = all_chunks[y].len();  // bounds `x` below `usize::MAX`
    let x_max = chunk.as_str().len() - 1;
    let coords = calculate_neighbors_coordinates_wrapped(y, x, y_max, x_max);
    let ghost cs = coords@;
    assert forall|k: int| 0 <= k < cs.len() implies {
        let c = #[trigger] cs[k];
        c.0 < all_chunks@.len() && c.1 < all_chunks@[c.0 as int]@.len()
    } by {
        assert(cs[k] == grid_cells(all_chunks@, y, x)[k]);
    }
    let mut i: usize = 0;
    while i < coords.len()
        invariant
            i <= coords@.len(),
            coords@ == cs,
            cs == grid_cells(all_chunks@, y, x),
            forall|k: int|
                0 <= k < cs.len() ==> {
                    let c = #[trigger] cs[k];
                    c.0 < all_chunks@.len() && c.1 < all_chunks@[c.0 as int]@.len()
                },
            neighbors@.len() == i,
            forall|k: int|
                0 <= k < i ==> (#[trigger] neighbors@[k])@ == all_chunks@[cs[k].0 as int]@[cs[k].1 as int]@,
        decreases coords@.len() - i,
    {
        let (cy, cx) = coords[i];
        assert(cs[i as int].0 < all_chunks@.len());
        neighbors.push(all_chunks[cy][cx].clone());
        i = i + 1;
    }
    neighbors
}

/// A node is never among the nodes it keeps as others or neighbours.
pub proof fn lemma_others_exclude_self(all: Seq<Seq<char>>, id: Seq<char>)
    ensures
        !all.filter(is_other(id)).contains(id),
{
    broadcast use vstd::seq_lib::group_filter_ensures;

    if all.filter(is_other(id)).contains(id) {
        let k = choose|k: int| 0 <= k < all.filter(is_other(id)).len() && all.filter(is_other(id))[k] == id;
        assert(is_other(id)(all.filter(is_other(id))[k]));
    }
}

/// The predicate "is not in `exclude`".
pub open spec fn not_in(exclude: Seq<Seq<char>>) -> spec_fn(Seq<char>) -> bool {
    |n: Seq<char>| !exclude.contains(n)
}

/// The predicate "is in `exclude`".
pub open spec fn is_in(exclude: Seq<Seq<char>>) -> spec_fn(Seq<char>) -> bool {
    |n: Seq<char>| exclude.contains(n)
}

/// The first `count` names of `chosen` that `exclude` does not hold (all of
/// them if there are fewer), in order.
pub open spec fn picked(chosen: Seq<Seq<char>>, count: nat, exclude: Seq<Seq<char>>) -> Seq<Seq<char>> {
    let kept = chosen.filter(not_in(exclude));
    kept.take(if count < kept.len() { count as int } else { kept.len() as int })
}

/// What holds of every random pick of `count` targets from `pool` avoiding
/// `exclude`: at most `count` of them, each from the pool and not excluded;
/// and, when the pool holds no name twice, no target twice and exactly as
/// many as `count` or the number of pool names not excluded, whichever is
/// less; with nothing excluded, as many as `count` or the pool's length,
/// whichever is less.
pub open spec fn targets_ok(r: Seq<Seq<char>>, pool: Seq<Seq<char>>, count: nat, exclude: Seq<Seq<char>>) -> bool {
    let available = pool.filter(not_in(exclude)).len();
    &&& r.len() <= count
    &&& forall|i: int| 0 <= i < r.len() ==> pool.contains(#[trigger] r[i]) && !exclude.contains(r[i])
    &&& pool.no_duplicates() ==> r.no_duplicates()
    &&& pool.no_duplicates() ==> r.len() == (if count < available { count } else { available })
    &&& exclude.len() == 0 ==> r.len() == (if count < pool.len() { count } else { pool.len() as nat })
}

/// Calls `rand::seq::SliceRandom::choose_multiple` on `targets` with the
/// thread-local generator `rand::thread_rng()` and clones what it yields.
/// Claimed, after the source of rand 0.8: `min(amount, targets.len())` items
/// come back, each a copy of an item of `targets`, taken at distinct
/// positions (so that distinct names in `targets` give distinct names back).
/// Which items, and in which order, is left open: it rests on chance.
#[verifier::external_body]
fn choose_multiple_cloned(targets: &[String], amount: usize) -> (r: Vec<String>)
    ensures
        r@.len() == (if amount < targets@.len() { amount as int } else { targets@.len() as int }),
        forall|i: int| 0 <= i < r@.len() ==> names(targets@).contains(#[trigger] r@[i]@),
        names(targets@).no_duplicates() ==> names(r@).no_duplicates(),
{
    let mut rng = rand::thread_rng();
    targets.choose_multiple(&mut rng, amount).cloned().collect()
}

/// Up to `count` nodes of `targets` picked at random, none of them in `expect`.
fn get_random_targets_from(targets: &[String], count: usize, expect: &[String]) -> (r: Vec<String>)
    requires
        count + expect@.len() <= usize::MAX,
    ensures
        targets_ok(names(r@), names(targets@), count as nat, names(expect@)),
{
    let chosen = choose_multiple_cloned(targets, count + expect.len());
    let r = keep_targets(&chosen, count, expect);
    proof {
        lemma_picked_ok(names(chosen@), names(targets@), count as nat, names(expect@));
    }
    r
}

/// The first `count` nodes of `chosen`, in order, that `expect` does not
/// hold (all of them if there are fewer).
pub fn keep_targets(chosen: &Vec<String>, count: usize, expect: &[String]) -> (r: Vec<String>)
    ensures
        names(r@) == picked(names(chosen@), count as nat, names(expect@)),
{
    broadcast use vstd::seq_lib::group_seq_lib_default;

    let ghost ns = names(chosen@);
    let ghost ex = names(expect@);
    let mut r: Vec<String> = Vec::new();
    let mut i: usize = 0;
    while i < chosen.len() && r.len() < count
        invariant
            i <= chosen@.len(),
            ns == names(chosen@),
            ex == names(expect@),
            r@.len() <= count,
            names(r@) == ns.take(i as int).filter(not_in(ex)),
        decreases chosen@.len() - i,
    {
        proof {
            assert(ns.take(i + 1) =~= ns.take(i as int).push(chosen@[i as int]@));
            ns.take(i as int).lemma_filter_push(chosen@[i as int]@, not_in(ex));
        }
        let found = position_of(expect, &chosen[i]);
        if found.is_none() {
            r.push(chosen[i].clone());
            proof {
                assert(names(r@) =~= names(r@.drop_last()).push(chosen@[i as int]@));
            }
        } else {
            proof {
                let p = found.unwrap();
                assert(ex[p as int] == chosen@[i as int]@);
            }
        }
        i = i + 1;
    }
    proof {
        assert(ns =~= ns.take(i as int) + ns.skip(i as int));
        let kept = ns.filter(not_in(ex));
        assert(kept == ns.take(i as int).filter(not_in(ex)) + ns.skip(i as int).filter(not_in(ex)));
        if i == chosen@.len() {
            assert(ns.skip(i as int) =~= Seq::<Seq<char>>::empty());
            assert(ns.skip(i as int).filter(not_in(ex)) =~= Seq::<Seq<char>>::empty()) by {
                reveal(Seq::filter);
            }
        }
        assert(picked(ns, count as nat, ex) =~= names(r@));
    }
    r
}

/// Keeping from `s` what `p` accepts keeps no element twice when `s` has none twice.
proof fn lemma_filter_no_duplicates(s: Seq<Seq<char>>, p: spec_fn(Seq<char>) -> bool)
    requires
        s.no_duplicates(),
    ensures
        s.filter(p).no_duplicates(),
    decreases s.len(),
{
    broadcast use vstd::seq_lib::group_seq_lib_default;

    if s.len() > 0 {
        let d = s.drop_last();
        assert(d.no_duplicates());
        lemma_filter_no_duplicates(d, p);
        d.lemma_filter_push(s.last(), p);
        assert(d.push(s.last()) =~= s);
        if p(s.last()) {
            let f = d.filter(p);
            assert(!f.contains(s.last())) by {
                if f.contains(s.last()) {
                    d.lemma_filter_contains_rev(p, s.last());
                    let k = choose|k: int| 0 <= k < d.len() && d[k] == s.last();
                    assert(s[k] == s[s.len() - 1]);
                }
            }
            let t = f.push(s.last());
            assert forall|a: int, b: int| 0 <= a < t.len() && 0 <= b < t.len() && a != b implies t[a] != t[b] by {
                if a == f.len() as int {
                    assert(t[b] == f[b]);
                    if t[a] == t[b] {
                        assert(f[b] == s.last());
                    }
                } else if b == f.len() as int {
                    assert(t[a] == f[a]);
                    if t[a] == t[b] {
                        assert(f[a] == s.last());
                    }
                } else {
                    assert(t[a] == f[a] && t[b] == f[b]);
                }
            }
        }
    }
}

/// What a predicate accepts and what it rejects together make up the whole.
proof fn lemma_filter_split_len(s: Seq<Seq<char>>, ex: Seq<Seq<char>>)
    ensures
        s.filter(not_in(ex)).len() + s.filter(is_in(ex)).len() == s.len(),
    decreases s.len(),
{
    if s.len() > 0 {
        let d = s.drop_last();
        lemma_filter_split_len(d, ex);
        d.lemma_filter_push(s.last(), not_in(ex));
        d.lemma_filter_push(s.last(), is_in(ex));
        assert(d.push(s.last()) =~= s);
    } else {
        reveal(Seq::filter);
    }
}

/// A list without repeats holds no more names of `ex` than `ex` has entries.
proof fn lemma_excluded_at_most(s: Seq<Seq<char>>, ex: Seq<Seq<char>>)
    requires
        s.no_duplicates(),
    ensures
        s.filter(is_in(ex)).len() <= ex.len(),
{
    broadcast use vstd::seq_lib::group_seq_lib_default;

    let dropped = s.filter(is_in(ex));
    lemma_filter_no_duplicates(s, is_in(ex));
    dropped.unique_seq_to_set();
    assert(dropped.to_set().subset_of(ex.to_set())) by {
        assert forall|x: Seq<char>| dropped.to_set().contains(x) implies ex.to_set().contains(x) by {
            let k = choose|k: int| 0 <= k < dropped.len() && dropped[k] == x;
            assert(is_in(ex)(dropped[k]));
        }
    }
    vstd::set_lib::lemma_len_subset(dropped.to_set(), ex.to_set());
    ex.lemma_cardinality_of_set();
}

/// Two lists without repeats that hold the same names keep as many names
/// under any predicate.
proof fn lemma_filter_same_set(s: Seq<Seq<char>>, t: Seq<Seq<char>>, p: spec_fn(Seq<char>) -> bool)
    requires
        s.no_duplicates(),
        t.no_duplicates(),
        s.to_set() == t.to_set(),
    ensures
        s.filter(p).len() == t.filter(p).len(),
{
    broadcast use vstd::seq_lib::group_seq_lib_default;

    let sf = s.filter(p);
    let tf = t.filter(p);
    lemma_filter_no_duplicates(s, p);
    lemma_filter_no_duplicates(t, p);
    assert forall|x: Seq<char>| sf.to_set().contains(x) implies tf.to_set().contains(x) by {
        let i = choose|i: int| 0 <= i < sf.len() && sf[i] == x;
        assert(p(sf[i]));
        assert(sf.contains(x));
        s.lemma_filter_contains_rev(p, x);
        assert(s.to_set().contains(x));
        assert(t.to_set().contains(x));
        let j = choose|j: int| 0 <= j < t.len() && t[j] == x;
        assert(tf.contains(t[j]));
    }
    assert forall|x: Seq<char>| tf.to_set().contains(x) implies sf.to_set().contains(x) by {
        let i = choose|i: int| 0 <= i < tf.len() && tf[i] == x;
        assert(p(tf[i]));
        assert(tf.contains(x));
        t.lemma_filter_contains_rev(p, x);
        assert(t.to_set().contains(x));
        assert(s.to_set().contains(x));
        let j = choose|j: int| 0 <= j < s.len() && s[j] == x;
        assert(sf.contains(s[j]));
    }
    assert(sf.to_set() =~= tf.to_set());
    lemma_same_set_same_len(sf, tf);
}

/// A pick from a random choice of `count + exclude.len()` distinct names of
/// the pool meets what every pick of targets is held to.
proof fn lemma_picked_ok(chosen: Seq<Seq<char>>, pool: Seq<Seq<char>>, count: nat, ex: Seq<Seq<char>>)
    requires
        chosen.len() == (if count + ex.len() < pool.len() { (count + ex.len()) as int } else { pool.len() as int }),
        forall|i: int| 0 <= i < chosen.len() ==> pool.contains(#[trigger] chosen[i]),
        pool.no_duplicates() ==> chosen.no_duplicates(),
    ensures
        targets_ok(picked(chosen, count, ex), pool, count, ex),
{
    broadcast use vstd::seq_lib::group_seq_lib_default;

    let kept = chosen.filter(not_in(ex));
    let r = picked(chosen, count, ex);
    assert forall|i: int| 0 <= i < r.len() implies pool.contains(#[trigger] r[i]) && !ex.contains(r[i]) by {
        assert(r[i] == kept[i]);
        assert(not_in(ex)(kept[i]));
        assert(kept.contains(kept[i]));
        chosen.lemma_filter_contains_rev(not_in(ex), kept[i]);
        let k = choose|k: int| 0 <= k < chosen.len() && chosen[k] == kept[i];
        assert(pool.contains(chosen[k]));
    }
    if ex.len() == 0 {
        let dropped = chosen.filter(is_in(ex));
        lemma_filter_split_len(chosen, ex);
        if dropped.len() > 0 {
            assert(is_in(ex)(dropped[0]));
        }
    }
    if pool.no_duplicates() {
        lemma_filter_no_duplicates(chosen, not_in(ex));
        assert forall|a: int, b: int| 0 <= a < r.len() && 0 <= b < r.len() && a != b implies r[a] != r[b] by {
            assert(r[a] == kept[a] && r[b] == kept[b]);
        }
        let available = pool.filter(not_in(ex)).len();
        if count + ex.len() < pool.len() {
            lemma_filter_split_len(chosen, ex);
            lemma_excluded_at_most(chosen, ex);
            lemma_filter_split_len(pool, ex);
            lemma_excluded_at_most(pool, ex);
            assert(kept.len() >= count);
            assert(available > count);
        } else {
            chosen.unique_seq_to_set();
            pool.unique_seq_to_set();
            assert(chosen.to_set().subset_of(pool.to_set())) by {
                assert forall|x: Seq<char>| chosen.to_set().contains(x) implies pool.to_set().contains(x) by {
                    let k = choose|k: int| 0 <= k < chosen.len() && chosen[k] == x;
                    assert(pool.contains(chosen[k]));
                }
            }
            vstd::set_lib::lemma_subset_equality(chosen.to_set(), pool.to_set());
            lemma_filter_same_set(chosen, pool, not_in(ex));
        }
    }
}

} // verus!
