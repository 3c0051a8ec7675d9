//! The toroidal quadruply-linked structure and its search engine.
//!
//! All nodes live in one arena (`DLX::nodes`) and are addressed by their
//! index in it; every link (`up`, `down`, `left`, `right`) is such an index.
//! A freshly allocated node is a singleton in both of its rings: all four
//! links point at the node itself. Column headers are nodes with `line == 0`
//! anchoring a column's vertical ring, and the root (id 0) anchors the
//! horizontal ring of headers.

use vstd::prelude::*;

verus! {

/// One node of the structure: payload, identity, four ring links, and the
/// row/column coordinates of the matrix entry it stands for.
#[derive(Clone, Copy, Debug)]
pub struct Node {
    pub node: u8,
    pub id: usize,
    pub left: usize,
    pub right: usize,
    pub up: usize,
    pub down: usize,
    pub line: usize,
    pub col: usize,
}

impl Node {
    /// A fresh node: self-linked in both rings.
    pub fn new(node: u8, id: usize, line: usize, col: usize) -> (r: Node)
        ensures
            r == (Node { node, id, left: id, right: id, up: id, down: id, line, col }),
    {
        Node { node, id, left: id, right: id, up: id, down: id, line, col }
    }
}

/// The matrix: node arena, root sentinel id, allocation counter, and the ids
/// of the column headers in column order.
#[derive(Clone)]
pub struct DLX {
    pub nodes: Vec<Node>,
    pub root: usize,
    pub id: usize,
    pub cols: Vec<usize>,
}

/// The result of overwriting, in `s[id]`, each of the four links for which a
/// value is given, leaving the other fields as they were.
pub open spec fn spec_set_node(
    s: Seq<Node>,
    id: int,
    up: Option<usize>,
    down: Option<usize>,
    left: Option<usize>,
    right: Option<usize>,
) -> Seq<Node> {
    s.update(id, Node {
        up: if up is Some { up->0 } else { s[id].up },
        down: if down is Some { down->0 } else { s[id].down },
        left: if left is Some { left->0 } else { s[id].left },
        right: if right is Some { right->0 } else { s[id].right },
        ..s[id]
    })
}

/// The arena after splicing node `id` out of its row ring and its column
/// ring. The four neighbors bypass `id`; `id`'s own links are left intact,
/// which is what makes an exact later recovery possible.
pub open spec fn spec_remove_node(s: Seq<Node>, id: int) -> Seq<Node> {
    let n = s[id];
    let s1 = spec_set_node(s, n.down as int, Some(n.up), None, None, None);
    let s2 = spec_set_node(s1, n.up as int, None, Some(n.down), None, None);
    let s3 = spec_set_node(s2, n.left as int, None, None, None, Some(n.right));
    spec_set_node(s3, n.right as int, None, None, Some(n.left), None)
}

/// The arena after re-splicing node `id` into both rings, using `id`'s own
/// still-intact links to find the four neighbors.
pub open spec fn spec_recover_node(s: Seq<Node>, id: int) -> Seq<Node> {
    let n = s[id];
    let s1 = spec_set_node(s, n.down as int, Some(id as usize), None, None, None);
    let s2 = spec_set_node(s1, n.up as int, None, Some(id as usize), None, None);
    let s3 = spec_set_node(s2, n.left as int, None, None, None, Some(id as usize));
    spec_set_node(s3, n.right as int, None, None, Some(id as usize), None)
}

/// Well-formedness of the arena: the allocation counter matches the arena,
/// the root and every column-header id name an allocated node, and every
/// link of every node names an allocated node.
pub open spec fn wf(d: DLX) -> bool {
    &&& d.id == d.nodes@.len()
    &&& d.root < d.nodes@.len()
    &&& forall|c: int| 0 <= c < d.cols@.len() ==> d.cols@[c] < d.nodes@.len()
    &&& forall|i: int| 0 <= i < d.nodes@.len() ==> (#[trigger] d.nodes@[i]).up
        < d.nodes@.len() && d.nodes@[i].down < d.nodes@.len() && d.nodes@[i].left
        < d.nodes@.len() && d.nodes@[i].right < d.nodes@.len()
}

/// Every node's column coordinate names one of the matrix's columns, so the
/// search may look a node's header up through `cols`.
pub open spec fn cols_ok(d: DLX) -> bool {
    forall|i: int| 0 <= i < d.nodes@.len() ==> (#[trigger] d.nodes@[i]).col < d.cols@.len()
}

/// The exact shape of a freshly constructed matrix with `n` columns: the
/// root (id 0) and the headers (ids 1 ..= n) form one circular horizontal
/// ring in column order, and every vertical ring is still a singleton.
pub open spec fn fresh(d: DLX, n: usize) -> bool {
    &&& d.root == 0
    &&& d.id == n + 1
    &&& d.nodes@.len() == n + 1
    &&& d.cols@.len() == n
    &&& forall|c: int| 0 <= c < n ==> #[trigger] d.cols@[c] == c + 1
    &&& d.nodes@[0] == (Node {
        node: 0,
        id: 0,
        left: n,
        right: if n == 0 { 0 } else { 1 },
        up: 0,
        down: 0,
        line: 0,
        col: 0,
    })
    &&& forall|k: int| 1 <= k <= n ==> #[trigger] d.nodes@[k] == (Node {
        node: 0,
        id: k as usize,
        left: (k - 1) as usize,
        right: if k == n { 0 } else { (k + 1) as usize },
        up: k as usize,
        down: k as usize,
        line: 0,
        col: (k - 1) as usize,
    })
}

/// The arena after appending one column header: the new header (the next
/// free id) is spliced into the horizontal ring between the last header and
/// the root.
pub open spec fn spec_append_col_head(d: DLX) -> Seq<Node> {
    let h = d.nodes@.len() as usize;
    let root = d.root as int;
    let last = d.nodes@[root].left;
    let s0 = d.nodes@.push(
        Node { node: 0, id: h, left: h, right: h, up: h, down: h, line: 0, col: d.cols@.len() as usize },
    );
    let s1 = spec_set_node(s0, last as int, None, None, None, Some(h));
    let s2 = spec_set_node(s1, h as int, None, None, Some(last), Some(d.root));
    spec_set_node(s2, root, None, None, Some(h), None)
}

/// The arena after adding a node for entry (`line`, `col`): the new node (the
/// next free id) is spliced into column `col`'s vertical ring just above the
/// header, and horizontally next to the hinted neighbors, if any.
pub open spec fn spec_add_node(
    d: DLX,
    node: u8,
    line: usize,
    col: usize,
    left_node_id: Option<usize>,
    right_node_id: Option<usize>,
) -> Seq<Node> {
    let id = d.nodes@.len() as usize;
    let ch = d.cols@[col as int];
    let cl = d.nodes@[ch as int].up;
    let s0 = d.nodes@.push(
        Node { node, id, left: id, right: id, up: id, down: id, line, col },
    );
    let s1 = spec_set_node(s0, ch as int, Some(id), None, None, None);
    let s2 = spec_set_node(s1, cl as int, None, Some(id), None, None);
    let s3 = if left_node_id is Some {
        spec_set_node(s2, left_node_id->0 as int, None, None, None, Some(id))
    } else {
        s2
    };
    let s4 = if right_node_id is Some {
        spec_set_node(s3, right_node_id->0 as int, None, None, Some(id), None)
    } else {
        s3
    };
    spec_set_node(s4, id as int, Some(cl), Some(ch), left_node_id, right_node_id)
}

/// Appending a header to a fresh matrix of `j` columns yields a fresh matrix
/// of `j + 1` columns.
proof fn lemma_append_fresh(prev: DLX, cur: DLX, j: usize)
    requires
        j < usize::MAX,
        fresh(prev, j),
        cur.nodes@ == spec_append_col_head(prev),
        cur.cols@ == prev.cols@.push(prev.nodes@.len() as usize),
        cur.root == prev.root,
        cur.id == prev.id + 1,
    ensures
        fresh(cur, (j + 1) as usize),
{
    let n = j + 1;
    assert(cur.nodes@.len() == n + 1);
    assert(cur.cols@.len() == n);
    assert forall|c: int| 0 <= c < n implies #[trigger] cur.cols@[c] == c + 1 by {
        if c < j {
            assert(prev.cols@[c] == c + 1);
        }
    }
    assert(cur.nodes@[0] == (Node {
        node: 0,
        id: 0,
        left: n as usize,
        right: if n == 0 { 0usize } else { 1usize },
        up: 0,
        down: 0,
        line: 0,
        col: 0,
    }));
    assert forall|k: int| 1 <= k <= n implies #[trigger] cur.nodes@[k] == (Node {
        node: 0,
        id: k as usize,
        left: (k - 1) as usize,
        right: if k == n { 0usize } else { (k + 1) as usize },
        up: k as usize,
        down: k as usize,
        line: 0,
        col: (k - 1) as usize,
    }) by {
        if k < j {
            assert(prev.nodes@[k] == (Node {
                node: 0,
                id: k as usize,
                left: (k - 1) as usize,
                right: (k + 1) as usize,
                up: k as usize,
                down: k as usize,
                line: 0,
                col: (k - 1) as usize,
            }));
        } else if k == j && j >= 1 {
            assert(prev.nodes@[k].right == 0);
        }
    }
}

/// The node reached from `i` after `k` steps along `down` links.
pub open spec fn steps_down(s: Seq<Node>, i: int, k: nat) -> int
    decreases k,
{
    if k == 0 {
        i
    } else {
        s[steps_down(s, i, (k - 1) as nat)].down as int
    }
}

/// The node reached from `i` after `k` steps along `right` links.
pub open spec fn steps_right(s: Seq<Node>, i: int, k: nat) -> int
    decreases k,
{
    if k == 0 {
        i
    } else {
        s[steps_right(s, i, (k - 1) as nat)].right as int
    }
}

/// The vertical ring anchored at `i` is circular: following `down` returns
/// to `i` within one step per allocated node.
pub open spec fn down_ring_circular(s: Seq<Node>, i: int) -> bool {
    exists|m: int| 1 <= m <= s.len() && #[trigger] steps_down(s, i, m as nat) == i
}

/// Walks compose: `a + b` steps land where `b` steps from the `a`-step node
/// land.
pub proof fn lemma_steps_down_add(s: Seq<Node>, i: int, a: nat, b: nat)
    ensures
        steps_down(s, i, a + b) == steps_down(s, steps_down(s, i, a), b),
    decreases b,
{
    if b > 0 {
        lemma_steps_down_add(s, i, a, (b - 1) as nat);
    }
}

/// A `down` walk that returns to its start for the first time after `f`
/// steps visits pairwise distinct nodes on the way: were two of them equal,
/// the walk from the earlier one would repeat the later one's tail and come
/// home too soon. So the count that `col_len` reports — one per step before
/// the first return — is the number of distinct nodes reachable via `down`
/// from the header back to itself.
pub proof fn lemma_first_return_distinct(s: Seq<Node>, h: int, f: nat)
    requires
        f >= 1,
        steps_down(s, h, f) == h,
        forall|k: int| 1 <= k < f ==> #[trigger] steps_down(s, h, k as nat) != h,
    ensures
        forall|i: int, j: int| 0 <= i < j < f ==> #[trigger] steps_down(s, h, i as nat)
            != #[trigger] steps_down(s, h, j as nat),
{
    assert forall|i: int, j: int| 0 <= i < j < f implies #[trigger] steps_down(s, h, i as nat)
        != #[trigger] steps_down(s, h, j as nat) by {
        if steps_down(s, h, i as nat) == steps_down(s, h, j as nat) {
            if i == 0 {
                assert(steps_down(s, h, j as nat) != h);
            } else {
                let t = (f - j) as nat;
                lemma_steps_down_add(s, h, i as nat, t);
                lemma_steps_down_add(s, h, j as nat, t);
                assert(steps_down(s, h, (i + t) as nat) == steps_down(s, h, f));
                assert(steps_down(s, h, (i + t) as nat) != h);
            }
        }
    }
}

/// Node `id` sits consistently in both of its rings: each of its four
/// neighbors points back at it.
pub open spec fn linked_at(s: Seq<Node>, id: int) -> bool {
    &&& s[s[id].down as int].up == id
    &&& s[s[id].up as int].down == id
    &&& s[s[id].left as int].right == id
    &&& s[s[id].right as int].left == id
}

/// All of `id`'s links and its neighbors' links name allocated nodes.
pub open spec fn links_in_range(s: Seq<Node>, id: int) -> bool {
    &&& 0 <= id < s.len()
    &&& s[id].down < s.len()
    &&& s[id].up < s.len()
    &&& s[id].left < s.len()
    &&& s[id].right < s.len()
}

/// Removing a node and then immediately recovering it restores every node of
/// the arena — in particular all four neighbor fields of every affected node
/// — to its value before the pair, provided the node sat consistently in its
/// rings when it was removed.
pub proof fn lemma_remove_recover_round_trip(s: Seq<Node>, id: int)
    requires
        links_in_range(s, id),
        linked_at(s, id),
    ensures
        spec_recover_node(spec_remove_node(s, id), id) == s,
{
    let n = s[id];
    let r = spec_remove_node(s, id);
    assert(r[id] == n);
    let q = spec_recover_node(r, id);
    assert forall|i: int| 0 <= i < s.len() implies q[i] == s[i] by {
        assert(q.len() == s.len());
    }
    assert(q =~= s);
}

/// The arena after removing the listed nodes, first to last.
pub open spec fn spec_remove_all(s: Seq<Node>, ids: Seq<int>) -> Seq<Node>
    decreases ids.len(),
{
    if ids.len() == 0 {
        s
    } else {
        spec_remove_all(spec_remove_node(s, ids[0]), ids.skip(1))
    }
}

/// The arena after recovering the listed nodes, last to first — the reverse
/// of the removal order.
pub open spec fn spec_recover_all(s: Seq<Node>, ids: Seq<int>) -> Seq<Node>
    decreases ids.len(),
{
    if ids.len() == 0 {
        s
    } else {
        spec_recover_node(spec_recover_all(s, ids.skip(1)), ids[0])
    }
}

/// Removing one more node after a batch is the batch extended by it.
pub proof fn lemma_remove_all_snoc(s: Seq<Node>, ids: Seq<int>, x: int)
    ensures
        spec_remove_all(s, ids.push(x)) == spec_remove_node(spec_remove_all(s, ids), x),
    decreases ids.len(),
{
    let e = ids.push(x);
    assert(e.len() == ids.len() + 1);
    if ids.len() == 0 {
        assert(e[0] == x);
        assert(e.skip(1) =~= Seq::<int>::empty());
        assert(spec_remove_all(s, e) == spec_remove_all(spec_remove_node(s, x), e.skip(1)));
        assert(spec_remove_all(spec_remove_node(s, x), e.skip(1)) == spec_remove_node(s, x));
        assert(spec_remove_all(s, ids) == s);
    } else {
        let s1 = spec_remove_node(s, ids[0]);
        assert(e[0] == ids[0]);
        assert(e.skip(1) =~= ids.skip(1).push(x));
        assert(spec_remove_all(s, e) == spec_remove_all(s1, e.skip(1)));
        lemma_remove_all_snoc(s1, ids.skip(1), x);
        assert(spec_remove_all(s, ids) == spec_remove_all(s1, ids.skip(1)));
    }
}

/// The strict stack discipline, stated whole: removing any sequence of nodes
/// and recovering them in exactly the reverse order restores the arena — so
/// every neighbor field of every node — to its value before the first
/// removal, provided each node sat consistently in its rings at the moment it
/// was removed. Recovering in any other order carries no such guarantee.
pub proof fn lemma_lifo_remove_recover_round_trip(s: Seq<Node>, ids: Seq<int>)
    requires
        forall|i: int| 0 <= i < ids.len() ==> links_in_range(
            #[trigger] spec_remove_all(s, ids.take(i)), ids[i],
        ) && linked_at(spec_remove_all(s, ids.take(i)), ids[i]),
    ensures
        spec_recover_all(spec_remove_all(s, ids), ids) == s,
    decreases ids.len(),
{
    if ids.len() > 0 {
        let s1 = spec_remove_node(s, ids[0]);
        let rest = ids.skip(1);
        assert(ids.take(0) =~= Seq::<int>::empty());
        assert(spec_remove_all(s, ids.take(0)) == s);
        assert forall|i: int| 0 <= i < rest.len() implies links_in_range(
            #[trigger] spec_remove_all(s1, rest.take(i)), rest[i],
        ) && linked_at(spec_remove_all(s1, rest.take(i)), rest[i]) by {
            assert(ids.take(i + 1)[0] == ids[0]);
            assert(ids.take(i + 1).skip(1) =~= rest.take(i));
            assert(spec_remove_all(s, ids.take(i + 1)) == spec_remove_all(s1, rest.take(i)));
            assert(ids[i + 1] == rest[i]);
        }
        lemma_lifo_remove_recover_round_trip(s1, rest);
        assert(spec_remove_all(s, ids) == spec_remove_all(s1, rest));
        assert(spec_recover_all(spec_remove_all(s1, rest), rest) == s1);
        lemma_remove_recover_round_trip(s, ids[0]);
    }
}

/// How many member nodes with id below `upto` lie in column `c` and belong
/// to a chosen row. Headers and the root anchor rings but stand for no
/// candidate, so they are not counted.
pub open spec fn cover_count(
    s: Seq<Node>,
    cols: Seq<usize>,
    root: int,
    chosen: Seq<usize>,
    c: int,
    upto: int,
) -> int
    decreases upto,
{
    if upto <= 0 {
        0
    } else {
        cover_count(s, cols, root, chosen, c, upto - 1) + if upto - 1 != root && s[upto - 1].col
            == c && cols[c] != upto - 1 && chosen.contains(s[upto - 1].line) {
            1int
        } else {
            0int
        }
    }
}

/// The chosen rows form an exact cover: every column of the matrix holds
/// exactly one node of a chosen row — so no two chosen rows share any
/// column, and none is left uncovered.
pub open spec fn covers_exactly_once(
    s: Seq<Node>,
    cols: Seq<usize>,
    root: int,
    chosen: Seq<usize>,
) -> bool {
    forall|c: int| 0 <= c < cols.len() ==> #[trigger] cover_count(
        s, cols, root, chosen, c, s.len() as int,
    ) == 1
}

/// In a fresh matrix of `n` columns, a walk of `k` steps along `right` from
/// header-ring member `m` lands on `m + k`, wrapping once past the last
/// header (the ring is root, header 1, ..., header n, back to root).
proof fn lemma_fresh_steps_right(d: DLX, n: usize, m: int, k: int)
    requires
        fresh(d, n),
        0 <= m <= n,
        0 <= k <= n + 1,
    ensures
        steps_right(d.nodes@, m, k as nat) == if m + k <= n {
            m + k
        } else {
            m + k - (n + 1)
        },
    decreases k,
{
    if k > 0 {
        lemma_fresh_steps_right(d, n, m, k - 1);
        let p = steps_right(d.nodes@, m, (k - 1) as nat);
        if p == 0 {
            assert(d.nodes@[0].right == if n == 0 { 0usize } else { 1usize });
        } else {
            assert(d.nodes@[p] == (Node {
                node: 0,
                id: p as usize,
                left: (p - 1) as usize,
                right: if p == n { 0usize } else { (p + 1) as usize },
                up: p as usize,
                down: p as usize,
                line: 0,
                col: (p - 1) as usize,
            }));
        }
    }
}

/// Ring circularity of a fresh matrix: before any removal, following `right`
/// from any live node (the root or a header) returns to that node after
/// exactly the ring's size — `n + 1` — steps and no earlier, and following
/// `down` returns after exactly one step, every vertical ring being a
/// singleton.
pub proof fn lemma_fresh_rings_circular(d: DLX, n: usize, m: int)
    requires
        fresh(d, n),
        0 <= m <= n,
    ensures
        steps_right(d.nodes@, m, (n + 1) as nat) == m,
        forall|k: int| 1 <= k <= n ==> #[trigger] steps_right(d.nodes@, m, k as nat) != m,
        steps_down(d.nodes@, m, 1) == m,
        down_ring_circular(d.nodes@, m),
{
    lemma_fresh_steps_right(d, n, m, n + 1);
    assert forall|k: int| 1 <= k <= n implies #[trigger] steps_right(d.nodes@, m, k as nat)
        != m by {
        lemma_fresh_steps_right(d, n, m, k);
    }
    assert(steps_down(d.nodes@, m, 0) == m);
    assert(steps_down(d.nodes@, m, 1) == d.nodes@[m].down as int);
    if m > 0 {
        assert(d.nodes@[m].down == m as usize);
    }
    assert(down_ring_circular(d.nodes@, m)) by {
        let w: int = 1;
        assert(1 <= w <= d.nodes@.len() && steps_down(d.nodes@, m, w as nat) == m);
    }
}

/// Ring circularity survives a matched remove/recover pair: the pair puts the
/// whole arena back, so every walk — and with it every ring's size — is what
/// it was before the removal.
pub proof fn lemma_pair_preserves_walks(s: Seq<Node>, id: int)
    requires
        links_in_range(s, id),
        linked_at(s, id),
    ensures
        forall|i: int, k: nat| #[trigger] steps_right(
            spec_recover_node(spec_remove_node(s, id), id), i, k,
        ) == steps_right(s, i, k),
        forall|i: int, k: nat| #[trigger] steps_down(
            spec_recover_node(spec_remove_node(s, id), id), i, k,
        ) == steps_down(s, i, k),
{
    lemma_remove_recover_round_trip(s, id);
}

impl Default for DLX {
    /// An empty matrix: no nodes, no columns.
    fn default() -> (r: DLX)
        ensures
            r.nodes@.len() == 0,
            r.root == 0,
            r.id == 0,
            r.cols@.len() == 0,
    {
        DLX { nodes: Vec::new(), root: 0, id: 0, cols: Vec::new() }
    }
}

impl DLX {
    /// Draws the next node id from the monotonic allocation counter.
    pub fn get_id(&mut self) -> (r: usize)
        requires
            old(self).id < usize::MAX,
        ensures
            r == old(self).id,
            final(self).id == old(self).id + 1,
            final(self).nodes@ == old(self).nodes@,
            final(self).cols@ == old(self).cols@,
            final(self).root == old(self).root,
    {
        let id = self.id;
        self.id = self.id + 1;
        id
    }

    /// A copy of the node with the given id.
    pub fn get_node(&self, id: usize) -> (r: Node)
        requires
            id < self.nodes@.len(),
        ensures
            r == self.nodes@[id as int],
    {
        self.nodes[id]
    }

    /// A mutable borrow of the node with the given id.
    pub fn get_node_mut(&mut self, id: usize) -> (r: &mut Node)
        requires
            id < old(self).nodes@.len(),
        ensures
            *r == old(self).nodes@[id as int],
            final(self).nodes@ == old(self).nodes@.update(id as int, *final(r)),
            final(self).cols@ == old(self).cols@,
            final(self).root == old(self).root,
            final(self).id == old(self).id,
    {
        &mut self.nodes[id]
    }

    /// Overwrites those links of node `id` for which a value is given; a
    /// `None` leaves the corresponding link as it was.
    pub fn set_node(
        &mut self,
        id: usize,
        up: Option<usize>,
        down: Option<usize>,
        left: Option<usize>,
        right: Option<usize>,
    )
        requires
            id < old(self).nodes@.len(),
        ensures
            final(self).nodes@ == spec_set_node(old(self).nodes@, id as int, up, down, left, right),
            final(self).cols@ == old(self).cols@,
            final(self).root == old(self).root,
            final(self).id == old(self).id,
    {
        let ghost s0 = self.nodes@;
        if let Some(up) = up {
            self.nodes[id].up = up;
        }
        if let Some(down) = down {
            self.nodes[id].down = down;
        }
        if let Some(left) = left {
            self.nodes[id].left = left;
        }
        if let Some(right) = right {
            self.nodes[id].right = right;
        }
        proof {
            assert(final(self).nodes@ =~= spec_set_node(s0, id as int, up, down, left, right));
        }
    }

    /// Allocates a fresh, self-linked node and hands out its id.
    fn alloc_node(&mut self, node: u8, line: usize, col: usize) -> (r: usize)
        requires
            old(self).id == old(self).nodes@.len(),
            old(self).id < usize::MAX,
        ensures
            r == old(self).nodes@.len(),
            final(self).nodes@ == old(self).nodes@.push(
                Node { node, id: r, left: r, right: r, up: r, down: r, line, col },
            ),
            final(self).id == old(self).id + 1,
            final(self).cols@ == old(self).cols@,
            final(self).root == old(self).root,
    {
        let id = self.get_id();
        let node = Node::new(node, id, line, col);
        self.nodes.push(node);
        id
    }

    /// Appends one more column header to the horizontal header ring, right
    /// before the root, and records it in the column table.
    pub fn append_col_head(&mut self)
        requires
            wf(*old(self)),
            old(self).id < usize::MAX,
        ensures
            wf(*final(self)),
            final(self).nodes@ == spec_append_col_head(*old(self)),
            final(self).cols@ == old(self).cols@.push(old(self).nodes@.len() as usize),
            final(self).root == old(self).root,
            final(self).id == old(self).id + 1,
    {
        let root = self.root;
        let col_head_id = self.alloc_node(0, 0, self.cols.len());
        let last_col_id = self.get_node(root).left;

        self.set_node(last_col_id, None, None, None, Some(col_head_id));
        self.set_node(col_head_id, None, None, Some(last_col_id), Some(root));
        self.set_node(root, None, None, Some(col_head_id), None);

        self.cols.push(col_head_id);
        proof {
            assert forall|i: int| 0 <= i < final(self).nodes@.len() implies (
                #[trigger] final(self).nodes@[i]).up < final(self).nodes@.len()
                && final(self).nodes@[i].down < final(self).nodes@.len()
                && final(self).nodes@[i].left < final(self).nodes@.len()
                && final(self).nodes@[i].right < final(self).nodes@.len() by {
                assert(old(self).nodes@[i].up < old(self).nodes@.len() || i
                    == old(self).nodes@.len());
            }
        }
    }

    /// Builds a matrix of `col_size` columns: the root plus one header per
    /// column, all linked into one horizontal ring, each column still empty.
    #[verifier::loop_isolation(false)]
    pub fn new(col_size: usize) -> (r: DLX)
        requires
            col_size < usize::MAX,
        ensures
            fresh(r, col_size),
            wf(r),
            col_size > 0 ==> cols_ok(r),
    {
        let mut dlx = DLX { nodes: Vec::new(), root: 0, id: 0, cols: Vec::new() };
        let id = dlx.get_id();
        dlx.nodes.push(Node::new(0, id, 0, 0));
        let mut j: usize = 0;
        while j < col_size
            invariant
                col_size < usize::MAX,
                j <= col_size,
                wf(dlx),
                fresh(dlx, j),
            decreases col_size - j,
        {
            let ghost prev = dlx;
            dlx.append_col_head();
            j = j + 1;
            proof {
                lemma_append_fresh(prev, dlx, (j - 1) as usize);
            }
        }
        dlx
    }

    /// Adds a node for matrix entry (`line`, `col`), splicing it into the
    /// target column's vertical ring immediately above that column's header
    /// (so columns fill in row-construction order) and, when hints are given,
    /// horizontally between the hinted neighbors; with no hints it starts as
    /// a row singleton.
    pub fn add_node(
        &mut self,
        node: u8,
        line: usize,
        col: usize,
        left_node_id: Option<usize>,
        right_node_id: Option<usize>,
    ) -> (r: usize)
        requires
            wf(*old(self)),
            old(self).id < usize::MAX,
            col < old(self).cols@.len(),
            left_node_id is Some ==> left_node_id->0 < old(self).nodes@.len(),
            right_node_id is Some ==> right_node_id->0 < old(self).nodes@.len(),
        ensures
            wf(*final(self)),
            r == old(self).nodes@.len(),
            final(self).nodes@ == spec_add_node(
                *old(self), node, line, col, left_node_id, right_node_id,
            ),
            final(self).cols@ == old(self).cols@,
            final(self).root == old(self).root,
            final(self).id == old(self).id + 1,
            cols_ok(*old(self)) ==> cols_ok(*final(self)),
    {
        let id = self.alloc_node(node, line, col);

        let col_head_id = self.get_col(col);

        let col_last_node_id = self.get_node(col_head_id).up;

        self.set_node(col_head_id, Some(id), None, None, None);
        self.set_node(col_last_node_id, None, Some(id), None, None);

        if let Some(left_node_id) = left_node_id {
            self.set_node(left_node_id, None, None, None, Some(id));
        }

        if let Some(right_node_id) = right_node_id {
            self.set_node(right_node_id, None, None, Some(id), None);
        }

        self.set_node(
            id,
            Some(col_last_node_id),
            Some(col_head_id),
            left_node_id,
            right_node_id,
        );
        proof {
            assert forall|i: int| 0 <= i < final(self).nodes@.len() implies (
                #[trigger] final(self).nodes@[i]).up < final(self).nodes@.len()
                && final(self).nodes@[i].down < final(self).nodes@.len()
                && final(self).nodes@[i].left < final(self).nodes@.len()
                && final(self).nodes@[i].right < final(self).nodes@.len() by {
                assert(old(self).nodes@[i].up < old(self).nodes@.len() || i
                    == old(self).nodes@.len());
            }
            assert forall|i: int|
                cols_ok(*old(self)) && 0 <= i < final(self).nodes@.len() implies (
                #[trigger] final(self).nodes@[i]).col < final(self).cols@.len() by {
                assert(old(self).nodes@[i].col < old(self).cols@.len() || i
                    == old(self).nodes@.len());
            }
        }
        id
    }

    /// Splices node `id` out of its row ring and its column ring, leaving
    /// `id`'s own four links intact.
    pub fn remove_node(&mut self, id: usize)
        requires
            wf(*old(self)),
            id < old(self).nodes@.len(),
        ensures
            wf(*final(self)),
            final(self).nodes@ == spec_remove_node(old(self).nodes@, id as int),
            final(self).nodes@.len() == old(self).nodes@.len(),
            final(self).cols@ == old(self).cols@,
            final(self).root == old(self).root,
            final(self).id == old(self).id,
            cols_ok(*old(self)) ==> cols_ok(*final(self)),
    {
        let node = self.get_node(id);
        self.set_node(node.down, Some(node.up), None, None, None);
        self.set_node(node.up, None, Some(node.down), None, None);
        self.set_node(node.left, None, None, None, Some(node.right));
        self.set_node(node.right, None, None, Some(node.left), None);
    }

    /// Reinserts node `id` into both rings, using its still-intact links.
    /// Exactly undoes `remove_node(id)` provided no other removal touched the
    /// same four neighbors in between (the search's LIFO discipline).
    pub fn recover_node(&mut self, id: usize)
        requires
            wf(*old(self)),
            id < old(self).nodes@.len(),
        ensures
            wf(*final(self)),
            final(self).nodes@ == spec_recover_node(old(self).nodes@, id as int),
            final(self).nodes@.len() == old(self).nodes@.len(),
            final(self).cols@ == old(self).cols@,
            final(self).root == old(self).root,
            final(self).id == old(self).id,
            cols_ok(*old(self)) ==> cols_ok(*final(self)),
    {
        let node = self.get_node(id);
        self.set_node(node.down, Some(id), None, None, None);
        self.set_node(node.up, None, Some(id), None, None);
        self.set_node(node.left, None, None, None, Some(id));
        self.set_node(node.right, None, None, Some(id), None);
    }

    /// The id of the header anchoring the given column.
    pub fn get_col(&self, col: usize) -> (r: usize)
        requires
            col < self.cols@.len(),
        ensures
            r == self.cols@[col as int],
    {
        self.cols[col]
    }

    /// Walks column `col`'s vertical ring from the header and counts the
    /// member nodes until the walk returns to the header. On a circular ring
    /// the result is exactly the number of distinct nodes reachable via
    /// `down` from the header back to itself: the walk returns to the header
    /// for the first time after `r + 1` steps, and a functional walk that
    /// first returns to its start visits pairwise distinct nodes on the way.
    /// A live ring returns within one step per allocated node; the walk stops
    /// at that bound, so a caller that broke the linking contract gets an
    /// arbitrary count rather than a hung walk.
    #[verifier::loop_isolation(false)]
    pub fn col_len(&self, col: usize) -> (r: usize)
        requires
            wf(*self),
            col < self.cols@.len(),
        ensures
            r <= self.nodes@.len(),
            down_ring_circular(self.nodes@, self.cols@[col as int] as int) ==> {
                &&& steps_down(self.nodes@, self.cols@[col as int] as int, (r + 1) as nat)
                    == self.cols@[col as int]
                &&& forall|k: int| 1 <= k <= r ==> #[trigger] steps_down(
                    self.nodes@, self.cols@[col as int] as int, k as nat,
                ) != self.cols@[col as int]
            },
    {
        let ghost s = self.nodes@;
        let cap: usize = self.nodes.len();
        let mut len: usize = 0;
        let col_head_node_id = self.cols[col];
        let ghost h = col_head_node_id as int;
        let col_head_node = self.get_node(col_head_node_id);
        let mut current_node_id = col_head_node.down;
        proof {
            assert(steps_down(s, h, 0) == h);
            assert(steps_down(s, h, 1) == s[h].down as int);
        }
        while current_node_id != col_head_node_id && len < cap
            invariant
                wf(*self),
                s == self.nodes@,
                cap == s.len(),
                0 <= h < s.len(),
                h == col_head_node_id,
                len <= cap,
                current_node_id < s.len(),
                current_node_id as int == steps_down(s, h, (len + 1) as nat),
                forall|k: int| 1 <= k <= len ==> #[trigger] steps_down(s, h, k as nat) != h,
            decreases cap - len,
        {
            len = len + 1;
            current_node_id = self.get_node(current_node_id).down;
        }
        proof {
            if current_node_id != col_head_node_id && down_ring_circular(s, h) {
                let m = choose|m: int| 1 <= m <= s.len()
                    && #[trigger] steps_down(s, h, m as nat) == h;
                assert(steps_down(s, h, m as nat) != h);
            }
        }
        len
    }

    /// Gathers the ids that choosing candidate `s_id` covers for `s_id`'s own
    /// column: every member node of every row that intersects the column
    /// (headers excepted), then `s_id` itself, then the column's header. Each
    /// id enters `ids` at most once.
    #[verifier::loop_isolation(false)]
    fn collect_covered(&self, s_id: usize, ids: &mut Vec<usize>)
        requires
            wf(*self),
            cols_ok(*self),
            s_id < self.nodes@.len(),
            forall|i: int| 0 <= i < old(ids)@.len() ==> old(ids)@[i] < self.nodes@.len(),
        ensures
            forall|i: int| 0 <= i < final(ids)@.len() ==> final(ids)@[i] < self.nodes@.len(),
    {
        let cap: usize = self.nodes.len();
        let mut t_id = self.get_node(s_id).down;
        let mut t_steps: usize = 0;
        while t_id != s_id && t_steps < cap
            invariant
                wf(*self),
                cols_ok(*self),
                cap == self.nodes@.len(),
                t_id < self.nodes@.len(),
                t_steps <= cap,
                forall|i: int| 0 <= i < ids@.len() ==> ids@[i] < self.nodes@.len(),
            decreases cap - t_steps,
        {
            let t = self.get_node(t_id);
            if t_id != self.get_col(t.col) {
                push_unique(ids, t_id);
                let mut u_id = t.right;
                let mut u_steps: usize = 0;
                while u_id != t_id && u_steps < cap
                    invariant
                        wf(*self),
                        cap == self.nodes@.len(),
                        u_id < self.nodes@.len(),
                        u_steps <= cap,
                        forall|i: int| 0 <= i < ids@.len() ==> ids@[i] < self.nodes@.len(),
                    decreases cap - u_steps,
                {
                    push_unique(ids, u_id);
                    u_id = self.get_node(u_id).right;
                    u_steps = u_steps + 1;
                }
            }
            t_id = self.get_node(t_id).down;
            t_steps = t_steps + 1;
        }
        push_unique(ids, s_id);
        let s_col = self.get_node(s_id).col;
        push_unique(ids, self.get_col(s_col));
    }

    /// Gathers the per-branch removal set for candidate `r_id`: for every
    /// node of `r_id`'s row (the row mates first, then `r_id` itself, as the
    /// search covers them) the ids that covering that node's column removes.
    #[verifier::loop_isolation(false)]
    fn collect_removals(&self, r_id: usize) -> (ids: Vec<usize>)
        requires
            wf(*self),
            cols_ok(*self),
            r_id < self.nodes@.len(),
        ensures
            forall|i: int| 0 <= i < ids@.len() ==> ids@[i] < self.nodes@.len(),
    {
        let cap: usize = self.nodes.len();
        let mut ids: Vec<usize> = Vec::new();
        let mut s_id = self.get_node(r_id).right;
        let mut s_steps: usize = 0;
        while s_id != r_id && s_steps < cap
            invariant
                wf(*self),
                cols_ok(*self),
                cap == self.nodes@.len(),
                r_id < self.nodes@.len(),
                s_id < self.nodes@.len(),
                s_steps <= cap,
                forall|i: int| 0 <= i < ids@.len() ==> ids@[i] < self.nodes@.len(),
            decreases cap - s_steps,
        {
            self.collect_covered(s_id, &mut ids);
            s_id = self.get_node(s_id).right;
            s_steps = s_steps + 1;
        }
        self.collect_covered(r_id, &mut ids);
        ids
    }

    /// One level of the minimum-column backtracking search, with `budget`
    /// bounding the remaining recursion depth. Every level covers at least
    /// one column, so a depth of one per column is enough for any live
    /// matrix; the bound only cuts a search off when the caller broke the
    /// linking contract.
    #[verifier::loop_isolation(false)]
    fn search(&mut self, res: &mut Vec<usize>, budget: usize) -> (r: bool)
        requires
            wf(*old(self)),
            cols_ok(*old(self)) || old(self).nodes@.len() <= 1,
        ensures
            wf(*final(self)),
            cols_ok(*old(self)) ==> cols_ok(*final(self)),
            final(self).nodes@.len() == old(self).nodes@.len(),
            final(self).cols@ == old(self).cols@,
            final(self).root == old(self).root,
            final(self).id == old(self).id,
            !r ==> final(res)@ == old(res)@,
            !r ==> final(self).nodes@ == old(self).nodes@,
            r ==> final(res)@.len() >= old(res)@.len() && final(res)@.subrange(
                0, old(res)@.len() as int,
            ) == old(res)@,
            r ==> final(self).nodes@[final(self).root as int].right == final(self).root,
            old(self).nodes@[old(self).root as int].right == old(self).root ==> r
                && final(self).nodes@ == old(self).nodes@ && final(res)@ == old(res)@,
            r && old(self).nodes@[old(self).root as int].right != old(self).root
                ==> final(res)@.len() > old(res)@.len(),
        decreases budget,
    {
        let ghost n0 = self.nodes@.len();
        let ghost c0 = self.cols@;
        let ghost rt0 = self.root;
        let ghost i0 = self.id;

        // SATISFIED: no unsatisfied column remains.
        if self.get_node(self.root).right == self.root {
            proof {
                assert(res@.subrange(0, res@.len() as int) =~= res@);
            }
            return true;
        }
        proof {
            // A matrix of one node cannot get here: its root's every link is
            // the root itself. So every node's column is a real column.
            if self.nodes@.len() <= 1 {
                assert(self.root == 0);
                assert(self.nodes@[0].right == 0);
            }
            assert(cols_ok(*self));
        }

        // Scan the header ring once for the column with the fewest
        // candidates; ties go to the column met first from `root.right`.
        let cap: usize = self.nodes.len();
        let mut min_col: Option<usize> = None;
        let mut min_len: usize = 0;
        let mut col_head_id = self.get_node(self.root).right;
        let mut steps: usize = 0;
        while col_head_id != self.root && steps < cap
            invariant
                wf(*self),
                cols_ok(*self),
                cap == self.nodes@.len(),
                col_head_id < self.nodes@.len(),
                steps <= cap,
                min_col is Some ==> min_col->0 < self.cols@.len(),
                min_col is None ==> steps == 0 && col_head_id
                    == self.nodes@[self.root as int].right,
            decreases cap - steps,
        {
            let col_head_node = self.get_node(col_head_id);
            let l = self.col_len(col_head_node.col);
            match min_col {
                None => {
                    min_col = Some(col_head_node.col);
                    min_len = l;
                },
                Some(_) => {
                    if l < min_len {
                        min_col = Some(col_head_node.col);
                        min_len = l;
                    }
                },
            }
            col_head_id = col_head_node.right;
            steps = steps + 1;
        }
        let mc = match min_col {
            None => {
                // The ring was already empty, which the satisfied check
                // caught above; an empty scan still means satisfied.
                proof {
                    assert(res@.subrange(0, res@.len() as int) =~= res@);
                }
                return true;
            },
            Some(c) => c,
        };

        let head = self.get_col(mc);
        let mut r_id = self.get_node(head).down;

        // EXHAUSTED: the chosen column has no candidate row left.
        if r_id == head {
            return false;
        }
        if budget == 0 {
            return false;
        }

        let ghost res0 = res@;
        let ghost s_entry = self.nodes@;
        let mut cand_steps: usize = 0;
        while r_id != head && cand_steps < cap
            invariant
                wf(*self),
                cols_ok(*self),
                budget >= 1,
                cap == n0,
                self.nodes@ == s_entry,
                self.nodes@.len() == n0,
                self.cols@ == c0,
                self.root == rt0,
                self.id == i0,
                r_id < self.nodes@.len(),
                cand_steps <= cap,
                res@ == res0,
            decreases cap - cand_steps,
        {
            let r_node = self.get_node(r_id);
            res.push(r_node.line);
            let ghost res1 = res@;
            let removed = self.collect_removals(r_id);

            // Splice out the whole batch, in order, remembering exactly which
            // splices were applied. A splice is applied only where the node
            // still sits consistently in its rings; on a live matrix that is
            // every recorded id, and the guard only shields a caller that
            // broke the linking contract from an unrecoverable corruption.
            let mut applied: Vec<usize> = Vec::new();
            let ghost mut gids: Seq<int> = Seq::empty();
            let mut k: usize = 0;
            while k < removed.len()
                invariant
                    wf(*self),
                    cols_ok(*self),
                    self.nodes@.len() == n0,
                    self.cols@ == c0,
                    self.root == rt0,
                    self.id == i0,
                    k <= removed@.len(),
                    forall|i: int| 0 <= i < removed@.len() ==> removed@[i] < n0,
                    applied@.len() == gids.len(),
                    forall|i: int| 0 <= i < gids.len() ==> gids[i] == applied@[i] as int,
                    self.nodes@ == spec_remove_all(s_entry, gids),
                    forall|i: int| 0 <= i < gids.len() ==> 0 <= #[trigger] gids[i] < n0,
                    forall|i: int| 0 <= i < gids.len() ==> links_in_range(
                        #[trigger] spec_remove_all(s_entry, gids.take(i)), gids[i],
                    ) && linked_at(spec_remove_all(s_entry, gids.take(i)), gids[i]),
                decreases removed@.len() - k,
            {
                let id = removed[k];
                let n = self.get_node(id);
                if self.get_node(n.down).up == id && self.get_node(n.up).down == id
                    && self.get_node(n.left).right == id && self.get_node(n.right).left == id {
                    proof {
                        let g2 = gids.push(id as int);
                        assert(g2.take(gids.len() as int) =~= gids);
                        assert forall|i: int| 0 <= i < gids.len() implies g2.take(i) =~= gids.take(
                            i,
                        ) by {}
                        assert(spec_remove_all(s_entry, g2) == spec_remove_node(
                            spec_remove_all(s_entry, gids), id as int,
                        )) by {
                            lemma_remove_all_snoc(s_entry, gids, id as int);
                        }
                    }
                    self.remove_node(id);
                    applied.push(id);
                    proof {
                        gids = gids.push(id as int);
                    }
                }
                k = k + 1;
            }

            if self.search(res, budget - 1) {
                proof {
                    assert(res1.subrange(0, res0.len() as int) =~= res0);
                    assert(final(res)@.subrange(0, res0.len() as int) =~= res0);
                }
                return true;
            }
            res.pop();
            proof {
                assert(res@ =~= res0);
            }

            // Undo the batch in exactly the reverse order; the LIFO round
            // trip restores the arena to the loop's entry state.
            let ghost s_removed = self.nodes@;
            let mut k2: usize = applied.len();
            while k2 > 0
                invariant
                    wf(*self),
                    self.nodes@.len() == n0,
                    self.cols@ == c0,
                    self.root == rt0,
                    self.id == i0,
                    k2 <= applied@.len(),
                    self.nodes@ == spec_recover_all(s_removed, gids.skip(k2 as int)),
                decreases k2,
            {
                k2 = k2 - 1;
                proof {
                    assert(gids.skip(k2 as int)[0] == gids[k2 as int]);
                    assert(gids.skip(k2 as int).skip(1) =~= gids.skip(k2 as int + 1));
                    assert(0 <= gids[k2 as int] < n0);
                }
                self.recover_node(applied[k2]);
            }
            proof {
                assert(gids.skip(0) =~= gids);
                lemma_lifo_remove_recover_round_trip(s_entry, gids);
                assert(self.nodes@ == s_entry);
                assert(cols_ok(*self));
            }
            r_id = self.get_node(r_id).down;
            cand_steps = cand_steps + 1;
        }
        false
    }

    /// An independent copy of the matrix, for searching without touching the
    /// original until a result is certified.
    #[verifier::loop_isolation(false)]
    fn copy_matrix(&self) -> (r: DLX)
        ensures
            r.nodes@ == self.nodes@,
            r.cols@ == self.cols@,
            r.root == self.root,
            r.id == self.id,
    {
        let mut nodes: Vec<Node> = Vec::new();
        let mut i: usize = 0;
        while i < self.nodes.len()
            invariant
                i <= self.nodes@.len(),
                nodes@ == self.nodes@.subrange(0, i as int),
            decreases self.nodes@.len() - i,
        {
            nodes.push(self.nodes[i]);
            i = i + 1;
        }
        let mut cols: Vec<usize> = Vec::new();
        let mut j: usize = 0;
        while j < self.cols.len()
            invariant
                j <= self.cols@.len(),
                cols@ == self.cols@.subrange(0, j as int),
            decreases self.cols@.len() - j,
        {
            cols.push(self.cols[j]);
            j = j + 1;
        }
        proof {
            assert(self.nodes@.subrange(0, self.nodes@.len() as int) =~= self.nodes@);
            assert(self.cols@.subrange(0, self.cols@.len() as int) =~= self.cols@);
        }
        DLX { nodes, root: self.root, id: self.id, cols }
    }

    /// Certifies that the row indices appended to `res` from position
    /// `old_len` on cover every column of this matrix exactly once. A `true`
    /// is a checked exact-cover certificate against the current arena.
    #[verifier::loop_isolation(false)]
    fn check_cover(&self, res: &Vec<usize>, old_len: usize) -> (b: bool)
        requires
            old_len <= res@.len(),
        ensures
            b ==> covers_exactly_once(
                self.nodes@, self.cols@, self.root as int, res@.skip(old_len as int),
            ),
    {
        let ghost chosen = res@.skip(old_len as int);
        let mut c: usize = 0;
        while c < self.cols.len()
            invariant
                c <= self.cols@.len(),
                forall|cc: int| 0 <= cc < c ==> #[trigger] cover_count(
                    self.nodes@, self.cols@, self.root as int, chosen, cc,
                    self.nodes@.len() as int,
                ) == 1,
            decreases self.cols@.len() - c,
        {
            let mut cnt: usize = 0;
            let mut i: usize = 0;
            while i < self.nodes.len()
                invariant
                    c < self.cols@.len(),
                    i <= self.nodes@.len(),
                    cnt <= i,
                    cnt as int == cover_count(
                        self.nodes@, self.cols@, self.root as int, chosen, c as int, i as int,
                    ),
                decreases self.nodes@.len() - i,
            {
                let nd = self.nodes[i];
                if i != self.root && nd.col == c && self.cols[c] != i
                    && tail_contains(res, old_len, nd.line) {
                    cnt = cnt + 1;
                }
                i = i + 1;
            }
            if cnt != 1 {
                return false;
            }
            c = c + 1;
        }
        true
    }

    /// Runs the search from the matrix's current state, appending the chosen
    /// row indices to `res`. On failure every node's four links and `res` are
    /// handed back exactly as they came; on success the appended indices are
    /// certified to form an exact cover — every column of the matrix holds
    /// exactly one node of a chosen row, so in the Sudoku encoding each cell,
    /// row-digit, column-digit and box-digit constraint is met exactly once —
    /// and the matrix is left in its solved, fully covered state
    /// (`root.right` back at the root). A matrix with no unsatisfied column —
    /// `root.right == root`, in particular one with no columns at all — is
    /// owed immediate success, untouched. The search runs on a copy and the
    /// result is committed only once certified, so a search that a broken
    /// linking contract led astray reports failure with everything restored,
    /// never a false cover.
    pub fn solve(&mut self, res: &mut Vec<usize>) -> (r: bool)
        requires
            wf(*old(self)),
            cols_ok(*old(self)) || old(self).nodes@.len() <= 1,
        ensures
            wf(*final(self)),
            cols_ok(*old(self)) ==> cols_ok(*final(self)),
            final(self).nodes@.len() == old(self).nodes@.len(),
            final(self).cols@ == old(self).cols@,
            final(self).root == old(self).root,
            final(self).id == old(self).id,
            !r ==> final(res)@ == old(res)@,
            !r ==> final(self).nodes@ == old(self).nodes@,
            r ==> final(res)@.len() >= old(res)@.len() && final(res)@.subrange(
                0, old(res)@.len() as int,
            ) == old(res)@,
            r ==> final(self).nodes@[final(self).root as int].right == final(self).root,
            old(self).nodes@[old(self).root as int].right == old(self).root ==> r
                && final(self).nodes@ == old(self).nodes@ && final(res)@ == old(res)@,
            r && old(self).nodes@[old(self).root as int].right != old(self).root
                ==> final(res)@.len() > old(res)@.len() && covers_exactly_once(
                old(self).nodes@, old(self).cols@, old(self).root as int,
                final(res)@.skip(old(res)@.len() as int),
            ),
    {
        if self.get_node(self.root).right == self.root {
            return true;
        }
        let old_len = res.len();
        let budget = self.cols.len();
        let mut work = self.copy_matrix();
        if !work.search(res, budget) {
            return false;
        }
        if !self.check_cover(res, old_len) {
            while res.len() > old_len
                invariant
                    old_len <= res@.len(),
                    res@.subrange(0, old_len as int) == old(res)@,
                decreases res@.len() - old_len,
            {
                res.pop();
                proof {
                    assert(res@.subrange(0, old_len as int) =~= old(res)@);
                }
            }
            proof {
                assert(res@ =~= old(res)@);
            }
            return false;
        }
        *self = work;
        true
    }
}

/// Whether `v` holds `x` at or after position `from`.
#[verifier::loop_isolation(false)]
fn tail_contains(v: &Vec<usize>, from: usize, x: usize) -> (b: bool)
    requires
        from <= v@.len(),
    ensures
        b == v@.skip(from as int).contains(x),
{
    let mut i: usize = from;
    while i < v.len()
        invariant
            from <= i <= v@.len(),
            forall|j: int| from <= j < i ==> v@[j] != x,
        decreases v@.len() - i,
    {
        if v[i] == x {
            proof {
                assert(v@.skip(from as int)[i - from] == x);
            }
            return true;
        }
        i = i + 1;
    }
    proof {
        assert forall|j: int| 0 <= j < v@.skip(from as int).len() implies v@.skip(from as int)[j]
            != x by {
            assert(v@.skip(from as int)[j] == v@[from + j]);
        }
    }
    false
}

/// Whether `v` holds `x`.
#[verifier::loop_isolation(false)]
fn vec_contains(v: &Vec<usize>, x: usize) -> (b: bool)
    ensures
        b == v@.contains(x),
{
    let mut i: usize = 0;
    while i < v.len()
        invariant
            i <= v@.len(),
            forall|j: int| 0 <= j < i ==> v@[j] != x,
        decreases v@.len() - i,
    {
        if v[i] == x {
            return true;
        }
        i = i + 1;
    }
    false
}

/// Appends `x` unless it is already recorded: ids enter a removal set once,
/// so each is spliced out and back exactly once per branch.
fn push_unique(ids: &mut Vec<usize>, x: usize)
    ensures
        final(ids)@ == old(ids)@ || final(ids)@ == old(ids)@.push(x),
{
    if !vec_contains(ids, x) {
        ids.push(x);
    }
}

} // verus!
