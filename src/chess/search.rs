use vstd::prelude::*;
use crate::chess::position::{lemma_successor_well_formed, Color, State};
use crate::seqs::lemma_prefix_contains;
use vstd::set_lib::{lemma_int_range, lemma_len_subset, set_int_range};

verus! {

/// The number of distinct keys of positions.
pub const KEY_SPACE: usize = 2 * 64 * 64 * 64;

/// A distinct number below `KEY_SPACE` for each well-formed position.
pub open spec fn key_of(s: State) -> int {
    (((if s.turn == Color::White { 1int } else { 0int }) * 64 + s.bk()) * 64 + s.wk()) * 64
        + s.rook()
}

proof fn lemma_digits_unique(hi1: int, lo1: int, hi2: int, lo2: int)
    requires
        0 <= lo1 < 64,
        0 <= lo2 < 64,
        hi1 * 64 + lo1 == hi2 * 64 + lo2,
    ensures
        hi1 == hi2,
        lo1 == lo2,
{
    assert(hi1 == hi2 && lo1 == lo2) by (nonlinear_arith)
        requires
            0 <= lo1 < 64,
            0 <= lo2 < 64,
            hi1 * 64 + lo1 == hi2 * 64 + lo2,
    ;
}

/// Keys of well-formed positions lie below `KEY_SPACE` and tell positions apart.
pub proof fn lemma_key_injective(s: State, t: State)
    requires
        s.well_formed(),
        t.well_formed(),
    ensures
        0 <= key_of(s) < KEY_SPACE,
        key_of(s) == key_of(t) ==> s == t,
{
    let ts: int = if s.turn == Color::White { 1 } else { 0 };
    let tt: int = if t.turn == Color::White { 1 } else { 0 };
    assert(0 <= key_of(s) < KEY_SPACE) by (nonlinear_arith)
        requires
            key_of(s) == ((ts * 64 + s.bk()) * 64 + s.wk()) * 64 + s.rook(),
            0 <= ts <= 1,
            0 <= s.bk() < 64,
            0 <= s.wk() < 64,
            0 <= s.rook() < 64,
    ;
    if key_of(s) == key_of(t) {
        lemma_digits_unique((ts * 64 + s.bk()) * 64 + s.wk(), s.rook(), (tt * 64 + t.bk()) * 64 + t.wk(), t.rook());
        lemma_digits_unique(ts * 64 + s.bk(), s.wk(), tt * 64 + t.bk(), t.wk());
        lemma_digits_unique(ts, s.bk(), tt, t.bk());
        assert(s.turn == t.turn);
    }
}

/// The key of a well-formed position.
pub fn state_key(s: &State) -> (r: usize)
    requires
        s.well_formed(),
    ensures
        r as int == key_of(*s),
{
    proof {
        lemma_key_injective(*s, *s);
    }
    let side: usize = match s.turn {
        Color::White => 1,
        Color::Black => 0,
    };
    ((side * 64 + s.black_king_pos as usize) * 64 + s.white_king_pos as usize) * 64
        + s.white_rook_pos as usize
}

/// A sequence of positions, each reached from the one before by a legal move.
pub open spec fn is_play(p: Seq<State>) -> bool {
    p.len() >= 1 && forall|i: int| 0 <= i < p.len() - 1 ==> #[trigger] p[i].is_successor(p[i + 1])
}

/// The outcome of a search.
#[derive(Debug)]
pub enum TraversalResult {
    /// No checkmate can be reached.
    Inf,
    /// A play from the start position to a checkmate.
    CheckMate(Vec<State>),
}

proof fn lemma_play_prepend(x: State, p: Seq<State>)
    requires
        is_play(p),
        x.is_successor(p[0]),
    ensures
        is_play(p.insert(0, x)),
        p.insert(0, x)[0] == x,
        p.insert(0, x).last() == p.last(),
{
    let q = p.insert(0, x);
    assert forall|i: int| 0 <= i < q.len() - 1 implies #[trigger] q[i].is_successor(q[i + 1]) by {
        if i > 0 {
            assert(q[i] == p[i - 1]);
            assert(q[i + 1] == p[i]);
            assert(p[i - 1].is_successor(p[(i - 1) + 1]));
        }
    }
}

/// A set of positions that holds every successor of its members holds every
/// position of a play that starts in it.
proof fn lemma_play_stays_inside(nodes: Seq<State>, p: Seq<State>, k: int)
    requires
        is_play(p),
        nodes.contains(p[0]),
        0 <= k < p.len(),
        forall|i: int, t: State|
            0 <= i < nodes.len() && #[trigger] nodes[i].is_successor(t) ==> nodes.contains(t),
    ensures
        nodes.contains(p[k]),
    decreases k,
{
    if k > 0 {
        lemma_play_stays_inside(nodes, p, k - 1);
        let i = choose|i: int| 0 <= i < nodes.len() && nodes[i] == p[k - 1];
        assert(p[k - 1].is_successor(p[(k - 1) + 1]));
        assert(nodes[i].is_successor(p[k]));
    }
}

/// The positions found so far by a breadth-first search, in the order found,
/// each with the index of the position it was found from.
struct Search {
    visited: Vec<bool>,
    nodes: Vec<State>,
    parents: Vec<usize>,
    seen: Ghost<Set<int>>,
    depth: Ghost<Seq<int>>,
}

impl Search {
    /// The position at `i` was found from an earlier one, by a legal move, one
    /// move deeper.
    spec fn parent_ok(&self, i: int) -> bool {
        &&& self.parents@[i] < i
        &&& self.nodes@[self.parents@[i] as int].is_successor(self.nodes@[i])
        &&& self.depth@[i] == self.depth@[self.parents@[i] as int] + 1
    }

    #[verifier::opaque]
    spec fn inv(&self) -> bool {
        &&& self.nodes.len() == self.parents.len()
        &&& self.depth@.len() == self.nodes.len()
        &&& self.depth@[0] == 0
        &&& 1 <= self.nodes.len() <= KEY_SPACE
        &&& self.visited.len() == KEY_SPACE
        &&& forall|i: int| 0 <= i < self.nodes.len() ==> (#[trigger] self.nodes@[i]).well_formed()
        &&& forall|i: int| 0 < i < self.nodes.len() ==> #[trigger] self.parent_ok(i)
        &&& forall|i: int|
            0 <= i < self.nodes.len() ==> self.visited@[key_of(#[trigger] self.nodes@[i])]
        &&& forall|k: int|
            0 <= k < KEY_SPACE && #[trigger] self.visited@[k] ==> exists|i: int|
                0 <= i < self.nodes.len() && key_of(self.nodes@[i]) == k
        &&& self.seen@.finite()
        &&& self.seen@.len() == self.nodes.len()
        &&& self.seen@.subset_of(set_int_range(0, KEY_SPACE as int))
        &&& forall|k: int|
            0 <= k < KEY_SPACE ==> (#[trigger] self.visited@[k] <==> self.seen@.contains(k))
    }

    fn new(root: State) -> (r: Search)
        requires
            root.well_formed(),
        ensures
            r.inv(),
            r.nodes@ == seq![root],
    {
        let mut visited: Vec<bool> = Vec::new();
        let mut k: usize = 0;
        while k < KEY_SPACE
            invariant
                visited.len() == k,
                k <= KEY_SPACE,
                forall|i: int| 0 <= i < k ==> !#[trigger] visited@[i],
            decreases KEY_SPACE - k,
        {
            visited.push(false);
            k = k + 1;
        }
        let mut nodes: Vec<State> = Vec::new();
        let mut parents: Vec<usize> = Vec::new();
        nodes.push(root);
        parents.push(0);
        let root_key = state_key(&root);
        visited.set(root_key, true);
        proof {
            lemma_key_injective(root, root);
            assert forall|k: int| 0 <= k < KEY_SPACE && #[trigger] visited@[k] implies exists|i: int|
                0 <= i < nodes.len() && key_of(nodes@[i]) == k by {
                assert(key_of(nodes@[0]) == k);
            }
        }
        let r = Search {
            visited,
            nodes,
            parents,
            seen: Ghost(Set::empty().insert(root_key as int)),
            depth: Ghost(Seq::empty().push(0int)),
        };
        assert(r.nodes@ =~= seq![root]);
        proof {
            reveal(Search::inv);
        }
        r
    }

    /// The position found at index `i`.
    fn node(&self, i: usize) -> (r: State)
        requires
            self.inv(),
            i < self.nodes.len(),
        ensures
            r == self.nodes@[i as int],
            r.well_formed(),
    {
        proof {
            reveal(Search::inv);
        }
        self.nodes[i]
    }

    proof fn lemma_bounded(&self)
        requires
            self.inv(),
        ensures
            1 <= self.nodes.len() <= KEY_SPACE,
            self.depth@.len() == self.nodes.len(),
            self.depth@[0] == 0,
    {
        reveal(Search::inv);
    }

    /// Records `t`, a successor of the position at `parent`, unless it was
    /// found before.
    fn discover(&mut self, parent: usize, t: State)
        requires
            old(self).inv(),
            parent < old(self).nodes.len(),
            old(self).nodes@[parent as int].is_successor(t),
        ensures
            final(self).inv(),
            final(self).nodes@.contains(t),
            old(self).nodes.len() <= final(self).nodes.len(),
            forall|i: int|
                0 <= i < old(self).nodes.len() ==> #[trigger] final(self).nodes@[i] == old(
                    self,
                ).nodes@[i],
            forall|i: int|
                0 <= i < old(self).nodes.len() ==> #[trigger] final(self).depth@[i] == old(
                    self,
                ).depth@[i],
            final(self).nodes.len() == old(self).nodes.len() || (final(self).nodes.len()
                == old(self).nodes.len() + 1 && final(self).depth@[old(self).nodes.len() as int]
                == old(self).depth@[parent as int] + 1),
    {
        proof {
            reveal(Search::inv);
            lemma_successor_well_formed(self.nodes@[parent as int], t);
            lemma_key_injective(t, t);
        }
        let kt = state_key(&t);
        if !self.visited[kt] {
            let ghost before = *self;
            self.visited.set(kt, true);
            self.nodes.push(t);
            self.parents.push(parent);
            self.seen = Ghost(self.seen@.insert(kt as int));
            self.depth = Ghost(self.depth@.push(self.depth@[parent as int] + 1));
            proof {
                lemma_discover_keeps_inv(before, *self, parent, t);
            }
        } else {
            proof {
                let i = choose|i: int| 0 <= i < self.nodes.len() && key_of(self.nodes@[i]) == kt;
                lemma_key_injective(self.nodes@[i], t);
                assert(self.nodes@.contains(t));
            }
        }
    }

    /// The play from the first position found to the one at `idx`, following
    /// the recorded parents.
    fn path_to(&self, idx: usize) -> (r: Vec<State>)
        requires
            self.inv(),
            idx < self.nodes.len(),
        ensures
            is_play(r@),
            r@[0] == self.nodes@[0],
            r@.last() == self.nodes@[idx as int],
            r@.len() == self.depth@[idx as int] + 1,
    {
        proof {
            reveal(Search::inv);
        }
        let mut path: Vec<State> = Vec::new();
        path.push(self.nodes[idx]);
        let mut cur: usize = idx;
        while cur != 0
            invariant
                self.inv(),
                cur < self.nodes.len(),
                idx < self.nodes.len(),
                is_play(path@),
                path@[0] == self.nodes@[cur as int],
                path@.last() == self.nodes@[idx as int],
                path@.len() == self.depth@[idx as int] - self.depth@[cur as int] + 1,
            decreases cur,
        {
            proof {
                reveal(Search::inv);
                assert(self.parent_ok(cur as int));
            }
            let p = self.parents[cur];
            proof {
                lemma_play_prepend(self.nodes@[p as int], path@);
            }
            path.insert(0, self.nodes[p]);
            cur = p;
        }
        proof {
            reveal(Search::inv);
        }
        path
    }
}

/// Adding a position not found before, with its parent, keeps the search's
/// bookkeeping consistent.
proof fn lemma_discover_keeps_inv(before: Search, after: Search, parent: usize, t: State)
    requires
        before.inv(),
        t.well_formed(),
        parent < before.nodes.len(),
        before.nodes@[parent as int].is_successor(t),
        0 <= key_of(t) < KEY_SPACE,
        !before.visited@[key_of(t)],
        after.nodes@ == before.nodes@.push(t),
        after.parents@ == before.parents@.push(parent),
        after.visited@ == before.visited@.update(key_of(t), true),
        after.seen@ == before.seen@.insert(key_of(t)),
        after.depth@ == before.depth@.push(before.depth@[parent as int] + 1),
    ensures
        after.inv(),
        after.nodes@.contains(t),
{
    reveal(Search::inv);
    let kt = key_of(t);
    let old_nodes = before.nodes@;
    let old_parents = before.parents@;
    assert(!before.seen@.contains(kt));
    lemma_int_range(0, KEY_SPACE as int);
    lemma_len_subset(after.seen@, set_int_range(0, KEY_SPACE as int));
    assert(after.nodes@[after.nodes.len() - 1] == t);
    assert forall|i: int| 0 <= i < after.nodes.len() implies (#[trigger] after.nodes@[i]).well_formed() by {
        if i < old_nodes.len() {
            assert(after.nodes@[i] == old_nodes[i]);
        }
    }
    assert forall|i: int| 0 < i < after.nodes.len() implies #[trigger] after.parent_ok(i) by {
        if i < old_nodes.len() {
            assert(before.parent_ok(i));
            assert(after.depth@[i] == before.depth@[i]);
            assert(after.depth@[old_parents[i] as int] == before.depth@[old_parents[i] as int]);
            assert(after.nodes@[i] == old_nodes[i]);
            assert(after.parents@[i] == old_parents[i]);
            assert(old_nodes[old_parents[i] as int].is_successor(old_nodes[i]));
            assert(after.nodes@[old_parents[i] as int] == old_nodes[old_parents[i] as int]);
        } else {
            assert(after.nodes@[parent as int] == old_nodes[parent as int]);
        }
    }
    assert forall|i: int|
        0 <= i < after.nodes.len() implies after.visited@[key_of(#[trigger] after.nodes@[i])] by {
        if i < old_nodes.len() {
            assert(after.nodes@[i] == old_nodes[i]);
        }
    }
    assert forall|k: int|
        0 <= k < KEY_SPACE && #[trigger] after.visited@[k] implies exists|i: int|
            0 <= i < after.nodes.len() && key_of(after.nodes@[i]) == k by {
        if k != kt {
            assert(before.visited@[k]);
            let i = choose|i: int| 0 <= i < old_nodes.len() && key_of(old_nodes[i]) == k;
            assert(after.nodes@[i] == old_nodes[i]);
        } else {
            assert(key_of(after.nodes@[after.nodes.len() - 1]) == k);
        }
    }
    assert forall|k: int|
        0 <= k < KEY_SPACE implies (#[trigger] after.visited@[k] <==> after.seen@.contains(k)) by {
    }
}

/// Position `u` was found at depth at most `bound`.
spec fn found_within(nodes: Seq<State>, depth: Seq<int>, u: State, bound: int) -> bool {
    exists|j: int| 0 <= j < nodes.len() && nodes[j] == u && depth[j] <= bound
}

/// One discovery step keeps the found depths in order and at most one above
/// the depth of the position being expanded.
proof fn lemma_bfs_step(
    on: Seq<State>,
    od: Seq<int>,
    nn: Seq<State>,
    nd: Seq<int>,
    head: int,
    t: State,
)
    requires
        od.len() == on.len(),
        nd.len() == nn.len(),
        0 <= head < on.len(),
        on.len() <= nn.len() <= on.len() + 1,
        forall|i: int| 0 <= i < on.len() ==> #[trigger] nn[i] == on[i],
        forall|i: int| 0 <= i < on.len() ==> #[trigger] nd[i] == od[i],
        nn.len() == on.len() + 1 ==> nd[on.len() as int] == od[head] + 1,
        nn.contains(t),
        forall|i: int, j: int| 0 <= i <= j < on.len() ==> od[i] <= od[j],
        od[on.len() - 1] <= od[head] + 1,
    ensures
        forall|i: int, j: int| 0 <= i <= j < nn.len() ==> nd[i] <= nd[j],
        nd[nn.len() - 1] <= nd[head] + 1,
        found_within(nn, nd, t, nd[head] + 1),
        forall|u: State, b: int| #[trigger] found_within(on, od, u, b) ==> found_within(nn, nd, u, b),
{
    assert forall|i: int, j: int| 0 <= i <= j < nn.len() implies nd[i] <= nd[j] by {
        if j >= on.len() {
            if i < on.len() {
                assert(od[i] <= od[on.len() - 1]);
            }
        }
    }
    let jj = choose|jj: int| 0 <= jj < nn.len() && nn[jj] == t;
    assert(nd[jj] <= nd[nn.len() - 1]);
    assert forall|u: State, b: int| #[trigger] found_within(on, od, u, b) implies found_within(nn, nd, u, b) by {
        let j = choose|j: int| 0 <= j < on.len() && on[j] == u && od[j] <= b;
        assert(nn[j] == u && nd[j] == od[j]);
    }
}

/// In a breadth-first order, every play from the root shorter than the depth
/// of position `h` runs through positions found before `h`, at most as deep as
/// the play is long.
proof fn lemma_short_plays_found_early(
    nodes: Seq<State>,
    depth: Seq<int>,
    h: int,
    p: Seq<State>,
    k: int,
)
    requires
        0 <= h < nodes.len(),
        depth.len() == nodes.len(),
        nodes[0] == p[0],
        depth[0] == 0,
        is_play(p),
        0 <= k < p.len(),
        k < depth[h],
        forall|i: int, j: int| 0 <= i <= j < nodes.len() ==> depth[i] <= depth[j],
        forall|i: int, t: State|
            0 <= i < h && #[trigger] nodes[i].is_successor(t) ==> found_within(
                nodes,
                depth,
                t,
                depth[i] + 1,
            ),
    ensures
        exists|i: int| 0 <= i < h && nodes[i] == p[k] && depth[i] <= k,
    decreases k,
{
    if k == 0 {
        assert(depth[0] <= depth[h]);
        assert(0 < h);
        assert(nodes[0] == p[0]);
    } else {
        lemma_short_plays_found_early(nodes, depth, h, p, k - 1);
        let i = choose|i: int| 0 <= i < h && nodes[i] == p[k - 1] && depth[i] <= k - 1;
        assert(p[k - 1].is_successor(p[(k - 1) + 1]));
        assert(nodes[i].is_successor(p[k]));
        let j = choose|j: int| 0 <= j < nodes.len() && nodes[j] == p[k] && depth[j] <= depth[i] + 1;
        if j >= h {
            assert(depth[h] <= depth[j]);
        }
        assert(0 <= j < h && nodes[j] == p[k] && depth[j] <= k);
    }
}

impl State {
    /// Searches breadth-first for a play from this position to a checkmate.
    pub fn solve(self) -> (r: TraversalResult)
        requires
            self.well_formed(),
        ensures
            match r {
                TraversalResult::Inf => forall|p: Seq<State>| #[trigger]
                    is_play(p) && p[0] == self ==> !p.last().is_mate(),
                TraversalResult::CheckMate(path) => {
                    &&& is_play(path@)
                    &&& path@[0] == self
                    &&& path@.last().is_mate()
                    &&& forall|p: Seq<State>| #[trigger]
                        is_play(p) && p[0] == self && p.last().is_mate() ==> path@.len() <= p.len()
                },
            },
    {
        let mut search = Search::new(self);
        proof {
            search.lemma_bounded();
        }
        let mut head: usize = 0;
        while head < search.nodes.len()
            invariant
                search.inv(),
                search.nodes@[0] == self,
                head <= search.nodes.len(),
                forall|i: int| 0 <= i < head ==> !(#[trigger] search.nodes@[i]).is_mate(),
                forall|i: int, t: State|
                    0 <= i < head && #[trigger] search.nodes@[i].is_successor(t)
                        ==> search.nodes@.contains(t),
                search.depth@.len() == search.nodes.len(),
                forall|i: int, j: int|
                    0 <= i <= j < search.nodes.len() ==> search.depth@[i] <= search.depth@[j],
                head < search.nodes.len() ==> search.depth@[search.nodes.len() - 1]
                    <= search.depth@[head as int] + 1,
                forall|i: int, t: State|
                    0 <= i < head && #[trigger] search.nodes@[i].is_successor(t) ==> found_within(
                        search.nodes@,
                        search.depth@,
                        t,
                        search.depth@[i] + 1,
                    ),
            decreases KEY_SPACE - head,
        {
            proof {
                search.lemma_bounded();
            }
            let state = search.node(head);
            let subs = state.substates();
            if state.is_checkmate(subs.len()) {
                assert forall|t: State| !#[trigger] state.is_successor(t) by {
                    if state.is_successor(t) {
                        assert(subs@.contains(t));
                    }
                }
                let path = search.path_to(head);
                proof {
                    search.lemma_bounded();
                    assert forall|p: Seq<State>| #[trigger]
                        is_play(p) && p[0] == self && p.last().is_mate() implies path@.len()
                        <= p.len() by {
                        if p.len() < path@.len() {
                            lemma_short_plays_found_early(
                                search.nodes@,
                                search.depth@,
                                head as int,
                                p,
                                p.len() - 1,
                            );
                            let i = choose|i: int|
                                0 <= i < head && search.nodes@[i] == p[p.len() - 1]
                                    && search.depth@[i] <= p.len() - 1;
                            assert(!search.nodes@[i].is_mate());
                        }
                    }
                }
                return TraversalResult::CheckMate(path);
            }
            if subs.len() > 0 {
                assert(subs@.contains(subs@[0]));
            }
            let mut j: usize = 0;
            while j < subs.len()
                invariant
                    search.inv(),
                    search.nodes@[0] == self,
                    head < search.nodes.len(),
                    state == search.nodes@[head as int],
                    !state.is_mate(),
                    forall|t: State| #[trigger] subs@.contains(t) <==> state.is_successor(t),
                    forall|i: int| 0 <= i < head ==> !(#[trigger] search.nodes@[i]).is_mate(),
                    forall|i: int, t: State|
                        0 <= i < head && #[trigger] search.nodes@[i].is_successor(t)
                            ==> search.nodes@.contains(t),
                    forall|m: int| 0 <= m < j ==> search.nodes@.contains(#[trigger] subs@[m]),
                    j <= subs.len(),
                    search.depth@.len() == search.nodes.len(),
                    forall|i: int, j: int|
                        0 <= i <= j < search.nodes.len() ==> search.depth@[i] <= search.depth@[j],
                    search.depth@[search.nodes.len() - 1] <= search.depth@[head as int] + 1,
                    forall|i: int, t: State|
                        0 <= i < head && #[trigger] search.nodes@[i].is_successor(t)
                            ==> found_within(search.nodes@, search.depth@, t, search.depth@[i] + 1),
                    forall|m: int|
                        0 <= m < j ==> found_within(
                            search.nodes@,
                            search.depth@,
                            #[trigger] subs@[m],
                            search.depth@[head as int] + 1,
                        ),
                decreases subs.len() - j,
            {
                assert(subs@.contains(subs@[j as int]));
                let ghost old_nodes = search.nodes@;
                let ghost old_depth = search.depth@;
                search.discover(head, subs[j]);
                proof {
                    search.lemma_bounded();
                    lemma_bfs_step(old_nodes, old_depth, search.nodes@, search.depth@, head as int, subs@[j as int]);
                    assert forall|i: int, t: State|
                        0 <= i < head && #[trigger] search.nodes@[i].is_successor(t) implies found_within(
                            search.nodes@,
                            search.depth@,
                            t,
                            search.depth@[i] + 1,
                        ) by {
                        assert(search.nodes@[i] == old_nodes[i]);
                        assert(found_within(old_nodes, old_depth, t, old_depth[i] + 1));
                    }
                    assert forall|m: int| 0 <= m < j + 1 implies found_within(
                        search.nodes@,
                        search.depth@,
                        #[trigger] subs@[m],
                        search.depth@[head as int] + 1,
                    ) by {
                        if m < j {
                            assert(found_within(old_nodes, old_depth, subs@[m], old_depth[head as int] + 1));
                        }
                    }
                    lemma_prefix_contains(old_nodes, search.nodes@);
                    assert forall|i: int| 0 <= i < head implies !(
                    #[trigger] search.nodes@[i]).is_mate() by {
                        assert(search.nodes@[i] == old_nodes[i]);
                    }
                    assert forall|i: int, t: State|
                        0 <= i < head && #[trigger] search.nodes@[i].is_successor(
                            t,
                        ) implies search.nodes@.contains(t) by {
                        assert(search.nodes@[i] == old_nodes[i]);
                        assert(old_nodes.contains(t));
                    }
                    assert forall|m: int|
                        0 <= m < j + 1 implies search.nodes@.contains(#[trigger] subs@[m]) by {
                        if m < j {
                            assert(old_nodes.contains(subs@[m]));
                        }
                    }
                }
                j = j + 1;
            }
            proof {
                assert forall|t: State| #[trigger]
                    search.nodes@[head as int].is_successor(t) implies search.nodes@.contains(t) by {
                    assert(subs@.contains(t));
                    let m = choose|m: int| 0 <= m < subs.len() && subs@[m] == t;
                    assert(search.nodes@.contains(subs@[m]));
                }
                assert forall|t: State| #[trigger]
                    search.nodes@[head as int].is_successor(t) implies found_within(
                        search.nodes@,
                        search.depth@,
                        t,
                        search.depth@[head as int] + 1,
                    ) by {
                    assert(subs@.contains(t));
                    let m = choose|m: int| 0 <= m < subs.len() && subs@[m] == t;
                    assert(found_within(search.nodes@, search.depth@, subs@[m], search.depth@[head as int] + 1));
                }
                if head + 1 < search.nodes.len() {
                    assert(search.depth@[head as int] <= search.depth@[head + 1]);
                }
            }
            head = head + 1;
        }
        proof {
            search.lemma_bounded();
            assert(search.nodes@.contains(self)) by {
                assert(search.nodes@[0] == self);
            }
            assert forall|p: Seq<State>| #[trigger]
                is_play(p) && p[0] == self implies !p.last().is_mate() by {
                lemma_play_stays_inside(search.nodes@, p, p.len() - 1);
                let i = choose|i: int|
                    0 <= i < search.nodes.len() && search.nodes@[i] == p[p.len() - 1];
                assert(!search.nodes@[i].is_mate());
            }
        }
        TraversalResult::Inf
    }
}

} // verus!
