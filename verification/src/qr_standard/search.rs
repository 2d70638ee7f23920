use vstd::prelude::*;
use vstd::string::StrSliceExecFns;
use crate::image::push_char;
use super::bitstream::{Mode, char_status, spec_char_status, segs_view, segment_valid, is_digit, is_alphanum};
use super::tables::{spec_cc_bits, cc_indicator_bit_size, lemma_cc_bits};

verus! {

// The modes of a character's nodes are numbered by `Mode::index`: 0 for
// ASCII, 1 for alphanumeric, 2 for numeric. A character whose smallest mode
// has index `k` has the nodes 0 to `k`.

/// The mode with index `p`.
pub open spec fn mode_of_index(p: int) -> Mode {
    if p == 0 {
        Mode::ASCII
    } else if p == 1 {
        Mode::AlphaNum
    } else {
        Mode::Numeric
    }
}

/// A character whose smallest mode is `c` can be written in the mode with
/// index `p`.
pub open spec fn admits(c: Mode, p: int) -> bool {
    0 <= p <= c.spec_index()
}

/// Six times the bits of one character in the mode with index `p` (8, 5.5
/// and 3.33...).
pub open spec fn char_cost(p: int) -> int {
    if p == 0 {
        48
    } else if p == 1 {
        33
    } else {
        20
    }
}

/// The cost of writing a character in the mode with index `p`: its own
/// cost, plus six times the mode indicator and character count indicator
/// when the previous character was written in another mode.
pub open spec fn edge_cost(p: int, same: bool, class: int) -> int {
    (if same { 0 } else { 6 * (4 + spec_cc_bits(class, mode_of_index(p))) }) + char_cost(p)
}

/// The cost of writing the first `n` characters in the modes of `path`.
pub open spec fn path_cost(path: Seq<int>, class: int, n: int) -> int
    decreases n,
{
    if n <= 0 {
        0
    } else if n == 1 {
        edge_cost(path[0], false, class)
    } else {
        path_cost(path, class, n - 1) + edge_cost(path[n - 1], path[n - 1] == path[n - 2], class)
    }
}

/// `path` gives every character a mode that admits it.
pub open spec fn valid_path(modes: Seq<Mode>, path: Seq<int>) -> bool {
    &&& path.len() == modes.len()
    &&& forall|i: int| 0 <= i < modes.len() ==> admits(modes[i], #[trigger] path[i])
}

/// The cost of coming to character `i` in mode `p` from mode `q`.
pub open spec fn via_cost(modes: Seq<Mode>, class: int, i: int, p: int, q: int) -> int
    decreases i, 0int, 0int,
{
    if i <= 0 {
        0
    } else {
        best_cost(modes, class, i - 1, q) + edge_cost(p, q == p, class)
    }
}

/// The cheapest way to come to character `i` in mode `p` from one of the
/// modes 0 to `k` of the previous character.
pub open spec fn best_via(modes: Seq<Mode>, class: int, i: int, p: int, k: int) -> int
    decreases i, 1int, k,
{
    if k <= 0 {
        via_cost(modes, class, i, p, 0)
    } else if via_cost(modes, class, i, p, k) < best_via(modes, class, i, p, k - 1) {
        via_cost(modes, class, i, p, k)
    } else {
        best_via(modes, class, i, p, k - 1)
    }
}

/// The first of the modes 0 to `k` of the previous character through which
/// `best_via` is reached.
pub open spec fn ptr_via(modes: Seq<Mode>, class: int, i: int, p: int, k: int) -> int
    decreases k,
{
    if k <= 0 {
        0
    } else if via_cost(modes, class, i, p, k) < best_via(modes, class, i, p, k - 1) {
        k
    } else {
        ptr_via(modes, class, i, p, k - 1)
    }
}

/// The cheapest cost of writing characters 0 to `i` with character `i` in
/// mode `p`.
pub open spec fn best_cost(modes: Seq<Mode>, class: int, i: int, p: int) -> int
    decreases i, 2int, 0int,
{
    if i <= 0 {
        edge_cost(p, false, class)
    } else {
        best_via(modes, class, i, p, modes[i - 1].spec_index())
    }
}

/// The mode of the character before `i` on the cheapest way to write
/// character `i` in mode `p`.
pub open spec fn best_ptr(modes: Seq<Mode>, class: int, i: int, p: int) -> int {
    ptr_via(modes, class, i, p, modes[i - 1].spec_index())
}

/// The first of the modes 0 to `k` of the last character with the least
/// cost.
pub open spec fn cheapest_upto(modes: Seq<Mode>, class: int, k: int) -> int
    decreases k,
{
    if k <= 0 {
        0
    } else if best_cost(modes, class, modes.len() - 1, k) < best_cost(modes, class, modes.len() - 1, cheapest_upto(modes, class, k - 1)) {
        k
    } else {
        cheapest_upto(modes, class, k - 1)
    }
}

/// The mode of character `i` on the cheapest way to write all characters,
/// traced back from the last one.
pub open spec fn traced(modes: Seq<Mode>, class: int, i: int) -> int
    decreases modes.len() - i,
{
    if i >= modes.len() - 1 || i < 0 {
        cheapest_upto(modes, class, modes[modes.len() - 1].spec_index())
    } else {
        best_ptr(modes, class, i + 1, traced(modes, class, i + 1))
    }
}

/// The modes of the cheapest way to write characters of the given smallest
/// modes, one index per character.
pub open spec fn optimal_modes(modes: Seq<Mode>, class: int) -> Seq<int> {
    Seq::new(modes.len(), |i: int| traced(modes, class, i))
}

// ----- facts about the cheapest ways -----

proof fn lemma_edge_cost(p: int, same: bool, class: int)
    requires
        0 <= class < 3,
    ensures
        20 <= edge_cost(p, same, class) <= 168,
{
    lemma_cc_bits(class, mode_of_index(p));
}

proof fn lemma_best_via_min(modes: Seq<Mode>, class: int, i: int, p: int, k: int, q: int)
    requires
        0 <= q <= k,
    ensures
        best_via(modes, class, i, p, k) <= via_cost(modes, class, i, p, q),
        best_via(modes, class, i, p, k) == via_cost(modes, class, i, p, ptr_via(modes, class, i, p, k)),
        0 <= ptr_via(modes, class, i, p, k) <= k,
    decreases k,
{
    if k > 0 {
        if q < k {
            lemma_best_via_min(modes, class, i, p, k - 1, q);
        } else {
            lemma_best_via_min(modes, class, i, p, k - 1, 0);
        }
    }
}

proof fn lemma_best_cost_bounds(modes: Seq<Mode>, class: int, i: int, p: int)
    requires
        0 <= class < 3,
        0 <= i < modes.len(),
        forall|j: int| 0 <= j < modes.len() ==> #[trigger] modes[j] != Mode::Kanji,
    ensures
        20 <= best_cost(modes, class, i, p) <= 168 * (i + 1),
    decreases i,
{
    lemma_edge_cost(p, false, class);
    if i > 0 {
        let k = modes[i - 1].spec_index();
        lemma_best_via_min(modes, class, i, p, k, 0);
        let q = ptr_via(modes, class, i, p, k);
        lemma_best_cost_bounds(modes, class, i - 1, q);
        lemma_best_cost_bounds(modes, class, i - 1, 0);
        lemma_edge_cost(p, q == p, class);
        lemma_edge_cost(p, 0 == p, class);
    }
}

proof fn lemma_cheapest_upto(modes: Seq<Mode>, class: int, k: int, p: int)
    requires
        0 <= p <= k,
    ensures
        best_cost(modes, class, modes.len() - 1, cheapest_upto(modes, class, k))
            <= best_cost(modes, class, modes.len() - 1, p),
        0 <= cheapest_upto(modes, class, k) <= k,
    decreases k,
{
    if k > 0 {
        if p < k {
            lemma_cheapest_upto(modes, class, k - 1, p);
        } else {
            lemma_cheapest_upto(modes, class, k - 1, 0);
        }
    }
}

proof fn lemma_traced_admitted(modes: Seq<Mode>, class: int, i: int)
    requires
        0 <= i < modes.len(),
    ensures
        admits(modes[i], traced(modes, class, i)),
    decreases modes.len() - i,
{
    if i >= modes.len() - 1 {
        lemma_cheapest_upto(modes, class, modes[modes.len() - 1].spec_index(), 0);
    } else {
        lemma_best_via_min(modes, class, i + 1, traced(modes, class, i + 1), modes[i].spec_index(), 0);
    }
}

/// The traced way costs, up to each character, the cheapest cost of writing
/// that character in its traced mode.
proof fn lemma_traced_cost(modes: Seq<Mode>, class: int, i: int)
    requires
        0 <= i < modes.len(),
    ensures
        path_cost(optimal_modes(modes, class), class, i + 1) == best_cost(modes, class, i, traced(modes, class, i)),
    decreases i,
{
    let path = optimal_modes(modes, class);
    if i > 0 {
        lemma_traced_cost(modes, class, i - 1);
        let p = traced(modes, class, i);
        let k = modes[i - 1].spec_index();
        lemma_best_via_min(modes, class, i, p, k, 0);
        assert(path[i - 1] == best_ptr(modes, class, i, p));
    }
}

/// Any way of writing the characters costs, up to each character, at least
/// the cheapest cost of writing that character in the mode it uses.
proof fn lemma_any_path_cost(modes: Seq<Mode>, class: int, path: Seq<int>, i: int)
    requires
        valid_path(modes, path),
        0 <= i < modes.len(),
    ensures
        path_cost(path, class, i + 1) >= best_cost(modes, class, i, path[i]),
    decreases i,
{
    if i > 0 {
        lemma_any_path_cost(modes, class, path, i - 1);
        assert(admits(modes[i - 1], path[i - 1]));
        lemma_best_via_min(modes, class, i, path[i], modes[i - 1].spec_index(), path[i - 1]);
    }
}

/// The traced modes are a cheapest way to write the characters: every
/// character gets a mode that admits it, and no other such way costs less.
pub proof fn lemma_optimal_modes(modes: Seq<Mode>, class: int, path: Seq<int>)
    requires
        modes.len() >= 1,
        valid_path(modes, path),
    ensures
        valid_path(modes, optimal_modes(modes, class)),
        path_cost(optimal_modes(modes, class), class, modes.len() as int) <= path_cost(path, class, modes.len() as int),
{
    let n = modes.len() as int;
    let opt = optimal_modes(modes, class);
    assert forall|i: int| 0 <= i < n implies admits(modes[i], #[trigger] opt[i]) by {
        lemma_traced_admitted(modes, class, i);
    }
    lemma_traced_cost(modes, class, n - 1);
    lemma_any_path_cost(modes, class, path, n - 1);
    assert(admits(modes[n - 1], path[n - 1]));
    lemma_cheapest_upto(modes, class, modes[n - 1].spec_index(), path[n - 1]);
}

// ----- the search -----

/// The cheapest known way to reach a node: its cost, and the mode of the
/// previous character on that way.
#[derive(Clone, Copy)]
struct TaggedNode(u32, Option<Mode>);

impl TaggedNode {
    fn pointer(&self) -> (r: Option<Mode>)
        ensures
            r == self.1,
    {
        self.1
    }

    /// A node that has not been reached yet.
    fn fresh() -> (r: TaggedNode)
        ensures
            r.0 == u32::MAX,
            r.1 is None,
    {
        TaggedNode(u32::MAX, None)
    }
}

/// The nodes of a character: its smallest mode, and a node for each of the
/// modes ASCII, alphanumeric and numeric (by index).
#[derive(Clone, Copy)]
struct CharNodes(Mode, [TaggedNode; 3]);

/// The node that the search leaves for character `i` in mode `p`.
pub open spec fn searched_node(modes: Seq<Mode>, class: int, i: int, p: int) -> (int, Option<Mode>) {
    if i == 0 {
        (edge_cost(p, false, class), None)
    } else {
        (best_cost(modes, class, i, p), Some(mode_of_index(best_ptr(modes, class, i, p))))
    }
}

/// The node `n` has the cost and pointer `e`.
spec fn node_is(n: TaggedNode, e: (int, Option<Mode>)) -> bool {
    n.0 as int == e.0 && n.1 == e.1
}

/// The smallest modes contain no kanji, and the costs of the cheapest ways
/// fit in 32 bits with room to spare.
pub open spec fn search_bounds(modes: Seq<Mode>, class: int) -> bool {
    &&& 0 <= class < 3
    &&& forall|j: int| 0 <= j < modes.len() ==> #[trigger] modes[j] != Mode::Kanji
    &&& 168 * modes.len() + 200 <= u32::MAX
}

/// The mode with index `p`, in exec code.
fn mode_at(p: usize) -> (r: Mode)
    requires
        p < 3,
    ensures
        r == mode_of_index(p as int),
        r.spec_index() == p,
{
    if p == 0 { Mode::ASCII } else if p == 1 { Mode::AlphaNum } else { Mode::Numeric }
}

/// The added cost of getting from one node to another (see `edge_cost`).
fn edge_weight(to_mode: Mode, same_subset: bool, class: u8) -> (r: u32)
    requires
        class < 3,
        to_mode != Mode::Kanji,
    ensures
        r == edge_cost(to_mode.spec_index(), same_subset, class as int),
{
    proof { lemma_cc_bits(class as int, to_mode); }
    let switch: u32 = if !same_subset {
        6 * (4 + cc_indicator_bit_size(class, to_mode)) as u32
    } else {
        0
    };
    switch + match to_mode {
        Mode::ASCII => 48,
        Mode::AlphaNum => 33,
        _ => 20,
    }
}

impl CharNodes {
    /// Does this character have a node of this mode?
    fn has(&self, category: Mode) -> (r: bool)
        requires
            self.0 != Mode::Kanji,
            category != Mode::Kanji,
        ensures
            r == admits(self.0, category.spec_index()),
    {
        category.index() <= self.0.index()
    }

    /// The node of a mode, if the character has one.
    fn get(&self, category: Mode) -> (r: Option<TaggedNode>)
        requires
            self.0 != Mode::Kanji,
            category != Mode::Kanji,
        ensures
            r == (if admits(self.0, category.spec_index()) {
                Some(self.1@[category.spec_index()])
            } else {
                None
            }),
    {
        if !self.has(category) {
            None
        } else {
            Some(self.1[category.index()])
        }
    }

    /// Replaces the node of a mode.
    fn set_node(&mut self, p: usize, value: TaggedNode)
        requires
            p < 3,
        ensures
            final(self).0 == old(self).0,
            final(self).1@ == old(self).1@.update(p as int, value),
    {
        let n = self.1;
        self.1 = if p == 0 {
            [value, n[1], n[2]]
        } else if p == 1 {
            [n[0], value, n[2]]
        } else {
            [n[0], n[1], value]
        };
        assert(self.1@ =~= n@.update(p as int, value));
    }

    /// Replaces the node of a mode if the new cost is smaller.
    fn set_min(&mut self, category: Mode, value: TaggedNode)
        requires
            old(self).0 != Mode::Kanji,
            category != Mode::Kanji,
        ensures
            final(self).0 == old(self).0,
            final(self).1@ == (if admits(old(self).0, category.spec_index()) && value.0 < old(self).1@[category.spec_index()].0 {
                old(self).1@.update(category.spec_index(), value)
            } else {
                old(self).1@
            }),
    {
        match self.get(category) {
            Some(v) => {
                if value.0 < v.0 {
                    self.set_node(category.index(), value);
                }
            },
            None => {},
        }
    }

    /// Propagates the cheapest ways from the previous character `from` (the
    /// character `i - 1` of `modes`) to this one (character `i`).
    fn score_from_predecessor(&mut self, from: &Self, class: u8, Ghost(modes): Ghost<Seq<Mode>>, Ghost(i): Ghost<int>)
        requires
            search_bounds(modes, class as int),
            1 <= i < modes.len(),
            old(self).0 == modes[i],
            from.0 == modes[i - 1],
            forall|p: int| 0 <= p < 3 ==> (#[trigger] old(self).1@[p]).0 == u32::MAX,
            forall|q: int| admits(from.0, q) ==> (#[trigger] from.1@[q]).0 == best_cost(modes, class as int, i - 1, q),
        ensures
            final(self).0 == old(self).0,
            forall|p: int| admits(final(self).0, p) ==> node_is(#[trigger] final(self).1@[p],
                searched_node(modes, class as int, i, p)),
    {
        let ghost c = class as int;
        let ghost kf = modes[i - 1].spec_index();
        let mut from_index: usize = 0;
        while from_index < 3
            invariant
                search_bounds(modes, c),
                c == class,
                1 <= i < modes.len(),
                self.0 == modes[i],
                from.0 == modes[i - 1],
                kf == modes[i - 1].spec_index(),
                forall|q: int| admits(from.0, q) ==> (#[trigger] from.1@[q]).0 == best_cost(modes, c, i - 1, q),
                from_index <= kf + 1,
                forall|p: int| admits(self.0, p) ==> (if from_index == 0 {
                    (#[trigger] self.1@[p]).0 == u32::MAX
                } else {
                    self.1@[p].0 == best_via(modes, c, i, p, from_index - 1)
                        && self.1@[p].1 == Some(mode_of_index(ptr_via(modes, c, i, p, from_index - 1)))
                }),
            ensures
                forall|p: int| admits(self.0, p) ==> (#[trigger] self.1@[p]).0 == best_via(modes, c, i, p, kf)
                    && self.1@[p].1 == Some(mode_of_index(ptr_via(modes, c, i, p, kf))),
            decreases 3 - from_index,
        {
            let from_mode = mode_at(from_index);
            match from.get(from_mode) {
                Some(TaggedNode(from_score, _)) => {
                    proof {
                        lemma_best_cost_bounds(modes, c, i - 1, from_index as int);
                        assert(168 * (i - 1 + 1) <= 168 * modes.len());
                    }
                    let ghost q = from_index as int;
                    let ghost before = self.1@;
                    let kt = self.0.index();
                    let mut to_index: usize = 0;
                    while to_index <= kt
                        invariant
                            search_bounds(modes, c),
                            c == class,
                            1 <= i < modes.len(),
                            self.0 == modes[i],
                            kt == modes[i].spec_index(),
                            q == from_index,
                            from_mode == mode_of_index(q),
                            0 <= q <= kf,
                            from_score == best_cost(modes, c, i - 1, q),
                            from_score <= 168 * modes.len(),
                            to_index <= kt + 1,
                            forall|p: int| admits(self.0, p) ==> (if p < to_index {
                                (#[trigger] self.1@[p]).0 == best_via(modes, c, i, p, q)
                                    && self.1@[p].1 == Some(mode_of_index(ptr_via(modes, c, i, p, q)))
                            } else {
                                self.1@[p] == before[p]
                            }),
                            forall|p: int| admits(self.0, p) ==> (if q == 0 {
                                (#[trigger] before[p]).0 == u32::MAX
                            } else {
                                before[p].0 == best_via(modes, c, i, p, q - 1)
                                    && before[p].1 == Some(mode_of_index(ptr_via(modes, c, i, p, q - 1)))
                            }),
                        decreases kt + 1 - to_index,
                    {
                        let to_mode = mode_at(to_index);
                        let same_subset = from_index == to_index;
                        let w = edge_weight(to_mode, same_subset, class);
                        proof { lemma_edge_cost(to_index as int, same_subset, c); }
                        let tentative = from_score + w;
                        proof {
                            assert(tentative == via_cost(modes, c, i, to_index as int, q));
                            assert(tentative < u32::MAX);
                        }
                        let ghost cur = self.1@;
                        self.set_min(to_mode, TaggedNode(tentative, Some(from_mode)));
                        proof {
                            let t = to_index as int;
                            assert(admits(self.0, t));
                            assert(cur[t] == before[t]);
                            if q == 0 {
                                assert(best_via(modes, c, i, t, q) == via_cost(modes, c, i, t, q));
                                assert(ptr_via(modes, c, i, t, q) == 0);
                                assert(self.1@[t] == TaggedNode(tentative, Some(from_mode)));
                            } else {
                                assert(before[t].0 == best_via(modes, c, i, t, q - 1));
                                if tentative < before[t].0 {
                                    assert(self.1@[t] == TaggedNode(tentative, Some(from_mode)));
                                    assert(best_via(modes, c, i, t, q) == via_cost(modes, c, i, t, q));
                                    assert(ptr_via(modes, c, i, t, q) == q);
                                } else {
                                    assert(self.1@[t] == before[t]);
                                    assert(best_via(modes, c, i, t, q) == best_via(modes, c, i, t, q - 1));
                                    assert(ptr_via(modes, c, i, t, q) == ptr_via(modes, c, i, t, q - 1));
                                }
                            }
                            assert(self.1@[t].0 == best_via(modes, c, i, t, q));
                            assert(self.1@[t].1 == Some(mode_of_index(ptr_via(modes, c, i, t, q))));
                            assert forall|p: int| admits(self.0, p) implies (if p < to_index + 1 {
                                (#[trigger] self.1@[p]).0 == best_via(modes, c, i, p, q)
                                    && self.1@[p].1 == Some(mode_of_index(ptr_via(modes, c, i, p, q)))
                            } else {
                                self.1@[p] == before[p]
                            }) by {
                                if p != t {
                                    assert(self.1@[p] == cur[p]);
                                }
                            }
                        }
                        to_index = to_index + 1;
                    }
                },
                None => {
                    break;
                },
            }
            from_index = from_index + 1;
        }
    }

    /// The mode of the node with the lowest cost (the first such of ASCII,
    /// alphanumeric, numeric).
    fn cheapest_mode(&self, Ghost(modes): Ghost<Seq<Mode>>, Ghost(class): Ghost<int>) -> (r: Mode)
        requires
            modes.len() >= 1,
            self.0 == modes[modes.len() - 1],
            self.0 != Mode::Kanji,
            forall|p: int| admits(self.0, p) ==> (#[trigger] self.1@[p]).0 == best_cost(modes, class, modes.len() - 1, p),
        ensures
            r == mode_of_index(cheapest_upto(modes, class, self.0.spec_index())),
    {
        let k = self.0.index();
        let mut cheapest: usize = 0;
        let mut lowest = self.1[0].0;
        let mut p: usize = 1;
        while p <= k
            invariant
                1 <= p <= k + 1,
                k == self.0.spec_index(),
                k <= 2,
                forall|p: int| admits(self.0, p) ==> (#[trigger] self.1@[p]).0 == best_cost(modes, class, modes.len() - 1, p),
                cheapest == cheapest_upto(modes, class, p - 1),
                lowest == best_cost(modes, class, modes.len() - 1, cheapest as int),
                cheapest < 3,
            decreases k + 1 - p,
        {
            let node = self.1[p];
            if node.0 < lowest {
                cheapest = p;
                lowest = node.0;
            }
            p = p + 1;
        }
        mode_at(cheapest)
    }
}

/// The modes with the nodes of every character, from the smallest mode of
/// each character.
fn create_graph(mode_vec: &Vec<Mode>, class: u8) -> (r: Vec<CharNodes>)
    requires
        mode_vec@.len() >= 1,
        search_bounds(mode_vec@, class as int),
    ensures
        r@.len() == mode_vec@.len(),
        forall|i: int| 0 <= i < r@.len() ==> (#[trigger] r@[i]).0 == mode_vec@[i],
        forall|i: int, p: int| 0 <= i < r@.len() && admits(mode_vec@[i], p) ==>
            node_is(#[trigger] r@[i].1@[p], searched_node(mode_vec@, class as int, i, p)),
{
    let ghost modes = mode_vec@;
    let ghost c = class as int;
    let first = mode_vec[0];
    let mut current = CharNodes(first, [TaggedNode::fresh(), TaggedNode::fresh(), TaggedNode::fresh()]);
    let k = first.index();
    let mut p: usize = 0;
    while p <= k
        invariant
            current.0 == first,
            first == modes[0],
            k == first.spec_index(),
            k <= 2,
            c == class,
            c < 3,
            p <= k + 1,
            forall|q: int| 0 <= q < 3 ==> (if admits(first, q) && q < p {
                node_is(#[trigger] current.1@[q], searched_node(modes, c, 0, q))
            } else {
                current.1@[q].0 == u32::MAX
            }),
        decreases k + 1 - p,
    {
        let mode = mode_at(p);
        let w = edge_weight(mode, false, class);
        current.set_node(p, TaggedNode(w, None));
        p = p + 1;
    }
    let mut output: Vec<CharNodes> = Vec::new();
    output.push(current);
    let mut i: usize = 1;
    while i < mode_vec.len()
        invariant
            modes == mode_vec@,
            search_bounds(modes, c),
            c == class,
            1 <= i <= modes.len(),
            output@.len() == i,
            forall|j: int| 0 <= j < i ==> (#[trigger] output@[j]).0 == modes[j],
            forall|j: int, q: int| 0 <= j < i && admits(modes[j], q) ==>
                node_is(#[trigger] output@[j].1@[q], searched_node(modes, c, j, q)),
        decreases modes.len() - i,
    {
        let previous = output[i - 1];
        let mut next = CharNodes(mode_vec[i], [TaggedNode::fresh(), TaggedNode::fresh(), TaggedNode::fresh()]);
        proof {
            assert forall|q: int| admits(previous.0, q) implies (#[trigger] previous.1@[q]).0 == best_cost(modes, c, i - 1, q) by {
                assert(output@[i - 1].1@[q] == previous.1@[q]);
            }
        }
        next.score_from_predecessor(&previous, class, Ghost(modes), Ghost(i as int));
        output.push(next);
        i = i + 1;
    }
    output
}

/// Traces the cheapest way back through the graph: the mode of every
/// character.
fn optimal_path(graph: &Vec<CharNodes>, Ghost(modes): Ghost<Seq<Mode>>, Ghost(class): Ghost<int>) -> (r: Vec<Mode>)
    requires
        graph@.len() == modes.len(),
        modes.len() >= 1,
        search_bounds(modes, class),
        forall|i: int| 0 <= i < graph@.len() ==> (#[trigger] graph@[i]).0 == modes[i],
        forall|i: int, p: int| 0 <= i < graph@.len() && admits(modes[i], p) ==>
            node_is(#[trigger] graph@[i].1@[p], searched_node(modes, class, i, p)),
    ensures
        r@ == optimal_modes(modes, class).map_values(|p: int| mode_of_index(p)),
{
    let n = graph.len();
    let last = graph[n - 1];
    proof {
        assert forall|p: int| admits(last.0, p) implies (#[trigger] last.1@[p]).0 == best_cost(modes, class, n - 1, p) by {
            assert(graph@[n - 1].1@[p] == last.1@[p]);
        }
    }
    let mut current_mode = last.cheapest_mode(Ghost(modes), Ghost(class));
    // the modes from the last character back to the first
    let mut reversed: Vec<Mode> = Vec::new();
    reversed.push(current_mode);
    let mut i: usize = n - 1;
    proof {
        lemma_traced_admitted(modes, class, n - 1);
    }
    while i > 0
        invariant
            n == graph@.len(),
            n == modes.len(),
            search_bounds(modes, class),
            i < n,
            forall|j: int| 0 <= j < graph@.len() ==> (#[trigger] graph@[j]).0 == modes[j],
            forall|j: int, p: int| 0 <= j < graph@.len() && admits(modes[j], p) ==>
                node_is(#[trigger] graph@[j].1@[p], searched_node(modes, class, j, p)),
            current_mode == mode_of_index(traced(modes, class, i as int)),
            admits(modes[i as int], traced(modes, class, i as int)),
            reversed@.len() == n - i,
            forall|j: int| 0 <= j < n - i ==> #[trigger] reversed@[j] == mode_of_index(traced(modes, class, n - 1 - j)),
        decreases i,
    {
        let node = graph[i];
        proof {
            let t = traced(modes, class, i as int);
            assert(current_mode.spec_index() == t);
            assert(graph@[i as int].1@[t] == node.1@[t]);
            lemma_traced_admitted(modes, class, i - 1);
        }
        let tagged = match node.get(current_mode) {
            Some(t) => t,
            None => TaggedNode::fresh(),
        };
        current_mode = match tagged.pointer() {
            Some(m) => m,
            None => Mode::ASCII,
        };
        reversed.push(current_mode);
        i = i - 1;
    }
    let mut output: Vec<Mode> = Vec::new();
    let mut k: usize = 0;
    while k < n
        invariant
            n == modes.len(),
            reversed@.len() == n,
            forall|j: int| 0 <= j < n ==> #[trigger] reversed@[j] == mode_of_index(traced(modes, class, n - 1 - j)),
            k <= n,
            output@.len() == k,
            forall|j: int| 0 <= j < k ==> #[trigger] output@[j] == mode_of_index(traced(modes, class, j)),
        decreases n - k,
    {
        output.push(reversed[n - 1 - k]);
        k = k + 1;
    }
    assert(output@ =~= optimal_modes(modes, class).map_values(|p: int| mode_of_index(p)));
    output
}

/// The smallest mode of a character, ASCII for one outside the three sets.
pub open spec fn status_or_ascii(c: char) -> Mode {
    match spec_char_status(c) {
        Some(m) => m,
        None => Mode::ASCII,
    }
}

/// The characters of a sequence of segments, one after another.
pub open spec fn seg_chars(segs: Seq<(Mode, String)>) -> Seq<char>
    decreases segs.len(),
{
    if segs.len() == 0 {
        Seq::empty()
    } else {
        seg_chars(segs.drop_last()) + segs.last().1@
    }
}

/// The mode of every character of a sequence of segments.
pub open spec fn seg_modes(segs: Seq<(Mode, String)>) -> Seq<Mode>
    decreases segs.len(),
{
    if segs.len() == 0 {
        Seq::empty()
    } else {
        seg_modes(segs.drop_last()) + Seq::new(segs.last().1@.len(), |j: int| segs.last().0)
    }
}

/// The maximal runs of characters of one mode among the first `n`
/// characters, each with its mode.
pub open spec fn runs(chars: Seq<char>, modes: Seq<Mode>, n: int) -> Seq<(Mode, Seq<char>)>
    decreases n,
{
    if n <= 0 {
        Seq::empty()
    } else {
        let r = runs(chars, modes, n - 1);
        if n > 1 && modes[n - 1] == modes[n - 2] {
            r.update(r.len() - 1, (modes[n - 1], r.last().1.push(chars[n - 1])))
        } else {
            r.push((modes[n - 1], seq![chars[n - 1]]))
        }
    }
}

proof fn lemma_runs_no_kanji(chars: Seq<char>, modes: Seq<Mode>, n: int)
    requires
        0 <= n <= modes.len(),
        forall|j: int| 0 <= j < n ==> #[trigger] modes[j] != Mode::Kanji,
    ensures
        forall|i: int| 0 <= i < runs(chars, modes, n).len() ==> (#[trigger] runs(chars, modes, n)[i]).0 != Mode::Kanji,
        n > 0 ==> runs(chars, modes, n).len() > 0,
    decreases n,
{
    if n > 0 {
        lemma_runs_no_kanji(chars, modes, n - 1);
    }
}

/// No segment of a text is in the kanji mode.
pub proof fn lemma_runs_modes(text: Seq<char>, class: int, i: int)
    requires
        0 <= i < text_runs(text, class).len(),
    ensures
        text_runs(text, class)[i].0 != Mode::Kanji,
{
    let modes = optimal_text_modes(text, class);
    assert forall|j: int| 0 <= j < text.len() implies #[trigger] modes[j] != Mode::Kanji by {
        let p = optimal_modes(text.map_values(|c: char| status_or_ascii(c)), class)[j];
        assert(modes[j] == mode_of_index(p));
    }
    lemma_runs_no_kanji(text, modes, text.len() as int);
}

/// The segments of a text along the cheapest way to write it in a symbol of
/// size class `class`.
pub open spec fn text_runs(text: Seq<char>, class: int) -> Seq<(Mode, Seq<char>)> {
    runs(text, optimal_text_modes(text, class), text.len() as int)
}

/// The modes of the cheapest way to write a text, one per character.
pub open spec fn optimal_text_modes(text: Seq<char>, class: int) -> Seq<Mode> {
    optimal_modes(text.map_values(|c: char| status_or_ascii(c)), class).map_values(|p: int| mode_of_index(p))
}

fn char_to_mode(c: char) -> (r: Mode)
    ensures
        r == status_or_ascii(c),
        r != Mode::Kanji,
{
    match char_status(c) {
        Some(m) => m,
        None => Mode::ASCII,
    }
}

proof fn lemma_single_char(modes: Seq<Mode>, class: int)
    requires
        modes.len() == 1,
        modes[0] != Mode::Kanji,
        0 <= class < 3,
    ensures
        traced(modes, class, 0) == modes[0].spec_index(),
{
    lemma_cc_bits(class, Mode::ASCII);
    lemma_cc_bits(class, Mode::AlphaNum);
    lemma_cc_bits(class, Mode::Numeric);
    assert(cheapest_upto(modes, class, 0) == 0);
    assert(cheapest_upto(modes, class, 1) == 1);
    assert(cheapest_upto(modes, class, 2) == 2);
}

/// Splits a text into segments of one mode each, along the cheapest way to
/// write it (see `lemma_optimal_modes`) in a symbol of size class `class`.
pub fn optimize_mode(string: &String, class: u8) -> (r: Vec<(Mode, String)>)
    requires
        class < 3,
        168 * string@.len() + 200 <= u32::MAX,
    ensures
        segs_view(r@) == text_runs(string@, class as int),
        seg_chars(r@) == string@,
        seg_modes(r@) == optimal_text_modes(string@, class as int),
        forall|i: int| 0 <= i < r@.len() ==> (#[trigger] r@[i]).1@.len() > 0,
        forall|i: int| 0 < i < r@.len() ==> (#[trigger] r@[i]).0 != r@[i - 1].0,
{
    let text = string.as_str();
    let n = text.unicode_len();
    let ghost s = string@;
    let ghost modes = s.map_values(|c: char| status_or_ascii(c));
    if n == 0 {
        let r: Vec<(Mode, String)> = Vec::new();
        assert(optimal_text_modes(s, class as int) =~= Seq::<Mode>::empty());
        return r;
    }
    let mut chars: Vec<char> = Vec::new();
    let mut mode_vec: Vec<Mode> = Vec::new();
    let mut i: usize = 0;
    while i < n
        invariant
            n == s.len(),
            text@ == s,
            modes == s.map_values(|c: char| status_or_ascii(c)),
            i <= n,
            chars@ == s.subrange(0, i as int),
            mode_vec@ == modes.subrange(0, i as int),
        decreases n - i,
    {
        let c = text.get_char(i);
        chars.push(c);
        mode_vec.push(char_to_mode(c));
        proof {
            assert(chars@ =~= s.subrange(0, i + 1));
            assert(mode_vec@ =~= modes.subrange(0, i + 1));
        }
        i = i + 1;
    }
    assert(chars@ =~= s);
    assert(mode_vec@ =~= modes);
    if n == 1 {
        let mut one = String::new();
        push_char(&mut one, chars[0]);
        let mut r: Vec<(Mode, String)> = Vec::new();
        r.push((mode_vec[0], one));
        proof {
            lemma_single_char(modes, class as int);
            assert(one@ =~= s);
            assert(seg_chars(r@.drop_last()) =~= Seq::<char>::empty());
            assert(seg_chars(r@) =~= s);
            assert(seg_modes(r@.drop_last()) =~= Seq::<Mode>::empty());
            assert(mode_of_index(modes[0].spec_index()) == modes[0]);
            assert(optimal_text_modes(s, class as int)[0] == modes[0]);
            assert(seg_modes(r@) =~= optimal_text_modes(s, class as int));
            assert(runs(s, optimal_text_modes(s, class as int), 0) =~= Seq::<(Mode, Seq<char>)>::empty());
            assert(segs_view(r@) =~= text_runs(s, class as int));
        }
        return r;
    }
    let graph = create_graph(&mode_vec, class);
    let good = optimal_path(&graph, Ghost(modes), Ghost(class as int));
    let ghost opt = optimal_text_modes(s, class as int);
    let mut output: Vec<(Mode, String)> = Vec::new();
    let mut current_mode = good[0];
    let mut push_string = String::new();
    push_char(&mut push_string, chars[0]);
    proof {
        assert(runs(chars@, good@, 0) =~= Seq::<(Mode, Seq<char>)>::empty());
        assert(segs_view(output@).push((current_mode, push_string@)) =~= runs(chars@, good@, 1));
        assert(seg_chars(output@) + push_string@ =~= chars@.subrange(0, 1));
        assert(seg_modes(output@) + Seq::new(push_string@.len(), |j: int| current_mode) =~= good@.subrange(0, 1));
    }
    let mut k: usize = 1;
    while k < n
        invariant
            n == s.len(),
            chars@ == s,
            good@ == opt,
            opt.len() == n,
            1 <= k <= n,
            push_string@.len() >= 1,
            seg_chars(output@) + push_string@ == chars@.subrange(0, k as int),
            seg_modes(output@) + Seq::new(push_string@.len(), |j: int| current_mode) == good@.subrange(0, k as int),
            forall|j: int| 0 <= j < output@.len() ==> (#[trigger] output@[j]).1@.len() > 0,
            forall|j: int| 0 < j < output@.len() ==> (#[trigger] output@[j]).0 != output@[j - 1].0,
            output@.len() > 0 ==> output@.last().0 != current_mode,
            segs_view(output@).push((current_mode, push_string@)) == runs(chars@, good@, k as int),
            current_mode == good@[k - 1],
        decreases n - k,
    {
        let mode = good[k];
        let c = chars[k];
        let ghost old_out = output@;
        let ghost old_str = push_string@;
        if mode == current_mode {
            push_char(&mut push_string, c);
            proof {
                assert(seg_chars(output@) + push_string@ =~= (seg_chars(output@) + old_str).push(c));
                assert(chars@.subrange(0, k + 1) =~= chars@.subrange(0, k as int).push(chars@[k as int]));
                assert(seg_chars(output@) + push_string@ =~= chars@.subrange(0, k + 1));
                let a = seg_modes(output@);
                let l = old_str.len();
                assert(a + Seq::new(l + 1, |j: int| current_mode) =~= (a + Seq::new(l, |j: int| current_mode)).push(current_mode));
                assert(good@.subrange(0, k + 1) =~= good@.subrange(0, k as int).push(good@[k as int]));
                assert(seg_modes(output@) + Seq::new(push_string@.len(), |j: int| current_mode) =~= good@.subrange(0, k + 1));
                let rk = runs(chars@, good@, k as int);
                assert(rk == segs_view(output@).push((current_mode, old_str)));
                assert(segs_view(output@).push((current_mode, push_string@)) =~=
                    rk.update(rk.len() - 1, (good@[k as int], rk.last().1.push(chars@[k as int]))));
            }
        } else {
            let finished = push_string;
            output.push((current_mode, finished));
            current_mode = mode;
            push_string = String::new();
            push_char(&mut push_string, c);
            proof {
                assert(output@.drop_last() =~= old_out);
                assert(seg_chars(output@) =~= seg_chars(old_out) + old_str);
                assert(seg_modes(output@) =~= seg_modes(old_out) + Seq::new(old_str.len(), |j: int| output@.last().0));
                assert(seg_chars(output@) + push_string@ =~= chars@.subrange(0, k + 1));
                assert(seg_modes(output@) + Seq::new(push_string@.len(), |j: int| current_mode) =~= good@.subrange(0, k + 1));
                assert(segs_view(output@) =~= segs_view(old_out).push((output@.last().0, old_str)));
                assert(segs_view(output@).push((current_mode, push_string@)) =~=
                    runs(chars@, good@, k as int).push((good@[k as int], seq![chars@[k as int]])));
            }
        }
        k = k + 1;
    }
    let ghost old_out = output@;
    let ghost old_str = push_string@;
    let ghost last_mode = current_mode;
    output.push((current_mode, push_string));
    proof {
        assert(output@.drop_last() =~= old_out);
        assert(seg_chars(output@) =~= seg_chars(old_out) + old_str);
        assert(seg_modes(output@) =~= seg_modes(old_out) + Seq::new(old_str.len(), |j: int| last_mode));
        assert(good@.subrange(0, n as int) =~= good@);
        assert(chars@.subrange(0, n as int) =~= chars@);
        assert(segs_view(output@) =~= segs_view(old_out).push((last_mode, old_str)));
    }
    output
}

/// A character can be written in a mode.
pub open spec fn char_fits(m: Mode, c: char) -> bool {
    match m {
        Mode::Numeric => is_digit(c),
        Mode::AlphaNum => is_alphanum(c),
        Mode::ASCII => true,
        Mode::Kanji => false,
    }
}

proof fn lemma_runs_fit(chars: Seq<char>, modes: Seq<Mode>, n: int)
    requires
        0 <= n <= modes.len(),
        n <= chars.len(),
        forall|j: int| 0 <= j < n ==> char_fits(#[trigger] modes[j], chars[j]),
    ensures
        forall|i: int| 0 <= i < runs(chars, modes, n).len() ==> segment_valid(#[trigger] runs(chars, modes, n)[i].0, runs(chars, modes, n)[i].1),
        n > 0 ==> runs(chars, modes, n).len() > 0 && runs(chars, modes, n).last().0 == modes[n - 1],
    decreases n,
{
    if n > 0 {
        lemma_runs_fit(chars, modes, n - 1);
        let r = runs(chars, modes, n - 1);
        let rn = runs(chars, modes, n);
        assert(char_fits(modes[n - 1], chars[n - 1]));
        assert forall|i: int| 0 <= i < rn.len() implies segment_valid(#[trigger] rn[i].0, rn[i].1) by {
            if i < r.len() && !(n > 1 && modes[n - 1] == modes[n - 2] && i == r.len() - 1) {
                assert(rn[i] == r[i]);
                assert(segment_valid(r[i].0, r[i].1));
            } else {
                let seg = rn[i];
                if n > 1 && modes[n - 1] == modes[n - 2] {
                    assert(segment_valid(r[i].0, r[i].1));
                    assert(seg.1 == r[i].1.push(chars[n - 1]));
                    assert forall|t: int| 0 <= t < seg.1.len() implies char_fits(seg.0, #[trigger] seg.1[t]) by {
                        if t < r[i].1.len() {
                            assert(seg.1[t] == r[i].1[t]);
                        }
                    }
                } else {
                    assert(seg.1 == seq![chars[n - 1]]);
                    assert forall|t: int| 0 <= t < seg.1.len() implies char_fits(seg.0, #[trigger] seg.1[t]) by {}
                }
            }
        }
    }
}

/// Every segment of a text can be written in its mode.
pub proof fn lemma_text_runs_valid(text: Seq<char>, class: int)
    requires
        0 <= class < 3,
    ensures
        forall|i: int| 0 <= i < text_runs(text, class).len() ==> segment_valid(#[trigger] text_runs(text, class)[i].0, text_runs(text, class)[i].1),
{
    let modes = text.map_values(|c: char| status_or_ascii(c));
    let opt = optimal_modes(modes, class);
    let tm = optimal_text_modes(text, class);
    if text.len() >= 1 {
        let ascii_path = Seq::new(text.len(), |j: int| 0int);
        assert(valid_path(modes, ascii_path));
        lemma_optimal_modes(modes, class, ascii_path);
    }
    assert forall|j: int| 0 <= j < text.len() implies char_fits(#[trigger] tm[j], text[j]) by {
        let c = text[j];
        let p = opt[j];
        assert(admits(modes[j], p));
        assert(modes[j] == status_or_ascii(c));
        crate::qr_standard::tables::lemma_alphanum_value(c);
    }
    lemma_runs_fit(text, tm, text.len() as int);
}

} // verus!
