//! The packed layout shared by the trees: a complete tree of degree `d` over
//! `n` leaves, flattened level by level into one array, and the facts about it
//! that the builders and the queries rely on.
use vstd::prelude::*;

use crate::rectangle::{HasEnvelope, Rectangle, empty_rect, envelope_of};
use crate::utils::{calculate_level_indices, fits, level_size, level_start, levels_of, lemma_ceil_div_facts, ceil_div};

verus! {

/// `d` to the power `k`: the number of leaf slots under a node of level `k`.
pub open spec fn pw(d: int, k: nat) -> int
    decreases k,
{
    if k == 0 {
        1
    } else {
        d * pw(d, (k - 1) as nat)
    }
}

/// Number of slots of level `k`, padding included.
pub open spec fn slots(li: Seq<usize>, k: int) -> int {
    if k + 1 < li.len() {
        li[k + 1] - li[k]
    } else {
        1
    }
}

/// Leaf slot `i` lies under node `o` of level `k`.
pub open spec fn under(d: int, k: nat, o: int, i: int) -> bool {
    pw(d, k) * o <= i < pw(d, k) * (o + 1)
}

/// The children of node `o` of level `k`.
pub open spec fn children(d: int, li: Seq<usize>, t: Seq<Rectangle>, k: int, o: int) -> Seq<Rectangle> {
    t.subrange(li[k - 1] + d * o, li[k - 1] + d * o + d)
}

/// Padding slots of each level are empty.
pub open spec fn padded(d: int, n: int, li: Seq<usize>, t: Seq<Rectangle>) -> bool {
    forall|k: int, o: int|
        0 <= k < li.len() && level_size(d, n, k as nat) <= o < slots(li, k) ==> #[trigger] t[li[k]
            + o].empty()
}

/// Every internal node is the envelope of its children.
pub open spec fn folded(d: int, n: int, li: Seq<usize>, t: Seq<Rectangle>) -> bool {
    forall|k: int, o: int|
        1 <= k < li.len() && 0 <= o < level_size(d, n, k as nat) ==> #[trigger] t[li[k] + o] == envelope_of(
            children(d, li, t, k, o),
        )
}

/// `t` is a packed tree of degree `d` over `n` leaves with levels `li`.
pub open spec fn packed_wf(d: int, n: int, li: Seq<usize>, t: Seq<Rectangle>) -> bool {
    &&& d >= 2
    &&& n >= 0
    &&& fits(d, n)
    &&& levels_of(li, d, n)
    &&& n == 0 ==> t.len() == 0
    &&& n > 0 ==> t.len() == li[li.len() - 1] + 1
    &&& padded(d, n, li, t)
    &&& folded(d, n, li, t)
}

/// `h` is the number of levels of a tree of degree `d` over `n` leaves.
pub open spec fn is_height(d: int, n: int, h: int) -> bool {
    if n == 0 {
        h == 0
    } else {
        &&& h >= 1
        &&& forall|k: int| 0 <= k < h - 1 ==> #[trigger] level_size(d, n, k as nat) > 1
        &&& level_size(d, n, (h - 1) as nat) == 1
    }
}

pub proof fn lemma_union_covers(a: Rectangle, b: Rectangle)
    ensures
        a.union(b).covers(a),
        a.union(b).covers(b),
        !a.empty() ==> !a.union(b).empty(),
        !b.empty() ==> !a.union(b).empty(),
{
}

pub proof fn lemma_covers_trans(a: Rectangle, b: Rectangle, c: Rectangle)
    requires
        a.covers(b),
        b.covers(c),
    ensures
        a.covers(c),
{
}

pub proof fn lemma_envelope_covers(s: Seq<Rectangle>, j: int)
    requires
        0 <= j < s.len(),
    ensures
        envelope_of(s).covers(s[j]),
    decreases s.len(),
{
    let e = envelope_of(s.drop_last());
    lemma_union_covers(e, s.last());
    if j < s.len() - 1 {
        lemma_envelope_covers(s.drop_last(), j);
        lemma_covers_trans(envelope_of(s), e, s[j]);
    }
}

pub proof fn lemma_pw_pos(d: int, k: nat)
    requires
        d >= 2,
    ensures
        pw(d, k) >= 1,
        k > 0 ==> pw(d, k) == d * pw(d, (k - 1) as nat),
    decreases k,
{
    if k > 0 {
        lemma_pw_pos(d, (k - 1) as nat);
        let p = pw(d, (k - 1) as nat);
        assert(d * p >= 1) by (nonlinear_arith)
            requires
                d >= 2,
                p >= 1,
        ;
    }
}

pub proof fn lemma_pw_mono(d: int, j: nat, k: nat)
    requires
        d >= 2,
        j <= k,
    ensures
        pw(d, j) <= pw(d, k),
    decreases k,
{
    if j < k {
        lemma_pw_mono(d, j, (k - 1) as nat);
        lemma_pw_pos(d, (k - 1) as nat);
        let p = pw(d, (k - 1) as nat);
        assert(p <= d * p) by (nonlinear_arith)
            requires
                d >= 2,
                p >= 1,
        ;
    }
}

/// Each level holds at least one node, and `pw(d, k)` slots per node cover
/// the leaves with less than one node to spare.
pub proof fn lemma_level_size_bounds(d: int, n: int, k: nat)
    requires
        d >= 2,
        n >= 1,
    ensures
        level_size(d, n, k) >= 1,
        pw(d, k) * level_size(d, n, k) >= n,
        pw(d, k) * (level_size(d, n, k) - 1) < n,
    decreases k,
{
    lemma_pw_pos(d, k);
    if k > 0 {
        let km = (k - 1) as nat;
        lemma_level_size_bounds(d, n, km);
        lemma_pw_pos(d, km);
        let s = level_size(d, n, km);
        let c = level_size(d, n, k);
        let p = pw(d, km);
        lemma_ceil_div_facts(s, d);
        assert(c == ceil_div(s, d));
        assert(p * d * c >= n) by (nonlinear_arith)
            requires
                d * c >= s,
                p * s >= n,
                p >= 1,
        ;
        assert(p * d * (c - 1) < n) by (nonlinear_arith)
            requires
                d * (c - 1) < s,
                p * (s - 1) < n,
                p >= 1,
        ;
        assert(pw(d, k) == p * d) by (nonlinear_arith)
            requires
                pw(d, k) == d * p,
        ;
    }
}

/// Facts about the levels of a well-formed layout.
pub proof fn lemma_levels(d: int, n: int, li: Seq<usize>, k: int)
    requires
        d >= 2,
        n >= 1,
        levels_of(li, d, n),
        0 <= k < li.len(),
    ensures
        k + 1 < li.len() ==> slots(li, k) == d * level_size(d, n, (k + 1) as nat),
        k + 1 < li.len() ==> li[k] + d * level_size(d, n, (k + 1) as nat) == li[k + 1],
        level_size(d, n, k as nat) <= slots(li, k),
        level_size(d, n, k as nat) >= 1,
        pw(d, k as nat) <= d * n,
        k + 1 == li.len() ==> level_size(d, n, k as nat) == 1,
{
    lemma_level_size_bounds(d, n, k as nat);
    if k + 1 < li.len() {
        assert(li[k + 1] == level_start(d, n, (k + 1) as nat));
        lemma_ceil_div_facts(level_size(d, n, k as nat), d);
    }
    lemma_pw_pos(d, k as nat);
    if k == 0 {
        assert(1 <= d * n) by (nonlinear_arith)
            requires
                d >= 2,
                n >= 1,
        ;
    } else {
        let km = (k - 1) as nat;
        lemma_level_size_bounds(d, n, km);
        lemma_pw_pos(d, km);
        let p = pw(d, km);
        let s = level_size(d, n, km);
        assert(s > 1);
        assert(d * p <= d * n) by (nonlinear_arith)
            requires
                p * (s - 1) < n,
                s > 1,
                p >= 1,
                d >= 2,
        ;
    }
}

pub proof fn lemma_start_mono(d: int, n: int, j: nat, k: nat)
    requires
        d >= 2,
        n >= 1,
        j <= k,
    ensures
        level_start(d, n, j) <= level_start(d, n, k),
    decreases k,
{
    if j < k {
        lemma_start_mono(d, n, j, (k - 1) as nat);
        lemma_level_size_bounds(d, n, k);
        assert(d * level_size(d, n, k) >= 0) by (nonlinear_arith)
            requires
                d >= 2,
                level_size(d, n, k) >= 1,
        ;
    }
}

/// Splitting a slot index by the width of a child.
pub proof fn lemma_child_of(d: int, k: nat, o: int, i: int) -> (c: int)
    requires
        d >= 2,
        k >= 1,
        o >= 0,
        under(d, k, o, i),
    ensures
        d * o <= c < d * o + d,
        under(d, (k - 1) as nat, c, i),
{
    let km = (k - 1) as nat;
    lemma_pw_pos(d, k);
    lemma_pw_pos(d, km);
    let p = pw(d, km);
    let c = i / p;
    let r = i % p;
    vstd::arithmetic::div_mod::lemma_fundamental_div_mod(i, p);
    assert(pw(d, k) * o == p * (d * o) && pw(d, k) * (o + 1) == p * (d * o + d)) by (nonlinear_arith)
        requires
            pw(d, k) == d * p,
    ;
    assert(d * o <= c < d * o + d && p * c <= i < p * (c + 1)) by (nonlinear_arith)
        requires
            i == p * c + r,
            0 <= r < p,
            p * (d * o) <= i < p * (d * o + d),
            p >= 1,
    ;
    c
}

/// The slots under child `c` of node `o` lie under `o`, and children are
/// laid side by side.
pub proof fn lemma_child_range(d: int, k: nat, o: int, j: int)
    requires
        d >= 2,
        k >= 1,
        0 <= j < d,
    ensures
        pw(d, (k - 1) as nat) * (d * o + j) + pw(d, (k - 1) as nat) == pw(d, (k - 1) as nat) * (d
            * o + j + 1),
        pw(d, (k - 1) as nat) * (d * o) == pw(d, k) * o,
        pw(d, (k - 1) as nat) * (d * o + d) == pw(d, k) * (o + 1),
        pw(d, k) * o <= pw(d, (k - 1) as nat) * (d * o + j),
        pw(d, (k - 1) as nat) * (d * o + j + 1) <= pw(d, k) * (o + 1),
{
    lemma_pw_pos(d, k);
    lemma_pw_pos(d, (k - 1) as nat);
    let p = pw(d, (k - 1) as nat);
    assert(p * (d * o + j) + p == p * (d * o + j + 1)) by (nonlinear_arith);
    assert(p * (d * o) == pw(d, k) * o) by (nonlinear_arith)
        requires
            pw(d, k) == d * p,
    ;
    assert(p * (d * o + d) == pw(d, k) * (o + 1)) by (nonlinear_arith)
        requires
            pw(d, k) == d * p,
    ;
    assert(p * (d * o) <= p * (d * o + j)) by (nonlinear_arith)
        requires
            p >= 1,
            j >= 0,
    ;
    assert(p * (d * o + j + 1) <= p * (d * o + d)) by (nonlinear_arith)
        requires
            p >= 1,
            j < d,
    ;
}

/// A node covers every leaf under it, and a node with a leaf under it is not
/// padding.
pub proof fn lemma_node_covers_leaf(d: int, n: int, li: Seq<usize>, t: Seq<Rectangle>, k: int, o: int, i: int)
    requires
        packed_wf(d, n, li, t),
        0 <= k < li.len(),
        0 <= o,
        0 <= i < n,
        under(d, k as nat, o, i),
    ensures
        o < level_size(d, n, k as nat),
        t[li[k] + o].covers(t[i]),
    decreases k,
{
    lemma_level_size_bounds(d, n, k as nat);
    lemma_pw_pos(d, k as nat);
    let p = pw(d, k as nat);
    let s = level_size(d, n, k as nat);
    assert(o < s) by (nonlinear_arith)
        requires
            p * o <= i,
            i < n,
            p * s >= n,
            p >= 1,
    ;
    lemma_levels(d, n, li, k);
    if k == 0 {
        assert(li[0] == level_start(d, n, 0));
        assert(pw(d, 0) == 1);
        assert(i == o) by (nonlinear_arith)
            requires
                pw(d, 0) * o <= i < pw(d, 0) * (o + 1),
                pw(d, 0) == 1,
        ;
    } else {
        let c = lemma_child_of(d, k as nat, o, i);
        lemma_node_covers_leaf(d, n, li, t, k - 1, c, i);
        lemma_levels(d, n, li, k - 1);
        assert(d * o + d <= d * s) by (nonlinear_arith)
            requires
                o < s,
                d >= 2,
        ;
        lemma_start_mono(d, n, k as nat, (li.len() - 1) as nat);
        assert(li[k] == level_start(d, n, k as nat));
        assert(li[li.len() - 1] == level_start(d, n, (li.len() - 1) as nat));
        let ch = children(d, li, t, k, o);
        assert(ch[c - d * o] == t[li[k - 1] + c]);
        lemma_envelope_covers(ch, c - d * o);
        assert(t[li[k] + o] == envelope_of(ch));
        lemma_covers_trans(t[li[k] + o], t[li[k - 1] + c], t[i]);
    }
}

/// Nodes of the descent weigh as much as their whole subtree, so that
/// replacing a node by its children lowers the total.
pub open spec fn weight(d: int, k: nat) -> int
    decreases k,
{
    if k == 0 {
        1
    } else {
        d * weight(d, (k - 1) as nat) + 1
    }
}

pub open spec fn stack_weight(d: int, st: Seq<(usize, usize)>) -> int
    decreases st.len(),
{
    if st.len() == 0 {
        0
    } else {
        stack_weight(d, st.drop_last()) + weight(d, st.last().0 as nat)
    }
}

pub proof fn lemma_weight_pos(d: int, k: nat)
    requires
        d >= 2,
    ensures
        weight(d, k) >= 1,
    decreases k,
{
    if k > 0 {
        lemma_weight_pos(d, (k - 1) as nat);
        let w = weight(d, (k - 1) as nat);
        assert(d * w >= 0) by (nonlinear_arith)
            requires
                d >= 2,
                w >= 1,
        ;
    }
}

pub proof fn lemma_stack_weight_nonneg(d: int, st: Seq<(usize, usize)>)
    requires
        d >= 2,
    ensures
        stack_weight(d, st) >= 0,
    decreases st.len(),
{
    if st.len() > 0 {
        lemma_stack_weight_nonneg(d, st.drop_last());
        lemma_weight_pos(d, st.last().0 as nat);
    }
}

pub proof fn lemma_stack_weight_push(d: int, st: Seq<(usize, usize)>, e: (usize, usize))
    ensures
        stack_weight(d, st.push(e)) == stack_weight(d, st) + weight(d, e.0 as nat),
{
    assert(st.push(e).drop_last() =~= st);
}

/// A leaf that meets `q` under a node makes the node meet `q`.
pub proof fn lemma_meets_up(q: Rectangle, node: Rectangle, leaf: Rectangle)
    requires
        node.covers(leaf),
        q.meets(leaf),
    ensures
        q.meets(node),
{
}

/// Under a node that `q` holds, every leaf that holds a point meets `q`.
pub proof fn lemma_holds_down(q: Rectangle, node: Rectangle, leaf: Rectangle)
    requires
        node.covers(leaf),
        q.holds(node),
        !leaf.empty(),
    ensures
        q.meets(leaf),
{
}

/// The leaf slots under an entry of the descent.
pub open spec fn lo_of(d: int, e: (usize, usize)) -> int {
    pw(d, e.0 as nat) * e.1
}

pub open spec fn hi_of(d: int, e: (usize, usize)) -> int {
    pw(d, e.0 as nat) * (e.1 + 1)
}

pub open spec fn in_entry(d: int, e: (usize, usize), i: int) -> bool {
    lo_of(d, e) <= i < hi_of(d, e)
}

/// The levels below `level` are complete: padding of the levels below
/// `level - 1` is empty, and the nodes of levels `1 .. level` are folded.
pub open spec fn built(d: int, n: int, li: Seq<usize>, t: Seq<Rectangle>, level: int) -> bool {
    &&& forall|k: int, o: int|
        0 <= k < level - 1 && level_size(d, n, k as nat) <= o < slots(li, k) ==> #[trigger] t[li[k]
            + o].empty()
    &&& forall|k: int, o: int|
        1 <= k < level && 0 <= o < level_size(d, n, k as nat) ==> #[trigger] t[li[k] + o]
            == envelope_of(children(d, li, t, k, o))
}

/// `built` reads only the slots below the current level's nodes.
pub proof fn lemma_built_stable(d: int, n: int, li: Seq<usize>, t1: Seq<Rectangle>, t2: Seq<Rectangle>, level: int)
    requires
        d >= 2,
        n >= 1,
        levels_of(li, d, n),
        1 <= level <= li.len(),
        built(d, n, li, t1, level),
        t1.len() >= li[level - 1] + level_size(d, n, (level - 1) as nat),
        t2.len() >= t1.len(),
        forall|i: int| 0 <= i < t1.len() ==> t2[i] == t1[i],
    ensures
        built(d, n, li, t2, level),
{
    assert forall|k: int, o: int|
        0 <= k < level - 1 && level_size(d, n, k as nat) <= o < slots(li, k) implies #[trigger] t2[li[k] + o].empty() by {
        lemma_levels(d, n, li, k);
        lemma_start_mono(d, n, (k + 1) as nat, (level - 1) as nat);
        assert(li[k + 1] == level_start(d, n, (k + 1) as nat));
        assert(li[level - 1] == level_start(d, n, (level - 1) as nat));
    }
    assert forall|k: int, o: int|
        1 <= k < level && 0 <= o < level_size(d, n, k as nat) implies #[trigger] t2[li[k] + o]
            == envelope_of(children(d, li, t2, k, o)) by {
        lemma_levels(d, n, li, k);
        lemma_levels(d, n, li, k - 1);
        lemma_start_mono(d, n, k as nat, (level - 1) as nat);
        assert(li[k] == level_start(d, n, k as nat));
        assert(li[level - 1] == level_start(d, n, (level - 1) as nat));
        assert(d * o + d <= d * level_size(d, n, k as nat)) by (nonlinear_arith)
            requires
                o < level_size(d, n, k as nat),
                d >= 2,
        ;
        if k < level - 1 {
            lemma_start_mono(d, n, (k + 1) as nat, (level - 1) as nat);
            assert(li[k + 1] == level_start(d, n, (k + 1) as nat));
        }
        assert(li[k] + o < t1.len());
        assert(t1[li[k] + o] == envelope_of(children(d, li, t1, k, o)));
        assert(children(d, li, t2, k, o) =~= children(d, li, t1, k, o));
    }
}

/// `base` to the power `exp`.
pub fn power(base: usize, exp: usize) -> (r: usize)
    requires
        base >= 2,
        pw(base as int, exp as nat) <= usize::MAX,
    ensures
        r == pw(base as int, exp as nat),
{
    let mut r: usize = 1;
    let mut i: usize = 0;
    while i < exp
        invariant
            base >= 2,
            i <= exp,
            pw(base as int, exp as nat) <= usize::MAX,
            r == pw(base as int, i as nat),
        decreases exp - i,
    {
        proof {
            lemma_pw_mono(base as int, (i + 1) as nat, exp as nat);
            lemma_pw_pos(base as int, (i + 1) as nat);
            assert(pw(base as int, (i + 1) as nat) == r * base) by (nonlinear_arith)
                requires
                    pw(base as int, (i + 1) as nat) == base * r,
            ;
        }
        r = r * base;
        i += 1;
    }
    r
}

/// The leaf slots under a node of a well-formed layout fit in `usize`.
pub proof fn lemma_range_fits(d: int, n: int, li: Seq<usize>, k: int, o: int)
    requires
        d >= 2,
        n >= 1,
        fits(d, n),
        levels_of(li, d, n),
        0 <= k < li.len(),
        0 <= o < level_size(d, n, k as nat),
    ensures
        1 <= pw(d, k as nat) <= d * n,
        0 <= pw(d, k as nat) * o < n,
        pw(d, k as nat) * o < pw(d, k as nat) * (o + 1),
        pw(d, k as nat) * (o + 1) <= n + d * n,
        o < n,
        n + d * n < usize::MAX,
{
    lemma_levels(d, n, li, k);
    lemma_level_size_bounds(d, n, k as nat);
    lemma_pw_pos(d, k as nat);
    let p = pw(d, k as nat);
    let s = level_size(d, n, k as nat);
    assert(0 <= p * o <= p * (s - 1) && p * (o + 1) <= p * s && p * s == p * (s - 1) + p && o <= p * o && p * o < p * (o + 1)) by (nonlinear_arith)
        requires
            0 <= o < s,
            p >= 1,
    ;
    assert((d + 2) * n == d * n + 2 * n) by (nonlinear_arith);
}

pub proof fn lemma_union_assoc(a: Rectangle, b: Rectangle, c: Rectangle)
    ensures
        a.union(b).union(c) == a.union(b.union(c)),
{
}

/// `union` does not tell empty rectangles apart.
pub proof fn lemma_union_same(a: Rectangle, a2: Rectangle, b: Rectangle, b2: Rectangle)
    requires
        a.same(a2),
        b.same(b2),
    ensures
        a.union(b) == a2.union(b2),
{
}

pub proof fn lemma_envelope_concat(a: Seq<Rectangle>, b: Seq<Rectangle>)
    ensures
        envelope_of(a + b).same(envelope_of(a).union(envelope_of(b))),
    decreases b.len(),
{
    if b.len() == 0 {
        assert(a + b =~= a);
    } else {
        assert((a + b).drop_last() =~= a + b.drop_last());
        lemma_envelope_concat(a, b.drop_last());
        let x = envelope_of(a + b.drop_last());
        let y = envelope_of(a).union(envelope_of(b.drop_last()));
        lemma_union_same(x, y, b.last(), b.last());
        lemma_union_assoc(envelope_of(a), envelope_of(b.drop_last()), b.last());
    }
}

/// `x`, capped at `n`.
pub open spec fn clamp(x: int, n: int) -> int {
    if x < n {
        x
    } else {
        n
    }
}

/// Each node is the envelope of the leaves under it.
pub proof fn lemma_node_envelope(d: int, n: int, li: Seq<usize>, t: Seq<Rectangle>, k: int, o: int)
    requires
        packed_wf(d, n, li, t),
        0 <= k < li.len(),
        0 <= o < level_size(d, n, k as nat),
    ensures
        t[li[k] + o].same(
            envelope_of(t.subrange(clamp(pw(d, k as nat) * o, n), clamp(pw(d, k as nat) * (o + 1), n))),
        ),
    decreases k, d + 1,
{
    lemma_levels(d, n, li, k);
    lemma_level_size_bounds(d, n, k as nat);
    lemma_pw_pos(d, k as nat);
    lemma_range_fits(d, n, li, k, o);
    lemma_leaves_first(d, n, li, t);
    if k == 0 {
        assert(li[0] == level_start(d, n, 0));
        assert(pw(d, 0) == 1);
        let s = t.subrange(o, o + 1);
        assert(s.drop_last() =~= Seq::<Rectangle>::empty());
        assert(s.last() == t[o]);
        assert(pw(d, 0) * o == o && pw(d, 0) * (o + 1) == o + 1);
        assert(s.len() == 1);
        assert(envelope_of(Seq::<Rectangle>::empty()) == empty_rect());
        assert(envelope_of(s.drop_last()) == empty_rect());
        assert(envelope_of(s) == empty_rect().union(t[o]));
    } else {
        lemma_children_envelope(d, n, li, t, k, o, d);
        lemma_levels(d, n, li, k - 1);
        lemma_start_mono(d, n, k as nat, (li.len() - 1) as nat);
        assert(li[k] == level_start(d, n, k as nat));
        assert(li[li.len() - 1] == level_start(d, n, (li.len() - 1) as nat));
        assert(d * o + d <= d * level_size(d, n, k as nat)) by (nonlinear_arith)
            requires
                o < level_size(d, n, k as nat),
                d >= 2,
        ;
        let ch = children(d, li, t, k, o);
        assert(ch.take(d) =~= ch);
        assert(t[li[k] + o] == envelope_of(ch));
        lemma_child_range(d, k as nat, o, 0);
    }
}

/// The first `j` children of a node fold to the envelope of the leaves under them.
pub proof fn lemma_children_envelope(d: int, n: int, li: Seq<usize>, t: Seq<Rectangle>, k: int, o: int, j: int)
    requires
        packed_wf(d, n, li, t),
        1 <= k < li.len(),
        0 <= o < level_size(d, n, k as nat),
        0 <= j <= d,
    ensures
        envelope_of(children(d, li, t, k, o).take(j)).same(
            envelope_of(t.subrange(clamp(pw(d, (k - 1) as nat) * (d * o), n), clamp(pw(d, (k - 1) as nat) * (d * o + j), n))),
        ),
    decreases k, j,
{
    let km = k - 1;
    let p = pw(d, km as nat);
    lemma_levels(d, n, li, k);
    lemma_levels(d, n, li, km);
    lemma_pw_pos(d, km as nat);
    lemma_leaves_first(d, n, li, t);
    lemma_start_mono(d, n, k as nat, (li.len() - 1) as nat);
    assert(li[k] == level_start(d, n, k as nat));
    assert(li[li.len() - 1] == level_start(d, n, (li.len() - 1) as nat));
    assert(d * o + d <= d * level_size(d, n, k as nat)) by (nonlinear_arith)
        requires
            o < level_size(d, n, k as nat),
            d >= 2,
    ;
    let ch = children(d, li, t, k, o);
    let m0 = clamp(p * (d * o), n);
    if j == 0 {
        assert(ch.take(0) =~= Seq::<Rectangle>::empty());
        assert(t.subrange(m0, m0) =~= Seq::<Rectangle>::empty());
    } else {
        let jm = j - 1;
        lemma_children_envelope(d, n, li, t, k, o, jm);
        lemma_child_range(d, k as nat, o, jm);
        let c = d * o + jm;
        let lo = clamp(p * c, n);
        let hi = clamp(p * (c + 1), n);
        assert(ch[jm] == t[li[km] + c]);
        let g = envelope_of(t.subrange(lo, hi));
        assert(ch[jm].same(g)) by {
            if c < level_size(d, n, km as nat) {
                lemma_node_envelope(d, n, li, t, km, c);
            } else {
                assert(t[li[km] + c].empty());
                lemma_level_size_bounds(d, n, km as nat);
                assert(p * c >= n) by (nonlinear_arith)
                    requires
                        c >= level_size(d, n, km as nat),
                        p * level_size(d, n, km as nat) >= n,
                        p >= 1,
                ;
                assert(t.subrange(lo, hi) =~= Seq::<Rectangle>::empty());
            }
        }
        assert(ch.take(j).drop_last() =~= ch.take(jm));
        let prev = envelope_of(t.subrange(m0, lo));
        lemma_union_same(envelope_of(ch.take(jm)), prev, ch[jm], g);
        assert(p * (d * o) <= p * c) by (nonlinear_arith)
            requires
                p >= 1,
                jm >= 0,
                c == d * o + jm,
        ;
        assert(t.subrange(m0, lo) + t.subrange(lo, hi) =~= t.subrange(m0, hi));
        lemma_envelope_concat(t.subrange(m0, lo), t.subrange(lo, hi));
    }
}

/// The leaves come first in the flat array.
pub proof fn lemma_leaves_first(d: int, n: int, li: Seq<usize>, t: Seq<Rectangle>)
    requires
        packed_wf(d, n, li, t),
    ensures
        n <= t.len(),
        n > 0 ==> li[0] == 0,
{
    if n > 0 {
        assert(li[0] == level_start(d, n, 0));
        lemma_levels(d, n, li, 0);
        lemma_start_mono(d, n, 0, (li.len() - 1) as nat);
        assert(li[li.len() - 1] == level_start(d, n, (li.len() - 1) as nat));
        if li.len() > 1 {
            lemma_start_mono(d, n, 1, (li.len() - 1) as nat);
            assert(li[1] == level_start(d, n, 1));
        }
    }
}

/// The root is the envelope of all the leaves.
pub proof fn lemma_root_envelope(d: int, n: int, li: Seq<usize>, t: Seq<Rectangle>)
    requires
        packed_wf(d, n, li, t),
        n > 0,
    ensures
        t[li[li.len() - 1] as int].same(envelope_of(t.take(n))),
{
    let h = li.len() - 1;
    lemma_levels(d, n, li, h);
    lemma_level_size_bounds(d, n, h as nat);
    lemma_leaves_first(d, n, li, t);
    lemma_node_envelope(d, n, li, t, h, 0);
    assert(pw(d, h as nat) * 0 == 0);
    assert(pw(d, h as nat) * (0 + 1) == pw(d, h as nat));
    assert(t.subrange(0, n) =~= t.take(n));
}

/// The leaves that hold a point among the slots under node `offset` of `level`,
/// in increasing order.
pub fn leaf_range(
    degree: usize,
    size: usize,
    level_indices: &Vec<usize>,
    tree: &Vec<Rectangle>,
    level: usize,
    offset: usize,
) -> (r: Vec<usize>)
    requires
        packed_wf(degree as int, size as int, level_indices@, tree@),
        level < level_indices@.len(),
        offset < level_size(degree as int, size as int, level as nat),
    ensures
        forall|a: int, b: int| 0 <= a < b < r@.len() ==> r@[a] < r@[b],
        forall|a: int|
            0 <= a < r@.len() ==> in_entry(degree as int, (level, offset), r@[a] as int)
                && r@[a] < size && !tree@[r@[a] as int].empty(),
        forall|i: int|
            0 <= i < size && in_entry(degree as int, (level, offset), i)
                && !tree@[i].empty() ==> r@.contains(i as usize),
{
    proof {
        lemma_range_fits(degree as int, size as int, level_indices@, level as int, offset as int);
        lemma_leaves_first(degree as int, size as int, level_indices@, tree@);
    }
    let width = power(degree, level);
    proof {
        assert(width * offset == pw(degree as int, level as nat) * offset);
        assert(width * (offset + 1) == pw(degree as int, level as nat) * (offset + 1));
    }
    let start = width * offset;
    let hi = width * (offset + 1);
    let end = if size < hi {
        size
    } else {
        hi
    };
    let mut result: Vec<usize> = Vec::new();
    let mut i = start;
    while i < end
        invariant
            start <= i <= end,
            end <= size,
            size <= tree@.len(),
            start == pw(degree as int, level as nat) * offset,
            hi == pw(degree as int, level as nat) * (offset + 1),
            end <= hi,
            forall|a: int, b: int| 0 <= a < b < result@.len() ==> result@[a] < result@[b],
            forall|a: int|
                0 <= a < result@.len() ==> start <= #[trigger] result@[a] < i
                    && !tree@[result@[a] as int].empty(),
            forall|j: int|
                start <= j < i && !tree@[j].empty() ==> result@.contains(j as usize),
        decreases end - i,
    {
        if !tree[i].is_empty() {
            let ghost r0 = result@;
            result.push(i);
            proof {
                assert(result@[result@.len() - 1] == i);
                assert forall|j: int| start <= j < i && !tree@[j].empty() implies result@.contains(j as usize) by {
                    let a = choose|a: int| 0 <= a < r0.len() && r0[a] == j as usize;
                    assert(result@[a] == j as usize);
                }
            }
        }
        i += 1;
    }
    result
}

/// The leaf slots that meet `query`, found by descending from the root.
/// With `shortcut`, a subtree that `query` holds is taken whole.
#[verifier::rlimit(40)]
pub fn descend(
    degree: usize,
    size: usize,
    level_indices: &Vec<usize>,
    tree: &Vec<Rectangle>,
    query: &Rectangle,
    shortcut: bool,
) -> (r: Vec<usize>)
    requires
        packed_wf(degree as int, size as int, level_indices@, tree@),
    ensures
        r@.no_duplicates(),
        forall|i: usize| r@.contains(i) <==> (i < size && query.meets(tree@[i as int])),
{
    proof {
        lemma_leaves_first(degree as int, size as int, level_indices@, tree@);
    }
    let ghost d = degree as int;
    let ghost n = size as int;
    let ghost li = level_indices@;
    let ghost t = tree@;
    let mut results: Vec<usize> = Vec::new();
    if size == 0 {
        return results;
    }
    let mut stack: Vec<(usize, usize)> = Vec::new();
    let h = level_indices.len();
    proof {
        lemma_levels(d, n, li, h - 1);
        lemma_level_size_bounds(d, n, (h - 1) as nat);
        lemma_pw_pos(d, (h - 1) as nat);
    }
    if query.intersects(tree[level_indices[h - 1]]) {
        stack.push((h - 1, 0));
    } else {
        proof {
            assert forall|i: usize| !(#[trigger] results@.contains(i)) && !(i < size && query.meets(t[i as int])) by {
                if i < size && query.meets(t[i as int]) {
                    assert(pw(d, (h - 1) as nat) * 0 == 0);
                    lemma_node_covers_leaf(d, n, li, t, h - 1, 0, i as int);
                    lemma_meets_up(*query, t[li[h - 1] + 0], t[i as int]);
                }
            }
        }
        return results;
    }
    proof {
        assert forall|i: int| 0 <= i < n && query.meets(#[trigger] t[i]) implies results@.contains(i as usize) || exists|s: int|
            0 <= s < stack@.len() && #[trigger] in_entry(d, stack@[s], i) by {
            assert(pw(d, (h - 1) as nat) * 0 == 0);
            assert(in_entry(d, stack@[0], i));
        }
    }
    while stack.len() > 0
        invariant
            d == degree as int,
            n == size as int,
            li == level_indices@,
            t == tree@,
            packed_wf(d, n, li, t),
            n >= 1,
            n <= t.len(),
            forall|s: int|
                0 <= s < stack@.len() ==> {
                    &&& (#[trigger] stack@[s]).0 < li.len()
                    &&& stack@[s].1 < level_size(d, n, stack@[s].0 as nat)
                    &&& query.meets(t[li[stack@[s].0 as int] + stack@[s].1])
                },
            forall|a: int| 0 <= a < results@.len() ==> #[trigger] results@[a] < n && query.meets(t[results@[a] as int]),
            results@.no_duplicates(),
            forall|i: int|
                0 <= i < n && query.meets(#[trigger] t[i]) ==> results@.contains(i as usize) || exists|s: int|
                    0 <= s < stack@.len() && #[trigger] in_entry(d, stack@[s], i),
            forall|a: int, s: int|
                0 <= a < results@.len() && 0 <= s < stack@.len() ==> !in_entry(d, #[trigger] stack@[s], #[trigger] results@[a] as int),
            forall|s1: int, s2: int|
                0 <= s1 < s2 < stack@.len() ==> hi_of(d, #[trigger] stack@[s1]) <= lo_of(d, stack@[s2])
                    || hi_of(d, #[trigger] stack@[s2]) <= lo_of(d, stack@[s1]),
        decreases stack_weight(d, stack@),
    {
        let ghost st0 = stack@;
        let (level, offset) = stack.pop().unwrap();
        proof {
            assert(st0.drop_last() =~= stack@);
            assert(st0[st0.len() - 1] == (level, offset));
            lemma_stack_weight_nonneg(d, stack@);
        }
        if level == 0 {
            proof {
                assert(li[0] == level_start(d, n, 0));
                assert(pw(d, 0) == 1);
                assert(lo_of(d, (level, offset)) == offset);
                assert(hi_of(d, (level, offset)) == offset + 1);
                assert(in_entry(d, st0[st0.len() - 1], offset as int));
            }
            let ghost r0 = results@;
            results.push(offset);
            proof {
                assert forall|a: int| 0 <= a < r0.len() implies r0[a] != offset by {
                    assert(!in_entry(d, st0[st0.len() - 1], r0[a] as int));
                }
                assert forall|a: int| 0 <= a < results@.len() implies #[trigger] results@[a] < n && query.meets(t[results@[a] as int]) by {
                    if a < r0.len() {
                        assert(results@[a] == r0[a]);
                    }
                }
                assert forall|i: int|
                    0 <= i < n && query.meets(#[trigger] t[i]) implies results@.contains(i as usize) || exists|s: int|
                        0 <= s < stack@.len() && #[trigger] in_entry(d, stack@[s], i) by {
                    if !r0.contains(i as usize) {
                        let s = choose|s: int| 0 <= s < st0.len() && #[trigger] in_entry(d, st0[s], i);
                        if s == st0.len() - 1 {
                            assert(i == offset);
                            assert(results@[r0.len() as int] == offset);
                        } else {
                            assert(in_entry(d, stack@[s], i));
                        }
                    } else {
                        let a = choose|a: int| 0 <= a < r0.len() && r0[a] == i as usize;
                        assert(results@[a] == i as usize);
                    }
                }
                assert forall|a: int, s: int|
                    0 <= a < results@.len() && 0 <= s < stack@.len() implies !in_entry(d, #[trigger] stack@[s], #[trigger] results@[a] as int) by {
                    assert(st0[s] == stack@[s]);
                    if a < r0.len() {
                        assert(results@[a] == r0[a]);
                    } else {
                        assert(hi_of(d, st0[s]) <= lo_of(d, st0[st0.len() - 1]) || hi_of(d, st0[st0.len() - 1]) <= lo_of(d, st0[s]));
                    }
                }
                assert forall|s1: int, s2: int|
                    0 <= s1 < s2 < stack@.len() implies hi_of(d, #[trigger] stack@[s1]) <= lo_of(d, stack@[s2])
                        || hi_of(d, #[trigger] stack@[s2]) <= lo_of(d, stack@[s1]) by {
                    assert(st0[s1] == stack@[s1] && st0[s2] == stack@[s2]);
                }
                assert(stack_weight(d, st0) == stack_weight(d, stack@) + weight(d, 0));
            }
        } else {
            let child_level = level - 1;
            let ghost ck = child_level as nat;
            let ghost p = pw(d, ck);
            let ghost w = weight(d, ck);
            proof {
                lemma_levels(d, n, li, level as int);
                lemma_levels(d, n, li, child_level as int);
                lemma_pw_pos(d, level as nat);
                lemma_pw_pos(d, ck);
                lemma_weight_pos(d, ck);
                lemma_start_mono(d, n, level as nat, (li.len() - 1) as nat);
                assert(li[level as int] == level_start(d, n, level as nat));
                assert(li[li.len() - 1] == level_start(d, n, (li.len() - 1) as nat));
                assert(d * offset + d <= d * level_size(d, n, level as nat)) by (nonlinear_arith)
                    requires
                        offset < level_size(d, n, level as nat),
                        d >= 2,
                ;
                lemma_child_range(d, level as nat, offset as int, 0);
                assert(stack_weight(d, st0) == stack_weight(d, stack@) + d * w + 1);
                assert((d - 0) * w == d * w);
                assert forall|s: int| 0 <= s < stack@.len() implies hi_of(d, #[trigger] stack@[s]) <= p * (d * offset + 0)
                        || p * (d * offset + d) <= lo_of(d, stack@[s]) by {
                    assert(st0[s] == stack@[s]);
                    assert(hi_of(d, st0[s]) <= lo_of(d, st0[st0.len() - 1]) || hi_of(d, st0[st0.len() - 1]) <= lo_of(d, st0[s]));
                }
                assert forall|a: int| 0 <= a < results@.len() implies !(p * (d * offset + 0) <= #[trigger] results@[a] < p * (d * offset + d)) by {
                    assert(!in_entry(d, st0[st0.len() - 1], results@[a] as int));
                }
                assert forall|i: int|
                    0 <= i < n && query.meets(#[trigger] t[i]) implies results@.contains(i as usize) || (exists|s: int|
                        0 <= s < stack@.len() && #[trigger] in_entry(d, stack@[s], i)) || (p * (d * offset + 0) <= i < p * (d * offset + d)) by {
                    if !results@.contains(i as usize) {
                        let s = choose|s: int| 0 <= s < st0.len() && #[trigger] in_entry(d, st0[s], i);
                        if s < st0.len() - 1 {
                            assert(in_entry(d, stack@[s], i));
                        }
                    }
                }
                assert forall|a: int, s: int|
                    0 <= a < results@.len() && 0 <= s < stack@.len() implies !in_entry(d, #[trigger] stack@[s], #[trigger] results@[a] as int) by {
                    assert(st0[s] == stack@[s]);
                }
                assert forall|s1: int, s2: int|
                    0 <= s1 < s2 < stack@.len() implies hi_of(d, #[trigger] stack@[s1]) <= lo_of(d, stack@[s2])
                        || hi_of(d, #[trigger] stack@[s2]) <= lo_of(d, stack@[s1]) by {
                    assert(st0[s1] == stack@[s1] && st0[s2] == stack@[s2]);
                }
            }
            let first_child_offset = degree * offset;
            let first_child_index = level_indices[child_level] + first_child_offset;
            let mut inc: usize = 0;
            while inc < degree
                invariant
                    d == degree as int,
                    n == size as int,
                    li == level_indices@,
                    t == tree@,
                    packed_wf(d, n, li, t),
                    n >= 1,
                    n <= t.len(),
                    1 <= level < li.len(),
                    child_level == level - 1,
                    ck == child_level as nat,
                    p == pw(d, ck),
                    p >= 1,
                    w == weight(d, ck),
                    w >= 1,
                    offset < level_size(d, n, level as nat),
                    first_child_offset == d * offset,
                    first_child_index == li[child_level as int] + first_child_offset,
                    first_child_offset + d <= slots(li, child_level as int),
                    li[child_level as int] + slots(li, child_level as int) <= li[li.len() - 1],
                    inc <= d,
                    forall|s: int|
                        0 <= s < stack@.len() ==> {
                            &&& (#[trigger] stack@[s]).0 < li.len()
                            &&& stack@[s].1 < level_size(d, n, stack@[s].0 as nat)
                            &&& query.meets(t[li[stack@[s].0 as int] + stack@[s].1])
                        },
                    forall|a: int| 0 <= a < results@.len() ==> #[trigger] results@[a] < n && query.meets(t[results@[a] as int]),
                    results@.no_duplicates(),
                    forall|i: int|
                        0 <= i < n && query.meets(#[trigger] t[i]) ==> results@.contains(i as usize) || (exists|s: int|
                            0 <= s < stack@.len() && #[trigger] in_entry(d, stack@[s], i)) || (p * (d * offset + inc) <= i < p * (d * offset + d)),
                    forall|a: int, s: int|
                        0 <= a < results@.len() && 0 <= s < stack@.len() ==> !in_entry(d, #[trigger] stack@[s], #[trigger] results@[a] as int),
                    forall|a: int|
                        0 <= a < results@.len() ==> !(p * (d * offset + inc) <= #[trigger] results@[a] < p * (d * offset + d)),
                    forall|s1: int, s2: int|
                        0 <= s1 < s2 < stack@.len() ==> hi_of(d, #[trigger] stack@[s1]) <= lo_of(d, stack@[s2])
                            || hi_of(d, #[trigger] stack@[s2]) <= lo_of(d, stack@[s1]),
                    forall|s: int|
                        0 <= s < stack@.len() ==> hi_of(d, #[trigger] stack@[s]) <= p * (d * offset + inc)
                            || p * (d * offset + d) <= lo_of(d, stack@[s]),
                    stack_weight(d, stack@) + (d - inc) * w + 1 <= stack_weight(d, st0),
                decreases d - inc,
            {
                let child_offset = first_child_offset + inc;
                let child = tree[first_child_index + inc];
                let ghost c = child_offset as int;
                let ghost v_lo = p * (d * offset + inc);
                let ghost v_next = p * (d * offset + inc + 1);
                let ghost v_hi = p * (d * offset + d);
                proof {
                    lemma_child_range(d, level as nat, offset as int, inc as int);
                    assert(lo_of(d, (child_level, child_offset)) == v_lo);
                    assert(hi_of(d, (child_level, child_offset)) == v_next);
                    assert(child == t[li[child_level as int] + c]);
                    assert((d - inc) * w == (d - (inc + 1)) * w + w) by (nonlinear_arith);
                    assert(v_next <= v_hi);
                }
                if query.intersects(child) {
                    proof {
                        assert(child_offset < level_size(d, n, ck)) by {
                            if child_offset >= level_size(d, n, ck) {
                                assert(t[li[child_level as int] + c].empty());
                            }
                        }
                    }
                    if shortcut && query.contains(child) {
                        let ghost r0 = results@;
                        let mut leaves = leaf_range(degree, size, level_indices, tree, child_level, child_offset);
                        let ghost lv = leaves@;
                        results.append(&mut leaves);
                        proof {
                            assert(results@ == r0 + lv);
                            assert forall|a: int| 0 <= a < lv.len() implies #[trigger] lv[a] < n && query.meets(t[lv[a] as int]) by {
                                lemma_node_covers_leaf(d, n, li, t, child_level as int, c, lv[a] as int);
                                lemma_holds_down(*query, child, t[lv[a] as int]);
                            }
                            assert forall|a: int| 0 <= a < results@.len() implies #[trigger] results@[a] < n && query.meets(t[results@[a] as int]) by {
                                if a >= r0.len() {
                                    assert(results@[a] == lv[a - r0.len()]);
                                } else {
                                    assert(results@[a] == r0[a]);
                                }
                            }
                            assert(lv.no_duplicates()) by {
                                assert forall|a: int, b: int| 0 <= a < lv.len() && 0 <= b < lv.len() && a != b implies lv[a] != lv[b] by {
                                    if a < b {
                                        assert(lv[a] < lv[b]);
                                    } else {
                                        assert(lv[b] < lv[a]);
                                    }
                                }
                            }
                            assert forall|a: int, b: int| 0 <= a < r0.len() && 0 <= b < lv.len() implies r0[a] != lv[b] by {
                                assert(!(v_lo <= r0[a] < v_hi));
                                assert(in_entry(d, (child_level, child_offset), lv[b] as int));
                            }
                            vstd::seq_lib::lemma_no_dup_in_concat(r0, lv);
                            assert forall|i: int|
                                0 <= i < n && query.meets(#[trigger] t[i]) implies results@.contains(i as usize) || (exists|s: int|
                                    0 <= s < stack@.len() && #[trigger] in_entry(d, stack@[s], i)) || (v_next <= i < v_hi) by {
                                if r0.contains(i as usize) {
                                    let a = choose|a: int| 0 <= a < r0.len() && r0[a] == i as usize;
                                    assert(results@[a] == i as usize);
                                } else if v_lo <= i < v_next {
                                    assert(in_entry(d, (child_level, child_offset), i));
                                    assert(lv.contains(i as usize));
                                    let b = choose|b: int| 0 <= b < lv.len() && lv[b] == i as usize;
                                    assert(results@[r0.len() + b] == i as usize);
                                }
                            }
                            assert forall|a: int, s: int|
                                0 <= a < results@.len() && 0 <= s < stack@.len() implies !in_entry(d, #[trigger] stack@[s], #[trigger] results@[a] as int) by {
                                if a >= r0.len() {
                                    assert(results@[a] == lv[a - r0.len()]);
                                    assert(in_entry(d, (child_level, child_offset), lv[a - r0.len()] as int));
                                } else {
                                    assert(results@[a] == r0[a]);
                                }
                            }
                            assert forall|a: int|
                                0 <= a < results@.len() implies !(v_next <= #[trigger] results@[a] < v_hi) by {
                                if a >= r0.len() {
                                    assert(results@[a] == lv[a - r0.len()]);
                                    assert(in_entry(d, (child_level, child_offset), lv[a - r0.len()] as int));
                                } else {
                                    assert(results@[a] == r0[a]);
                                }
                            }
                        }
                    } else {
                        let ghost s0 = stack@;
                        stack.push((child_level, child_offset));
                        proof {
                            lemma_stack_weight_push(d, s0, (child_level, child_offset));
                            let last = s0.len() as int;
                            assert(stack@[last] == (child_level, child_offset));
                            assert forall|s: int| 0 <= s < stack@.len() implies {
                                &&& (#[trigger] stack@[s]).0 < li.len()
                                &&& stack@[s].1 < level_size(d, n, stack@[s].0 as nat)
                                &&& query.meets(t[li[stack@[s].0 as int] + stack@[s].1])
                            } by {
                                if s < last {
                                    assert(stack@[s] == s0[s]);
                                }
                            }
                            assert forall|i: int|
                                0 <= i < n && query.meets(#[trigger] t[i]) implies results@.contains(i as usize) || (exists|s: int|
                                    0 <= s < stack@.len() && #[trigger] in_entry(d, stack@[s], i)) || (v_next <= i < v_hi) by {
                                if !results@.contains(i as usize) && !(v_next <= i < v_hi) {
                                    if v_lo <= i < v_next {
                                        assert(in_entry(d, stack@[last], i));
                                    } else {
                                        let s = choose|s: int| 0 <= s < s0.len() && #[trigger] in_entry(d, s0[s], i);
                                        assert(stack@[s] == s0[s]);
                                        assert(in_entry(d, stack@[s], i));
                                    }
                                }
                            }
                            assert forall|a: int, s: int|
                                0 <= a < results@.len() && 0 <= s < stack@.len() implies !in_entry(d, #[trigger] stack@[s], #[trigger] results@[a] as int) by {
                                if s < last {
                                    assert(stack@[s] == s0[s]);
                                }
                            }
                            assert forall|s1: int, s2: int|
                                0 <= s1 < s2 < stack@.len() implies hi_of(d, #[trigger] stack@[s1]) <= lo_of(d, stack@[s2])
                                    || hi_of(d, #[trigger] stack@[s2]) <= lo_of(d, stack@[s1]) by {
                                assert(stack@[s1] == s0[s1]);
                                if s2 < last {
                                    assert(stack@[s2] == s0[s2]);
                                }
                            }
                            assert forall|s: int|
                                0 <= s < stack@.len() implies hi_of(d, #[trigger] stack@[s]) <= v_next
                                    || v_hi <= lo_of(d, stack@[s]) by {
                                if s < last {
                                    assert(stack@[s] == s0[s]);
                                }
                            }
                        }
                    }
                } else {
                    proof {
                        assert forall|i: int|
                            0 <= i < n && query.meets(#[trigger] t[i]) implies results@.contains(i as usize) || (exists|s: int|
                                0 <= s < stack@.len() && #[trigger] in_entry(d, stack@[s], i)) || (v_next <= i < v_hi) by {
                            if v_lo <= i < v_next {
                                lemma_node_covers_leaf(d, n, li, t, child_level as int, c, i);
                                lemma_meets_up(*query, child, t[i]);
                            }
                        }
                    }
                }
                inc += 1;
            }
            proof {
                assert((d - inc) * w == 0) by (nonlinear_arith)
                    requires
                        inc == d,
                ;
            }
        }
        proof {
            lemma_stack_weight_nonneg(d, stack@);
            assert(stack_weight(d, stack@) < stack_weight(d, st0));
        }
    }
    proof {
        assert forall|i: usize| #[trigger] results@.contains(i) <==> (i < size && query.meets(t[i as int])) by {
            if results@.contains(i) {
                let a = choose|a: int| 0 <= a < results@.len() && results@[a] == i;
            }
        }
    }
    results
}

/// Lays out the tree of `degree` over `rects`: the leaves first, then each
/// level of envelopes of `degree` consecutive nodes of the level below.
pub fn pack(degree: usize, rects: Vec<Rectangle>) -> (r: (Vec<usize>, Vec<Rectangle>))
    requires
        degree >= 2,
        rects@.len() >= 1,
        fits(degree as int, rects@.len() as int),
    ensures
        packed_wf(degree as int, rects@.len() as int, r.0@, r.1@),
        r.1@.take(rects@.len() as int) == rects@,
{
    let size = rects.len();
    let level_indices = calculate_level_indices(degree, size);
    let ghost d = degree as int;
    let ghost n = size as int;
    let ghost li = level_indices@;
    let ghost leaves = rects@;
    let mut tree = rects;
    let mut level: usize = 1;
    proof {
        lemma_levels(d, n, li, 0);
        assert(li[0] == level_start(d, n, 0));
    }
    while level < level_indices.len()
        invariant
            d == degree as int,
            n == size as int,
            d >= 2,
            n >= 1,
            fits(d, n),
            li == level_indices@,
            levels_of(li, d, n),
            1 <= level <= li.len(),
            tree@.len() == li[level - 1] + level_size(d, n, (level - 1) as nat),
            forall|i: int| 0 <= i < n ==> tree@[i] == leaves[i],
            leaves.len() == n,
            n <= tree@.len(),
            built(d, n, li, tree@, level as int),
        decreases li.len() - level,
    {
        proof {
            lemma_levels(d, n, li, level - 1);
            lemma_levels(d, n, li, level as int);
            lemma_level_size_bounds(d, n, 0);
            lemma_start_mono(d, n, 0, (level - 1) as nat);
            assert(li[0] == level_start(d, n, 0));
            assert(li[level - 1] == level_start(d, n, (level - 1) as nat));
        }
        let level_index = level_indices[level];
        let prev = level_indices[level - 1];
        let ghost t0 = tree@;
        while tree.len() < level_index
            invariant
                t0.len() <= tree@.len() <= level_index,
                forall|i: int| 0 <= i < t0.len() ==> tree@[i] == t0[i],
                forall|i: int| t0.len() <= i < tree@.len() ==> #[trigger] tree@[i] == empty_rect(),
            decreases level_index - tree@.len(),
        {
            tree.push(Rectangle::new_empty());
        }
        proof {
            lemma_built_stable(d, n, li, t0, tree@, level as int);
            assert forall|o: int|
                level_size(d, n, (level - 1) as nat) <= o < slots(li, level - 1) implies #[trigger] tree@[li[level - 1] + o].empty() by {
                assert(tree@[li[level - 1] + o] == empty_rect());
            }
        }
        let groups = (level_index - prev) / degree;
        proof {
            vstd::arithmetic::div_mod::lemma_div_multiples_vanish(level_size(d, n, level as nat), d);
        }
        let ghost t1 = tree@;
        let mut g: usize = 0;
        while g < groups
            invariant
                d == degree as int,
                n == size as int,
                d >= 2,
                n >= 1,
                li == level_indices@,
                levels_of(li, d, n),
                1 <= level < li.len(),
                prev == li[level - 1],
                level_index == li[level as int],
                groups == level_size(d, n, level as nat),
                prev + d * groups == level_index,
                g <= groups,
                t1.len() == level_index,
                tree@.len() == level_index + g,
                forall|i: int| 0 <= i < t1.len() ==> tree@[i] == t1[i],
                forall|o: int| 0 <= o < g ==> #[trigger] tree@[level_index + o] == envelope_of(children(d, li, t1, level as int, o)),
            decreases groups - g,
        {
            proof {
                assert(d * g + d <= d * groups) by (nonlinear_arith)
                    requires
                        g < groups,
                        d >= 2,
                ;
            }
            let start = prev + g * degree;
            let e = Rectangle::of(&tree.as_slice()[start..start + degree]);
            proof {
                let ch = children(d, li, t1, level as int, g as int);
                assert(g * degree == d * g) by (nonlinear_arith)
                    requires
                        d == degree,
                ;
                assert(tree@.subrange(start as int, start + d).map_values(|x: Rectangle| x.envelope_spec()) =~= ch);
            }
            tree.push(e);
            g += 1;
        }
        proof {
            let t2 = tree@;
            lemma_built_stable(d, n, li, t1, t2, level as int);
            assert forall|k: int, o: int|
                1 <= k < level + 1 && 0 <= o < level_size(d, n, k as nat) implies #[trigger] t2[li[k] + o]
                    == envelope_of(children(d, li, t2, k, o)) by {
                if k == level {
                    assert(d * o + d <= d * groups) by (nonlinear_arith)
                        requires
                            o < groups,
                            d >= 2,
                    ;
                    assert(children(d, li, t2, k, o) =~= children(d, li, t1, k, o));
                }
            }
            assert forall|k: int, o: int|
                0 <= k < level && level_size(d, n, k as nat) <= o < slots(li, k) implies #[trigger] t2[li[k]
                    + o].empty() by {
                lemma_levels(d, n, li, k);
                lemma_start_mono(d, n, (k + 1) as nat, level as nat);
                assert(li[k + 1] == level_start(d, n, (k + 1) as nat));
                assert(li[level as int] == level_start(d, n, level as nat));
                assert(li[k] + o < t1.len());
                assert(t1[li[k] + o].empty());
                assert(t2[li[k] + o] == t1[li[k] + o]);
            }
            lemma_ceil_div_facts(n, d);
            lemma_start_mono(d, n, 1, level as nat);
            assert(li[1] == level_start(d, n, 1));
            assert(level_start(d, n, 1) == d * level_size(d, n, 1));
        }
        level += 1;
    }
    proof {
        let h = li.len();
        lemma_levels(d, n, li, h - 1);
        lemma_built_stable(d, n, li, tree@, tree@, h as int);
        assert(tree@.take(n) =~= leaves);
    }
    (level_indices, tree)
}

} // verus!
