use vstd::prelude::*;

verus! {

/// Identifier of one terminal pane.
#[derive(Debug, Clone, Copy, PartialEq, Eq, Structural, Hash, PartialOrd, Ord)]
pub struct PaneId(pub u64);

/// How a split divides its area: `Horizontal` puts the children side by side,
/// `Vertical` stacks them.
#[derive(Debug, Clone, Copy, PartialEq, Eq, Structural)]
pub enum SplitOrientation {
    Horizontal,
    Vertical,
}

#[derive(Debug, Clone, Copy, PartialEq, Eq, Structural)]
pub enum Direction {
    Left,
    Down,
    Up,
    Right,
}

/// Split ratios are fixed-point numbers in thousandths: `500` is one half.
pub const RATIO_SCALE: u32 = 1000;

/// Ratio of a freshly created split.
pub const RATIO_HALF: u32 = 500;

/// Smallest ratio a resize can leave behind.
pub const RATIO_MIN: u32 = 150;

/// Largest ratio a resize can leave behind.
pub const RATIO_MAX: u32 = 850;

/// The workspace spans `0..LAYOUT_EXTENT` on both axes.
pub const LAYOUT_EXTENT: u128 = 100_000_000_000_000_000_000_000_000_000_000_000;

/// How deep panes can be nested while every pane keeps positive sides
/// whatever the ratios: `min_side(42) <= LAYOUT_EXTENT`. One level more and
/// a pane can reach zero width (`law_positive_depth_is_exact`).
pub const MAX_POSITIVE_DEPTH: u32 = 42;

pub open spec fn orientation_of(direction: Direction) -> SplitOrientation {
    match direction {
        Direction::Left | Direction::Right => SplitOrientation::Horizontal,
        Direction::Up | Direction::Down => SplitOrientation::Vertical,
    }
}

impl Direction {
    pub fn split_orientation(self) -> (orientation: SplitOrientation)
        ensures
            orientation == orientation_of(self),
    {
        match self {
            Direction::Left | Direction::Right => SplitOrientation::Horizontal,
            Direction::Up | Direction::Down => SplitOrientation::Vertical,
        }
    }
}

/// The recursive tiling: a leaf holds one pane, a split divides its area
/// between two subtrees, `first` taking `ratio` thousandths of it.
#[derive(Debug, PartialEq)]
pub enum LayoutTree {
    Leaf(PaneId),
    Split {
        orientation: SplitOrientation,
        ratio: u32,
        first: Box<LayoutTree>,
        second: Box<LayoutTree>,
    },
}

impl Clone for LayoutTree {
    fn clone(&self) -> (copy: Self)
        ensures
            copy == *self,
        decreases self,
    {
        match self {
            LayoutTree::Leaf(id) => LayoutTree::Leaf(*id),
            LayoutTree::Split { orientation, ratio, first, second } => LayoutTree::Split {
                orientation: *orientation,
                ratio: *ratio,
                first: Box::new((**first).clone()),
                second: Box::new((**second).clone()),
            },
        }
    }
}

impl LayoutTree {
    /// The panes of the tree, left to right (first subtree before second).
    pub open spec fn panes(self) -> Seq<PaneId>
        decreases self,
    {
        match self {
            LayoutTree::Leaf(id) => seq![id],
            LayoutTree::Split { first, second, .. } => first.panes() + second.panes(),
        }
    }

    /// Every split ratio lies in `RATIO_MIN..=RATIO_MAX`.
    pub open spec fn ratios_in_range(self) -> bool
        decreases self,
    {
        match self {
            LayoutTree::Leaf(_) => true,
            LayoutTree::Split { ratio, first, second, .. } => {
                &&& RATIO_MIN <= ratio <= RATIO_MAX
                &&& first.ratios_in_range()
                &&& second.ratios_in_range()
            },
        }
    }

    fn walk_panes(&self, ids: &mut Vec<PaneId>)
        ensures
            final(ids)@ == old(ids)@ + self.panes(),
        decreases self,
    {
        match self {
            LayoutTree::Leaf(id) => ids.push(*id),
            LayoutTree::Split { first, second, .. } => {
                first.walk_panes(ids);
                second.walk_panes(ids);
                assert(final(ids)@ =~= old(ids)@ + self.panes());
            },
        }
    }

    fn contains(&self, pane: PaneId) -> (found: bool)
        ensures
            found == self.panes().contains(pane),
        decreases self,
    {
        match self {
            LayoutTree::Leaf(id) => {
                assert(self.panes()[0] == *id);
                *id == pane
            },
            LayoutTree::Split { first, second, .. } => {
                proof {
                    lemma_contains_concat(first.panes(), second.panes(), pane);
                }
                first.contains(pane) || second.contains(pane)
            },
        }
    }
}

pub proof fn lemma_contains_concat(a: Seq<PaneId>, b: Seq<PaneId>, p: PaneId)
    ensures
        (a + b).contains(p) <==> a.contains(p) || b.contains(p),
{
    if (a + b).contains(p) {
        let i = choose|i: int| 0 <= i < (a + b).len() && (a + b)[i] == p;
        if i < a.len() {
            assert(a[i] == p);
        } else {
            assert(b[i - a.len()] == p);
        }
    }
    if a.contains(p) {
        let i = choose|i: int| 0 <= i < a.len() && a[i] == p;
        assert((a + b)[i] == p);
    }
    if b.contains(p) {
        let i = choose|i: int| 0 <= i < b.len() && b[i] == p;
        assert((a + b)[a.len() + i] == p);
    }
}


impl LayoutTree {
    /// The tree with its first leaf holding `target` replaced by `replacement`;
    /// unchanged when no leaf holds `target`.
    pub open spec fn replace_leaf_spec(self, target: PaneId, replacement: LayoutTree) -> LayoutTree
        decreases self,
    {
        match self {
            LayoutTree::Leaf(id) => if id == target {
                replacement
            } else {
                self
            },
            LayoutTree::Split { orientation, ratio, first, second } => if first.panes().contains(
                target,
            ) {
                LayoutTree::Split {
                    orientation,
                    ratio,
                    first: Box::new(first.replace_leaf_spec(target, replacement)),
                    second,
                }
            } else {
                LayoutTree::Split {
                    orientation,
                    ratio,
                    first,
                    second: Box::new(second.replace_leaf_spec(target, replacement)),
                }
            },
        }
    }

    fn replace_leaf(self, target: PaneId, replacement: LayoutTree) -> (tree: LayoutTree)
        ensures
            tree == self.replace_leaf_spec(target, replacement),
        decreases self,
    {
        match self {
            LayoutTree::Leaf(id) => if id == target {
                replacement
            } else {
                LayoutTree::Leaf(id)
            },
            LayoutTree::Split { orientation, ratio, first, second } => {
                if first.contains(target) {
                    LayoutTree::Split {
                        orientation,
                        ratio,
                        first: Box::new((*first).replace_leaf(target, replacement)),
                        second,
                    }
                } else {
                    LayoutTree::Split {
                        orientation,
                        ratio,
                        first,
                        second: Box::new((*second).replace_leaf(target, replacement)),
                    }
                }
            },
        }
    }
}

/// A sequence without duplicates splits into two duplicate-free, disjoint halves.
pub proof fn lemma_no_dup_concat(a: Seq<PaneId>, b: Seq<PaneId>)
    requires
        (a + b).no_duplicates(),
    ensures
        a.no_duplicates(),
        b.no_duplicates(),
        forall|i: int, j: int| 0 <= i < a.len() && 0 <= j < b.len() ==> a[i] != b[j],
{
    assert forall|i: int, j: int| 0 <= i < a.len() && 0 <= j < a.len() && i != j implies a[i]
        != a[j] by {
        assert((a + b)[i] == a[i] && (a + b)[j] == a[j]);
    }
    assert forall|i: int, j: int| 0 <= i < b.len() && 0 <= j < b.len() && i != j implies b[i]
        != b[j] by {
        assert((a + b)[a.len() + i] == b[i] && (a + b)[a.len() + j] == b[j]);
    }
    assert forall|i: int, j: int| 0 <= i < a.len() && 0 <= j < b.len() implies a[i] != b[j] by {
        assert((a + b)[i] == a[i] && (a + b)[a.len() + j] == b[j]);
    }
}

pub proof fn lemma_replace_leaf_panes(t: LayoutTree, i: int, target: PaneId, repl: LayoutTree)
    requires
        t.panes().no_duplicates(),
        0 <= i < t.panes().len(),
        t.panes()[i] == target,
    ensures
        t.replace_leaf_spec(target, repl).panes() =~= t.panes().take(i) + repl.panes()
            + t.panes().skip(i + 1),
    decreases t,
{
    match t {
        LayoutTree::Leaf(id) => {},
        LayoutTree::Split { orientation, ratio, first, second } => {
            let a = first.panes();
            let b = second.panes();
            lemma_no_dup_concat(a, b);
            if i < a.len() {
                assert(a[i] == target);
                assert(a.contains(target));
                lemma_replace_leaf_panes(*first, i, target, repl);
                assert(t.panes().take(i) =~= a.take(i));
                assert(t.panes().skip(i + 1) =~= a.skip(i + 1) + b);
            } else {
                assert(b[i - a.len()] == target);
                assert(!a.contains(target));
                lemma_replace_leaf_panes(*second, i - a.len(), target, repl);
                assert(t.panes().take(i) =~= a + b.take(i - a.len()));
                assert(t.panes().skip(i + 1) =~= b.skip(i - a.len() + 1));
            }
        },
    }
}

pub proof fn lemma_replace_leaf_ratios(t: LayoutTree, target: PaneId, repl: LayoutTree)
    requires
        t.ratios_in_range(),
        repl.ratios_in_range(),
    ensures
        t.replace_leaf_spec(target, repl).ratios_in_range(),
    decreases t,
{
    match t {
        LayoutTree::Leaf(_) => {},
        LayoutTree::Split { first, second, .. } => {
            lemma_replace_leaf_ratios(*first, target, repl);
            lemma_replace_leaf_ratios(*second, target, repl);
        },
    }
}

/// Inserting a fresh element into a duplicate-free sequence keeps it duplicate-free.
pub proof fn lemma_insert_fresh(s: Seq<PaneId>, pos: int, x: PaneId)
    requires
        s.no_duplicates(),
        !s.contains(x),
        0 <= pos <= s.len(),
    ensures
        s.insert(pos, x).no_duplicates(),
        forall|p: PaneId| s.insert(pos, x).contains(p) <==> s.contains(p) || p == x,
{
    s.insert_ensures(pos, x);
    let r = s.insert(pos, x);
    assert forall|i: int, j: int| 0 <= i < r.len() && 0 <= j < r.len() && i != j implies r[i]
        != r[j] by {
        if i != pos && j != pos {
            let si = if i < pos { i } else { i - 1 };
            let sj = if j < pos { j } else { j - 1 };
            assert(r[i] == s[si] && r[j] == s[sj]);
        } else if i == pos {
            let sj = if j < pos { j } else { j - 1 };
            assert(r[j] == s[sj]);
        } else {
            let si = if i < pos { i } else { i - 1 };
            assert(r[i] == s[si]);
        }
    }
    assert forall|p: PaneId| r.contains(p) <==> s.contains(p) || p == x by {
        if r.contains(p) {
            let k = choose|k: int| 0 <= k < r.len() && r[k] == p;
            if k < pos {
                assert(s[k] == p);
            } else if k > pos {
                assert(s[k - 1] == p);
            }
        }
        if s.contains(p) {
            let k = choose|k: int| 0 <= k < s.len() && s[k] == p;
            if k < pos {
                assert(r[k] == p);
            } else {
                assert(r[k + 1] == p);
            }
        }
        if p == x {
            assert(r[pos] == x);
        }
    }
}

impl LayoutTree {
    /// The tree without the leaves holding `target`: a split that loses one
    /// side collapses into the other; `None` when nothing is left.
    pub open spec fn remove_leaf_spec(self, target: PaneId) -> Option<LayoutTree>
        decreases self,
    {
        match self {
            LayoutTree::Leaf(id) => if id == target {
                None
            } else {
                Some(self)
            },
            LayoutTree::Split { orientation, ratio, first, second } => match (
                first.remove_leaf_spec(target),
                second.remove_leaf_spec(target),
            ) {
                (Some(f), Some(s)) => Some(
                    LayoutTree::Split { orientation, ratio, first: Box::new(f), second: Box::new(s) },
                ),
                (Some(remaining), None) => Some(remaining),
                (None, Some(remaining)) => Some(remaining),
                (None, None) => None,
            },
        }
    }

    fn remove_leaf(self, target: PaneId) -> (tree: Option<LayoutTree>)
        ensures
            tree == self.remove_leaf_spec(target),
        decreases self,
    {
        match self {
            LayoutTree::Leaf(id) => if id == target {
                None
            } else {
                Some(LayoutTree::Leaf(id))
            },
            LayoutTree::Split { orientation, ratio, first, second } => {
                match ((*first).remove_leaf(target), (*second).remove_leaf(target)) {
                    (Some(first), Some(second)) => Some(
                        LayoutTree::Split {
                            orientation,
                            ratio,
                            first: Box::new(first),
                            second: Box::new(second),
                        },
                    ),
                    (Some(remaining), None) => Some(remaining),
                    (None, Some(remaining)) => Some(remaining),
                    (None, None) => None,
                }
            },
        }
    }
}

pub proof fn lemma_panes_nonempty(t: LayoutTree)
    ensures
        t.panes().len() >= 1,
        t is Split ==> t.panes().len() >= 2,
    decreases t,
{
    match t {
        LayoutTree::Leaf(_) => {},
        LayoutTree::Split { first, second, .. } => {
            lemma_panes_nonempty(*first);
            lemma_panes_nonempty(*second);
        },
    }
}

/// Removing a pane that the tree does not hold leaves the tree as it was.
pub proof fn lemma_remove_absent(t: LayoutTree, target: PaneId)
    requires
        !t.panes().contains(target),
    ensures
        t.remove_leaf_spec(target) == Some(t),
    decreases t,
{
    match t {
        LayoutTree::Leaf(id) => {
            assert(t.panes()[0] == id);
        },
        LayoutTree::Split { first, second, .. } => {
            lemma_contains_concat(first.panes(), second.panes(), target);
            lemma_remove_absent(*first, target);
            lemma_remove_absent(*second, target);
        },
    }
}

/// Closing a pane that a split holds directly puts the other child in the
/// split's place, unchanged: `Split { o, r, Leaf(x), s }` and
/// `Split { o, r, s, Leaf(x) }` both become `s`.
pub proof fn law_close_collapses_to_sibling(
    orientation: SplitOrientation,
    ratio: u32,
    x: PaneId,
    s: LayoutTree,
)
    requires
        !s.panes().contains(x),
    ensures
        (LayoutTree::Split {
            orientation,
            ratio,
            first: Box::new(LayoutTree::Leaf(x)),
            second: Box::new(s),
        }).remove_leaf_spec(x) == Some(s),
        (LayoutTree::Split {
            orientation,
            ratio,
            first: Box::new(s),
            second: Box::new(LayoutTree::Leaf(x)),
        }).remove_leaf_spec(x) == Some(s),
{
    lemma_remove_absent(s, x);
    assert(LayoutTree::Leaf(x).remove_leaf_spec(x) is None);
}

/// Closing a pane deeper inside one child of a split keeps the split, with
/// its orientation and ratio, and the other child as they were.
pub proof fn law_close_keeps_outer_splits(
    orientation: SplitOrientation,
    ratio: u32,
    f: LayoutTree,
    s: LayoutTree,
    x: PaneId,
)
    requires
        f.panes().no_duplicates(),
        f.panes().contains(x),
        f.panes().len() >= 2,
        !s.panes().contains(x),
    ensures
        f.remove_leaf_spec(x) is Some,
        (LayoutTree::Split {
            orientation,
            ratio,
            first: Box::new(f),
            second: Box::new(s),
        }).remove_leaf_spec(x) == Some(
            LayoutTree::Split {
                orientation,
                ratio,
                first: Box::new(f.remove_leaf_spec(x)->0),
                second: Box::new(s),
            },
        ),
        (LayoutTree::Split {
            orientation,
            ratio,
            first: Box::new(s),
            second: Box::new(f),
        }).remove_leaf_spec(x) == Some(
            LayoutTree::Split {
                orientation,
                ratio,
                first: Box::new(s),
                second: Box::new(f.remove_leaf_spec(x)->0),
            },
        ),
{
    let i = f.panes().index_of(x);
    lemma_remove_present(f, i, x);
    lemma_remove_absent(s, x);
}

/// Removing the pane at position `i` of a duplicate-free tree with at least
/// two panes leaves a tree whose panes are the old ones without position `i`.
pub proof fn lemma_remove_present(t: LayoutTree, i: int, target: PaneId)
    requires
        t.panes().no_duplicates(),
        0 <= i < t.panes().len(),
        t.panes()[i] == target,
        t.panes().len() >= 2,
    ensures
        t.remove_leaf_spec(target) is Some,
        t.remove_leaf_spec(target)->0.panes() =~= t.panes().remove(i),
        t.ratios_in_range() ==> t.remove_leaf_spec(target)->0.ratios_in_range(),
    decreases t,
{
    lemma_panes_nonempty(t);
    match t {
        LayoutTree::Leaf(_) => {},
        LayoutTree::Split { orientation, ratio, first, second } => {
            let a = first.panes();
            let b = second.panes();
            lemma_no_dup_concat(a, b);
            lemma_panes_nonempty(*first);
            lemma_panes_nonempty(*second);
            if i < a.len() {
                assert(a[i] == target);
                assert(!b.contains(target)) by {
                    if b.contains(target) {
                        let k = choose|k: int| 0 <= k < b.len() && b[k] == target;
                        assert(a[i] != b[k]);
                    }
                }
                lemma_remove_absent(*second, target);
                if a.len() >= 2 {
                    lemma_remove_present(*first, i, target);
                } else {
                    assert(*first is Leaf);
                    assert(first.remove_leaf_spec(target) is None);
                }
            } else {
                let j = i - a.len();
                assert(b[j] == target);
                assert(!a.contains(target)) by {
                    if a.contains(target) {
                        let k = choose|k: int| 0 <= k < a.len() && a[k] == target;
                        assert(a[k] != b[j]);
                    }
                }
                lemma_remove_absent(*first, target);
                if b.len() >= 2 {
                    lemma_remove_present(*second, j, target);
                } else {
                    assert(*second is Leaf);
                    assert(second.remove_leaf_spec(target) is None);
                }
            }
        },
    }
}

/// Removing a pane from a duplicate-free sequence keeps it duplicate-free and
/// drops exactly that pane.
pub proof fn lemma_remove_index_no_dup(s: Seq<PaneId>, i: int)
    requires
        s.no_duplicates(),
        0 <= i < s.len(),
    ensures
        s.remove(i).no_duplicates(),
        forall|p: PaneId| s.remove(i).contains(p) <==> s.contains(p) && p != s[i],
{
    s.remove_ensures(i);
    let r = s.remove(i);
    assert forall|x: int, y: int| 0 <= x < r.len() && 0 <= y < r.len() && x != y implies r[x]
        != r[y] by {
        let sx = if x < i { x } else { x + 1 };
        let sy = if y < i { y } else { y + 1 };
        assert(r[x] == s[sx] && r[y] == s[sy]);
    }
    assert forall|p: PaneId| r.contains(p) <==> s.contains(p) && p != s[i] by {
        if r.contains(p) {
            let k = choose|k: int| 0 <= k < r.len() && r[k] == p;
            let sk = if k < i { k } else { k + 1 };
            assert(s[sk] == p);
        }
        if s.contains(p) && p != s[i] {
            let k = choose|k: int| 0 <= k < s.len() && s[k] == p;
            if k < i {
                assert(r[k] == p);
            } else {
                assert(r[k - 1] == p);
            }
        }
    }
}

/// Closing the pane that a split has just created gives back the layout
/// that was split: `close_focused` undoes `split_focused` and
/// `split_focused_toward`, whatever the orientation and the side.
pub proof fn law_close_undoes_split(
    layout: LayoutTree,
    focus: PaneId,
    new_pane: PaneId,
    orientation: SplitOrientation,
    new_first: bool,
)
    requires
        layout.panes().contains(focus),
        !layout.panes().contains(new_pane),
    ensures
        ({
            let split = if new_first {
                LayoutTree::Split {
                    orientation,
                    ratio: RATIO_HALF,
                    first: Box::new(LayoutTree::Leaf(new_pane)),
                    second: Box::new(LayoutTree::Leaf(focus)),
                }
            } else {
                LayoutTree::Split {
                    orientation,
                    ratio: RATIO_HALF,
                    first: Box::new(LayoutTree::Leaf(focus)),
                    second: Box::new(LayoutTree::Leaf(new_pane)),
                }
            };
            layout.replace_leaf_spec(focus, split).remove_leaf_spec(new_pane) == Some(layout)
        }),
    decreases layout,
{
    match layout {
        LayoutTree::Leaf(id) => {
            assert(layout.panes()[0] == id);
            assert(id != new_pane);
            reveal_with_fuel(LayoutTree::remove_leaf_spec, 2);
        },
        LayoutTree::Split { orientation: o, ratio, first, second } => {
            lemma_contains_concat(first.panes(), second.panes(), focus);
            lemma_contains_concat(first.panes(), second.panes(), new_pane);
            if first.panes().contains(focus) {
                law_close_undoes_split(*first, focus, new_pane, orientation, new_first);
                lemma_remove_absent(*second, new_pane);
            } else {
                law_close_undoes_split(*second, focus, new_pane, orientation, new_first);
                lemma_remove_absent(*first, new_pane);
            }
        },
    }
}

pub open spec fn swapped(id: PaneId, a: PaneId, b: PaneId) -> PaneId {
    if id == a {
        b
    } else if id == b {
        a
    } else {
        id
    }
}

pub open spec fn clamp_ratio(ratio: int) -> int {
    if ratio < RATIO_MIN {
        RATIO_MIN as int
    } else if ratio > RATIO_MAX {
        RATIO_MAX as int
    } else {
        ratio
    }
}

impl LayoutTree {
    /// The tree with the panes `a` and `b` trading places.
    pub open spec fn swap_spec(self, a: PaneId, b: PaneId) -> LayoutTree
        decreases self,
    {
        match self {
            LayoutTree::Leaf(id) => LayoutTree::Leaf(swapped(id, a, b)),
            LayoutTree::Split { orientation, ratio, first, second } => LayoutTree::Split {
                orientation,
                ratio,
                first: Box::new(first.swap_spec(a, b)),
                second: Box::new(second.swap_spec(a, b)),
            },
        }
    }

    fn swap_leaves(self, a: PaneId, b: PaneId) -> (tree: LayoutTree)
        ensures
            tree == self.swap_spec(a, b),
        decreases self,
    {
        match self {
            LayoutTree::Leaf(id) => if id == a {
                LayoutTree::Leaf(b)
            } else if id == b {
                LayoutTree::Leaf(a)
            } else {
                LayoutTree::Leaf(id)
            },
            LayoutTree::Split { orientation, ratio, first, second } => LayoutTree::Split {
                orientation,
                ratio,
                first: Box::new((*first).swap_leaves(a, b)),
                second: Box::new((*second).swap_leaves(a, b)),
            },
        }
    }

    /// The tree after growing (`Right`/`Down`) or shrinking (`Left`/`Up`) the
    /// pane `target` by `delta` thousandths: the outermost split on the path
    /// to `target` whose orientation matches `direction` moves its divider,
    /// and the new ratio is clamped to `RATIO_MIN..=RATIO_MAX`. The flag says
    /// whether `target` was found.
    pub open spec fn resize_spec(self, target: PaneId, direction: Direction, delta: int) -> (
        LayoutTree,
        bool,
    )
        decreases self,
    {
        match self {
            LayoutTree::Leaf(id) => (self, id == target),
            LayoutTree::Split { orientation, ratio, first, second } => {
                let grows = direction == Direction::Right || direction == Direction::Down;
                if first.panes().contains(target) {
                    if orientation == orientation_of(direction) {
                        let moved = if grows {
                            ratio + delta
                        } else {
                            ratio - delta
                        };
                        (
                            LayoutTree::Split {
                                orientation,
                                ratio: clamp_ratio(moved) as u32,
                                first,
                                second,
                            },
                            true,
                        )
                    } else {
                        let (f, found) = first.resize_spec(target, direction, delta);
                        (LayoutTree::Split { orientation, ratio, first: Box::new(f), second }, found)
                    }
                } else if second.panes().contains(target) {
                    if orientation == orientation_of(direction) {
                        let moved = if grows {
                            ratio - delta
                        } else {
                            ratio + delta
                        };
                        (
                            LayoutTree::Split {
                                orientation,
                                ratio: clamp_ratio(moved) as u32,
                                first,
                                second,
                            },
                            true,
                        )
                    } else {
                        let (s, found) = second.resize_spec(target, direction, delta);
                        (LayoutTree::Split { orientation, ratio, first, second: Box::new(s) }, found)
                    }
                } else {
                    (self, false)
                }
            },
        }
    }

    fn resize_path_to(self, target: PaneId, direction: Direction, delta: i32) -> (res: (
        LayoutTree,
        bool,
    ))
        requires
            self.ratios_in_range(),
        ensures
            res == self.resize_spec(target, direction, delta as int),
        decreases self,
    {
        match self {
            LayoutTree::Leaf(id) => (LayoutTree::Leaf(id), id == target),
            LayoutTree::Split { orientation, ratio, first, second } => {
                let grows = direction == Direction::Right || direction == Direction::Down;
                if first.contains(target) {
                    if orientation == direction.split_orientation() {
                        let moved: i64 = if grows {
                            ratio as i64 + delta as i64
                        } else {
                            ratio as i64 - delta as i64
                        };
                        let clamped: i64 = if moved < RATIO_MIN as i64 {
                            RATIO_MIN as i64
                        } else if moved > RATIO_MAX as i64 {
                            RATIO_MAX as i64
                        } else {
                            moved
                        };
                        (
                            LayoutTree::Split { orientation, ratio: clamped as u32, first, second },
                            true,
                        )
                    } else {
                        let (f, found) = (*first).resize_path_to(target, direction, delta);
                        (LayoutTree::Split { orientation, ratio, first: Box::new(f), second }, found)
                    }
                } else if second.contains(target) {
                    if orientation == direction.split_orientation() {
                        let moved: i64 = if grows {
                            ratio as i64 - delta as i64
                        } else {
                            ratio as i64 + delta as i64
                        };
                        let clamped: i64 = if moved < RATIO_MIN as i64 {
                            RATIO_MIN as i64
                        } else if moved > RATIO_MAX as i64 {
                            RATIO_MAX as i64
                        } else {
                            moved
                        };
                        (
                            LayoutTree::Split { orientation, ratio: clamped as u32, first, second },
                            true,
                        )
                    } else {
                        let (s, found) = (*second).resize_path_to(target, direction, delta);
                        (LayoutTree::Split { orientation, ratio, first, second: Box::new(s) }, found)
                    }
                } else {
                    (LayoutTree::Split { orientation, ratio, first, second }, false)
                }
            },
        }
    }
}

impl LayoutTree {
    /// The tree with the split that `path` leads to (`false` for the first
    /// child, `true` for the second, from the root) given `ratio`, clamped to
    /// `RATIO_MIN..=RATIO_MAX`, and whether `path` led to a split; the tree is
    /// unchanged when it does not.
    pub open spec fn set_ratio_spec(self, path: Seq<bool>, ratio: int) -> (LayoutTree, bool)
        decreases self,
    {
        match self {
            LayoutTree::Leaf(_) => (self, false),
            LayoutTree::Split { orientation, ratio: old_ratio, first, second } => if path.len() == 0 {
                (
                    LayoutTree::Split { orientation, ratio: clamp_ratio(ratio) as u32, first, second },
                    true,
                )
            } else if !path[0] {
                let (f, found) = first.set_ratio_spec(path.skip(1), ratio);
                (LayoutTree::Split { orientation, ratio: old_ratio, first: Box::new(f), second }, found)
            } else {
                let (s, found) = second.set_ratio_spec(path.skip(1), ratio);
                (LayoutTree::Split { orientation, ratio: old_ratio, first, second: Box::new(s) }, found)
            },
        }
    }

    fn set_ratio_at(self, path: &[bool], index: usize, ratio: u32) -> (res: (LayoutTree, bool))
        requires
            index <= path@.len(),
        ensures
            res == self.set_ratio_spec(path@.skip(index as int), ratio as int),
        decreases self,
    {
        match self {
            LayoutTree::Leaf(id) => (LayoutTree::Leaf(id), false),
            LayoutTree::Split { orientation, ratio: old_ratio, first, second } => {
                let ghost rest = path@.skip(index as int);
                if index == path.len() {
                    let clamped = if ratio < RATIO_MIN {
                        RATIO_MIN
                    } else if ratio > RATIO_MAX {
                        RATIO_MAX
                    } else {
                        ratio
                    };
                    (LayoutTree::Split { orientation, ratio: clamped, first, second }, true)
                } else {
                    assert(rest.skip(1) =~= path@.skip(index + 1));
                    assert(rest[0] == path@[index as int]);
                    if !path[index] {
                        let (f, found) = (*first).set_ratio_at(path, index + 1, ratio);
                        (
                            LayoutTree::Split { orientation, ratio: old_ratio, first: Box::new(f), second },
                            found,
                        )
                    } else {
                        let (s, found) = (*second).set_ratio_at(path, index + 1, ratio);
                        (
                            LayoutTree::Split { orientation, ratio: old_ratio, first, second: Box::new(s) },
                            found,
                        )
                    }
                }
            },
        }
    }
}

/// Setting a ratio keeps the panes and the ratios in range.
pub proof fn lemma_set_ratio_shape(t: LayoutTree, path: Seq<bool>, ratio: int)
    ensures
        t.set_ratio_spec(path, ratio).0.panes() == t.panes(),
        t.ratios_in_range() ==> t.set_ratio_spec(path, ratio).0.ratios_in_range(),
    decreases t,
{
    if let LayoutTree::Split { first, second, .. } = t {
        if path.len() > 0 {
            lemma_set_ratio_shape(*first, path.skip(1), ratio);
            lemma_set_ratio_shape(*second, path.skip(1), ratio);
        }
    }
}

pub proof fn lemma_swap_shape(t: LayoutTree, a: PaneId, b: PaneId)
    ensures
        t.swap_spec(a, b).panes() =~= t.panes().map_values(|p: PaneId| swapped(p, a, b)),
        t.ratios_in_range() ==> t.swap_spec(a, b).ratios_in_range(),
    decreases t,
{
    match t {
        LayoutTree::Leaf(_) => {},
        LayoutTree::Split { first, second, .. } => {
            lemma_swap_shape(*first, a, b);
            lemma_swap_shape(*second, a, b);
        },
    }
}

/// Resizing never changes which panes the tree holds nor their order, keeps
/// every ratio in range, and succeeds exactly when the tree holds the pane.
pub proof fn lemma_resize_shape(t: LayoutTree, target: PaneId, direction: Direction, delta: int)
    ensures
        t.resize_spec(target, direction, delta).0.panes() == t.panes(),
        t.resize_spec(target, direction, delta).1 == t.panes().contains(target),
        t.ratios_in_range() ==> t.resize_spec(target, direction, delta).0.ratios_in_range(),
    decreases t,
{
    match t {
        LayoutTree::Leaf(id) => {
            assert(t.panes()[0] == id);
        },
        LayoutTree::Split { first, second, .. } => {
            lemma_contains_concat(first.panes(), second.panes(), target);
            lemma_resize_shape(*first, target, direction, delta);
            lemma_resize_shape(*second, target, direction, delta);
        },
    }
}

/// An axis-aligned area of the workspace, in units of which the whole
/// workspace measures `LAYOUT_EXTENT` on each side.
#[derive(Debug, Clone, Copy, PartialEq, Eq, Structural)]
pub struct Rect {
    pub x: u128,
    pub y: u128,
    pub w: u128,
    pub h: u128,
}

/// The whole workspace.
pub open spec fn workspace_rect() -> Rect {
    Rect { x: 0, y: 0, w: LAYOUT_EXTENT, h: LAYOUT_EXTENT }
}

/// `inner` lies inside `outer`.
pub open spec fn rect_within(inner: Rect, outer: Rect) -> bool {
    &&& outer.x <= inner.x
    &&& inner.x + inner.w <= outer.x + outer.w
    &&& outer.y <= inner.y
    &&& inner.y + inner.h <= outer.y + outer.h
}

pub open spec fn fits_workspace(r: Rect) -> bool {
    rect_within(r, workspace_rect())
}

/// `ratio` thousandths of `len`, rounded down.
pub open spec fn scaled(len: u128, ratio: u32) -> u128 {
    ((len as int * ratio as int) / RATIO_SCALE as int) as u128
}

pub proof fn lemma_scaled(len: u128, ratio: u32)
    requires
        ratio <= RATIO_SCALE,
    ensures
        0 <= (len as int * ratio as int) / RATIO_SCALE as int <= len,
        scaled(len, ratio) <= len,
{
    assert(0 <= (len as int * ratio as int) / 1000 <= len) by (nonlinear_arith)
        requires
            ratio <= 1000,
    ;
}

pub open spec fn rect_area(r: Rect) -> int {
    r.w as int * r.h as int
}

/// Sum of the areas of the rectangles of `rects`.
pub open spec fn total_area(rects: Seq<(PaneId, Rect)>) -> int
    decreases rects.len(),
{
    if rects.len() == 0 {
        0
    } else {
        rect_area(rects[0].1) + total_area(rects.skip(1))
    }
}

pub proof fn lemma_total_area_concat(a: Seq<(PaneId, Rect)>, b: Seq<(PaneId, Rect)>)
    ensures
        total_area(a + b) == total_area(a) + total_area(b),
    decreases a.len(),
{
    if a.len() > 0 {
        assert((a + b).skip(1) =~= a.skip(1) + b);
        lemma_total_area_concat(a.skip(1), b);
    } else {
        assert(a + b =~= b);
    }
}

impl LayoutTree {
    /// The rectangle of each pane, in pane order, when the tree fills `area`:
    /// a horizontal split gives its first subtree the left `ratio` thousandths
    /// of the width (rounded down) and the second the rest; a vertical split
    /// does the same with the height, first on top.
    pub open spec fn rects_spec(self, area: Rect) -> Seq<(PaneId, Rect)>
        decreases self,
    {
        match self {
            LayoutTree::Leaf(id) => seq![(id, area)],
            LayoutTree::Split { orientation, ratio, first, second } => match orientation {
                SplitOrientation::Horizontal => {
                    let first_w = scaled(area.w, ratio);
                    first.rects_spec(Rect { x: area.x, y: area.y, w: first_w, h: area.h })
                        + second.rects_spec(
                        Rect {
                            x: (area.x + first_w) as u128,
                            y: area.y,
                            w: (area.w - first_w) as u128,
                            h: area.h,
                        },
                    )
                },
                SplitOrientation::Vertical => {
                    let first_h = scaled(area.h, ratio);
                    first.rects_spec(Rect { x: area.x, y: area.y, w: area.w, h: first_h })
                        + second.rects_spec(
                        Rect {
                            x: area.x,
                            y: (area.y + first_h) as u128,
                            w: area.w,
                            h: (area.h - first_h) as u128,
                        },
                    )
                },
            },
        }
    }

    fn collect_rects(&self, area: Rect, rects: &mut Vec<(PaneId, Rect)>)
        requires
            fits_workspace(area),
            self.ratios_in_range(),
        ensures
            final(rects)@ == old(rects)@ + self.rects_spec(area),
        decreases self,
    {
        match self {
            LayoutTree::Leaf(id) => {
                rects.push((*id, area));
            },
            LayoutTree::Split { orientation, ratio, first, second } => {
                match orientation {
                    SplitOrientation::Horizontal => {
                        proof {
                            lemma_scaled(area.w, *ratio);
                        }
                        let first_w = area.w * (*ratio as u128) / 1000u128;
                        first.collect_rects(
                            Rect { x: area.x, y: area.y, w: first_w, h: area.h },
                            rects,
                        );
                        second.collect_rects(
                            Rect {
                                x: area.x + first_w,
                                y: area.y,
                                w: area.w - first_w,
                                h: area.h,
                            },
                            rects,
                        );
                    },
                    SplitOrientation::Vertical => {
                        proof {
                            lemma_scaled(area.h, *ratio);
                        }
                        let first_h = area.h * (*ratio as u128) / 1000u128;
                        first.collect_rects(
                            Rect { x: area.x, y: area.y, w: area.w, h: first_h },
                            rects,
                        );
                        second.collect_rects(
                            Rect {
                                x: area.x,
                                y: area.y + first_h,
                                w: area.w,
                                h: area.h - first_h,
                            },
                            rects,
                        );
                    },
                }
                assert(final(rects)@ =~= old(rects)@ + self.rects_spec(area));
            },
        }
    }
}

/// The rectangles of a tree are listed in pane order, one per pane, each
/// inside the area the tree fills, and together they cover exactly that area.
pub proof fn lemma_rects_tile(t: LayoutTree, area: Rect)
    requires
        t.ratios_in_range(),
        fits_workspace(area),
    ensures
        t.rects_spec(area).len() == t.panes().len(),
        forall|i: int|
            0 <= i < t.panes().len() ==> (#[trigger] t.rects_spec(area)[i]).0 == t.panes()[i]
                && rect_within(t.rects_spec(area)[i].1, area),
        total_area(t.rects_spec(area)) == rect_area(area),
    decreases t,
{
    match t {
        LayoutTree::Leaf(id) => {
            assert(t.rects_spec(area).skip(1) =~= Seq::<(PaneId, Rect)>::empty());
            reveal_with_fuel(total_area, 2);
        },
        LayoutTree::Split { orientation, ratio, first, second } => {
            match orientation {
                SplitOrientation::Horizontal => {
                    lemma_scaled(area.w, ratio);
                    let fw = scaled(area.w, ratio);
                    let r1 = Rect { x: area.x, y: area.y, w: fw, h: area.h };
                    let r2 = Rect {
                        x: (area.x + fw) as u128,
                        y: area.y,
                        w: (area.w - fw) as u128,
                        h: area.h,
                    };
                    lemma_rects_tile(*first, r1);
                    lemma_rects_tile(*second, r2);
                    lemma_total_area_concat(first.rects_spec(r1), second.rects_spec(r2));
                    assert(rect_area(r1) + rect_area(r2) == rect_area(area)) by (nonlinear_arith)
                        requires
                            r1.w + r2.w == area.w,
                            r1.h == area.h,
                            r2.h == area.h,
                    ;
                    let a = first.rects_spec(r1);
                    let b = second.rects_spec(r2);
                    assert forall|i: int| 0 <= i < t.panes().len() implies (
                    #[trigger] t.rects_spec(area)[i]).0 == t.panes()[i] && rect_within(
                        t.rects_spec(area)[i].1,
                        area,
                    ) by {
                        if i < a.len() {
                            assert(a[i] == t.rects_spec(area)[i]);
                        } else {
                            assert(b[i - a.len()] == t.rects_spec(area)[i]);
                        }
                    }
                },
                SplitOrientation::Vertical => {
                    lemma_scaled(area.h, ratio);
                    let fh = scaled(area.h, ratio);
                    let r1 = Rect { x: area.x, y: area.y, w: area.w, h: fh };
                    let r2 = Rect {
                        x: area.x,
                        y: (area.y + fh) as u128,
                        w: area.w,
                        h: (area.h - fh) as u128,
                    };
                    lemma_rects_tile(*first, r1);
                    lemma_rects_tile(*second, r2);
                    lemma_total_area_concat(first.rects_spec(r1), second.rects_spec(r2));
                    assert(rect_area(r1) + rect_area(r2) == rect_area(area)) by (nonlinear_arith)
                        requires
                            r1.h + r2.h == area.h,
                            r1.w == area.w,
                            r2.w == area.w,
                    ;
                    let a = first.rects_spec(r1);
                    let b = second.rects_spec(r2);
                    assert forall|i: int| 0 <= i < t.panes().len() implies (
                    #[trigger] t.rects_spec(area)[i]).0 == t.panes()[i] && rect_within(
                        t.rects_spec(area)[i].1,
                        area,
                    ) by {
                        if i < a.len() {
                            assert(a[i] == t.rects_spec(area)[i]);
                        } else {
                            assert(b[i - a.len()] == t.rects_spec(area)[i]);
                        }
                    }
                },
            }
        },
    }
}

/// `a` and `b` share no interior point: one lies wholly to one side of the
/// other.
pub open spec fn interiors_apart(a: Rect, b: Rect) -> bool {
    ||| a.x + a.w <= b.x
    ||| b.x + b.w <= a.x
    ||| a.y + a.h <= b.y
    ||| b.y + b.h <= a.y
}

/// No two rectangles of a tree overlap.
pub proof fn lemma_rects_apart(t: LayoutTree, area: Rect)
    requires
        t.ratios_in_range(),
        fits_workspace(area),
    ensures
        forall|i: int, j: int|
            0 <= i < j < t.rects_spec(area).len() ==> interiors_apart(
                #[trigger] t.rects_spec(area)[i].1,
                #[trigger] t.rects_spec(area)[j].1,
            ),
    decreases t,
{
    if let LayoutTree::Split { orientation, ratio, first, second } = t {
        let (r1, r2) = match orientation {
            SplitOrientation::Horizontal => {
                lemma_scaled(area.w, ratio);
                let fw = scaled(area.w, ratio);
                (
                    Rect { x: area.x, y: area.y, w: fw, h: area.h },
                    Rect { x: (area.x + fw) as u128, y: area.y, w: (area.w - fw) as u128, h: area.h },
                )
            },
            SplitOrientation::Vertical => {
                lemma_scaled(area.h, ratio);
                let fh = scaled(area.h, ratio);
                (
                    Rect { x: area.x, y: area.y, w: area.w, h: fh },
                    Rect { x: area.x, y: (area.y + fh) as u128, w: area.w, h: (area.h - fh) as u128 },
                )
            },
        };
        assert(t.rects_spec(area) == first.rects_spec(r1) + second.rects_spec(r2));
        lemma_rects_tile(*first, r1);
        lemma_rects_tile(*second, r2);
        lemma_rects_apart(*first, r1);
        lemma_rects_apart(*second, r2);
        let a = first.rects_spec(r1);
        let b = second.rects_spec(r2);
        let all = t.rects_spec(area);
        assert forall|i: int, j: int| 0 <= i < j < all.len() implies interiors_apart(
            #[trigger] all[i].1,
            #[trigger] all[j].1,
        ) by {
            if j < a.len() {
                assert(all[i] == a[i] && all[j] == a[j]);
            } else if i >= a.len() {
                assert(all[i] == b[i - a.len()] && all[j] == b[j - a.len()]);
            } else {
                assert(all[i] == a[i] && all[j] == b[j - a.len()]);
                assert(rect_within(a[i].1, r1));
                assert(rect_within(b[j - a.len()].1, r2));
            }
        }
    }
}

/// The number of splits on the longest way from the root to a pane.
pub open spec fn height(t: LayoutTree) -> nat
    decreases t,
{
    match t {
        LayoutTree::Leaf(_) => 0,
        LayoutTree::Split { first, second, .. } => 1 + if height(*first) >= height(*second) {
            height(*first)
        } else {
            height(*second)
        },
    }
}

/// The smallest side that still leaves one unit to every pane after `k`
/// nested splits: a split hands each child at least `150/1000` of the side
/// it divides (rounded down), so a side of `ceil(20 s / 3)` leaves `s`.
pub open spec fn min_side(k: nat) -> int
    decreases k,
{
    if k == 0 {
        1
    } else {
        (20 * min_side((k - 1) as nat) + 2) / 3
    }
}

/// An area of at least `min_side(k)` on each side, split at most `k` deep
/// with ratios in range, leaves every pane at least one unit on each side.
pub proof fn lemma_rects_positive(t: LayoutTree, area: Rect, k: nat)
    requires
        t.ratios_in_range(),
        height(t) <= k,
        min_side(k) <= area.w,
        min_side(k) <= area.h,
    ensures
        forall|i: int|
            0 <= i < t.rects_spec(area).len() ==> (#[trigger] t.rects_spec(area)[i]).1.w > 0
                && t.rects_spec(area)[i].1.h > 0,
    decreases t,
{
    lemma_min_side_grows(k);
    match t {
        LayoutTree::Leaf(_) => {},
        LayoutTree::Split { orientation, ratio, first, second } => {
            let p = min_side((k - 1) as nat);
            lemma_min_side_grows((k - 1) as nat);
            assert(3 * min_side(k) >= 20 * p);
            let side = match orientation {
                SplitOrientation::Horizontal => area.w,
                SplitOrientation::Vertical => area.h,
            };
            lemma_scaled(side, ratio);
            let part = scaled(side, ratio);
            assert(part >= p && side - part >= p) by {
                lemma_share_at_least(side as int, ratio as int, p);
            }
            let (r1, r2) = match orientation {
                SplitOrientation::Horizontal => (
                    Rect { x: area.x, y: area.y, w: part, h: area.h },
                    Rect { x: (area.x + part) as u128, y: area.y, w: (area.w - part) as u128, h: area.h },
                ),
                SplitOrientation::Vertical => (
                    Rect { x: area.x, y: area.y, w: area.w, h: part },
                    Rect { x: area.x, y: (area.y + part) as u128, w: area.w, h: (area.h - part) as u128 },
                ),
            };
            assert(t.rects_spec(area) == first.rects_spec(r1) + second.rects_spec(r2));
            lemma_rects_positive(*first, r1, (k - 1) as nat);
            lemma_rects_positive(*second, r2, (k - 1) as nat);
            let a = first.rects_spec(r1);
            let b = second.rects_spec(r2);
            let all = t.rects_spec(area);
            assert forall|i: int| 0 <= i < all.len() implies (#[trigger] all[i]).1.w > 0
                && all[i].1.h > 0 by {
                if i < a.len() {
                    assert(all[i] == a[i]);
                } else {
                    assert(all[i] == b[i - a.len()]);
                }
            }
        },
    }
}

/// `k` nested splits, each giving its first pane the smallest share of the
/// width and nesting the next split there.
pub open spec fn narrow_chain(k: nat) -> LayoutTree
    decreases k,
{
    if k == 0 {
        LayoutTree::Leaf(PaneId(0))
    } else {
        LayoutTree::Split {
            orientation: SplitOrientation::Horizontal,
            ratio: RATIO_MIN,
            first: Box::new(narrow_chain((k - 1) as nat)),
            second: Box::new(LayoutTree::Leaf(PaneId(k as u64))),
        }
    }
}

/// A width after `k` smallest shares.
pub open spec fn narrowed(w: int, k: nat) -> int
    decreases k,
{
    if k == 0 {
        w
    } else {
        narrowed(w * RATIO_MIN as int / RATIO_SCALE as int, (k - 1) as nat)
    }
}

proof fn lemma_narrow_chain(k: nat, area: Rect)
    ensures
        narrow_chain(k).rects_spec(area).len() > 0,
        narrow_chain(k).rects_spec(area)[0].1.w == narrowed(area.w as int, k),
        narrow_chain(k).ratios_in_range(),
        height(narrow_chain(k)) == k,
    decreases k,
{
    if k > 0 {
        lemma_scaled(area.w, RATIO_MIN);
        let first = Rect { x: area.x, y: area.y, w: scaled(area.w, RATIO_MIN), h: area.h };
        lemma_narrow_chain((k - 1) as nat, first);
        let t = narrow_chain(k);
        let inner = narrow_chain((k - 1) as nat);
        let leaf = LayoutTree::Leaf(PaneId(k as u64));
        assert(height(leaf) == 0);
        assert(leaf.ratios_in_range());
        assert(t == LayoutTree::Split {
            orientation: SplitOrientation::Horizontal,
            ratio: RATIO_MIN,
            first: Box::new(inner),
            second: Box::new(leaf),
        });
        let a = inner.rects_spec(first);
        assert(t.rects_spec(area)[0] == a[0]);
    }
}

/// `MAX_POSITIVE_DEPTH` is exact: one split deeper, with every ratio in
/// range, a pane can be left with no width at all.
pub proof fn law_positive_depth_is_exact()
    ensures
        narrow_chain(MAX_POSITIVE_DEPTH as nat + 1).ratios_in_range(),
        height(narrow_chain(MAX_POSITIVE_DEPTH as nat + 1)) == MAX_POSITIVE_DEPTH + 1,
        narrow_chain(MAX_POSITIVE_DEPTH as nat + 1).rects_spec(workspace_rect())[0].1.w == 0,
{
    lemma_narrow_chain(MAX_POSITIVE_DEPTH as nat + 1, workspace_rect());
    reveal_with_fuel(narrowed, 44);
    assert(narrowed(LAYOUT_EXTENT as int, 43) == 0);
}

proof fn lemma_min_side_extent()
    ensures
        min_side(MAX_POSITIVE_DEPTH as nat) <= LAYOUT_EXTENT,
{
    reveal_with_fuel(min_side, 44);
}

proof fn lemma_min_side_grows(n: nat)
    ensures
        min_side(n) >= 1,
    decreases n,
{
    if n > 0 {
        lemma_min_side_grows((n - 1) as nat);
    }
}

proof fn lemma_share_at_least(side: int, ratio: int, p: int)
    requires
        3 * side >= 20 * p,
        p >= 1,
        RATIO_MIN <= ratio <= RATIO_MAX,
    ensures
        side * ratio / 1000 >= p,
        side - side * ratio / 1000 >= p,
{
    assert(side * ratio >= 1000 * p) by (nonlinear_arith)
        requires
            3 * side >= 20 * p,
            ratio >= 150,
            p >= 1,
    ;
    assert(side * (1000 - ratio) >= 1000 * p) by (nonlinear_arith)
        requires
            3 * side >= 20 * p,
            ratio <= 850,
            p >= 1,
    ;
    assert(side * ratio / 1000 >= p) by (nonlinear_arith)
        requires
            side * ratio >= 1000 * p,
    ;
    assert(side * ratio / 1000 * 1000 <= side * ratio) by (nonlinear_arith)
        requires
            side >= 0,
            ratio >= 0,
    ;
    assert(side - side * ratio / 1000 >= p) by (nonlinear_arith)
        requires
            side * ratio / 1000 * 1000 <= side * ratio,
            side * (1000 - ratio) >= 1000 * p,
    ;
}

pub open spec fn min_int(a: int, b: int) -> int {
    if a <= b {
        a
    } else {
        b
    }
}

pub open spec fn max_int(a: int, b: int) -> int {
    if a >= b {
        a
    } else {
        b
    }
}

pub open spec fn abs_int(a: int) -> int {
    if a < 0 {
        -a
    } else {
        a
    }
}

/// Length of the overlap of the spans `a0..a1` and `b0..b1` (negative when
/// they are apart).
pub open spec fn span_overlap(a0: int, a1: int, b0: int, b1: int) -> int {
    min_int(a1, b1) - max_int(a0, b0)
}

/// How `rect` ranks as a neighbor of `current` toward `direction`: `None`
/// when it does not lie entirely on that side or does not share a stretch of
/// the perpendicular axis with `current`; otherwise the distance from
/// `current` to it, the length of the shared stretch, and twice the distance
/// between their centres along the perpendicular axis.
pub open spec fn neighbor_rank(current: Rect, rect: Rect, direction: Direction) -> Option<
    (int, int, int),
> {
    let (c, r) = (current, rect);
    let overlap = match direction {
        Direction::Left | Direction::Right => span_overlap(c.y as int, c.y + c.h, r.y as int, r.y + r.h),
        Direction::Up | Direction::Down => span_overlap(c.x as int, c.x + c.w, r.x as int, r.x + r.w),
    };
    let gap: Option<int> = match direction {
        Direction::Left => if r.x + r.w <= c.x {
            Some(c.x - (r.x + r.w))
        } else {
            None
        },
        Direction::Right => if r.x >= c.x + c.w {
            Some(r.x - (c.x + c.w))
        } else {
            None
        },
        Direction::Up => if r.y + r.h <= c.y {
            Some(c.y - (r.y + r.h))
        } else {
            None
        },
        Direction::Down => if r.y >= c.y + c.h {
            Some(r.y - (c.y + c.h))
        } else {
            None
        },
    };
    let cross = match direction {
        Direction::Left | Direction::Right => abs_int((2 * r.y + r.h) - (2 * c.y + c.h)),
        Direction::Up | Direction::Down => abs_int((2 * r.x + r.w) - (2 * c.x + c.w)),
    };
    if overlap <= 0 {
        None
    } else {
        match gap {
            Some(g) => Some((g, overlap, cross)),
            None => None,
        }
    }
}

/// The order of candidates: smaller gap first, then longer overlap, then
/// smaller centre distance, then smaller pane identifier.
pub open spec fn rank_le(a: (int, int, int), a_id: PaneId, b: (int, int, int), b_id: PaneId) -> bool {
    ||| a.0 < b.0
    ||| a.0 == b.0 && a.1 > b.1
    ||| a.0 == b.0 && a.1 == b.1 && a.2 < b.2
    ||| a.0 == b.0 && a.1 == b.1 && a.2 == b.2 && a_id.0 <= b_id.0
}

/// `rect` lies wholly on the `direction` side of `current`.
pub open spec fn lies_toward(current: Rect, rect: Rect, direction: Direction) -> bool {
    match direction {
        Direction::Left => rect.x + rect.w <= current.x,
        Direction::Right => current.x + current.w <= rect.x,
        Direction::Up => rect.y + rect.h <= current.y,
        Direction::Down => current.y + current.h <= rect.y,
    }
}

/// `rect` and `current` share a stretch of positive length of the axis
/// across `direction`.
pub open spec fn shares_stretch(current: Rect, rect: Rect, direction: Direction) -> bool {
    match direction {
        Direction::Left | Direction::Right => {
            &&& current.y < rect.y + rect.h
            &&& rect.y < current.y + current.h
            &&& current.h > 0
            &&& rect.h > 0
        },
        Direction::Up | Direction::Down => {
            &&& current.x < rect.x + rect.w
            &&& rect.x < current.x + current.w
            &&& current.w > 0
            &&& rect.w > 0
        },
    }
}

/// The empty space between `current` and a `rect` that lies toward
/// `direction`.
pub open spec fn gap_toward(current: Rect, rect: Rect, direction: Direction) -> int {
    match direction {
        Direction::Left => current.x - (rect.x + rect.w),
        Direction::Right => rect.x - (current.x + current.w),
        Direction::Up => current.y - (rect.y + rect.h),
        Direction::Down => rect.y - (current.y + current.h),
    }
}

/// The length of the stretch of the axis across `direction` that `rect`
/// and `current` share.
pub open spec fn shared_length(current: Rect, rect: Rect, direction: Direction) -> int {
    let (a0, a1, b0, b1) = match direction {
        Direction::Left | Direction::Right => (
            current.y as int,
            current.y + current.h,
            rect.y as int,
            rect.y + rect.h,
        ),
        Direction::Up | Direction::Down => (
            current.x as int,
            current.x + current.w,
            rect.x as int,
            rect.x + rect.w,
        ),
    };
    (if a1 <= b1 {
        a1
    } else {
        b1
    }) - (if a0 >= b0 {
        a0
    } else {
        b0
    })
}

/// The neighbor of a pane toward a direction is a pane that lies on that
/// side and shares a stretch of the other axis with it, and no other such
/// pane lies closer: for panes `1 | 2 | 3` side by side, the neighbor of `1`
/// to the right is `2`. Among the closest, it shares the longest stretch.
/// With no neighbor, no pane lies on that side sharing a stretch.
pub proof fn law_neighbor_is_the_closest(
    rects: Seq<(PaneId, Rect)>,
    pane: PaneId,
    direction: Direction,
    found: Option<PaneId>,
)
    requires
        is_nearest_neighbor(rects, pane, direction, found),
        lookup_rect(rects, pane) is Some,
    ensures
        ({
            let current = lookup_rect(rects, pane)->0;
            match found {
                Some(n) => exists|i: int|
                    {
                        &&& 0 <= i < rects.len()
                        &&& #[trigger] rects[i].0 == n
                        &&& n != pane
                        &&& lies_toward(current, rects[i].1, direction)
                        &&& shares_stretch(current, rects[i].1, direction)
                        &&& forall|j: int|
                            0 <= j < rects.len() && rects[j].0 != pane && lies_toward(
                                current,
                                #[trigger] rects[j].1,
                                direction,
                            ) && shares_stretch(current, rects[j].1, direction) ==> gap_toward(
                                current,
                                rects[i].1,
                                direction,
                            ) <= gap_toward(current, rects[j].1, direction) && (gap_toward(
                                current,
                                rects[i].1,
                                direction,
                            ) == gap_toward(current, rects[j].1, direction) ==> shared_length(
                                current,
                                rects[i].1,
                                direction,
                            ) >= shared_length(current, rects[j].1, direction))
                    },
                None => forall|j: int|
                    0 <= j < rects.len() && rects[j].0 != pane ==> !(lies_toward(
                        current,
                        #[trigger] rects[j].1,
                        direction,
                    ) && shares_stretch(current, rects[j].1, direction)),
            }
        }),
{
    let current = lookup_rect(rects, pane)->0;
    assert forall|j: int| 0 <= j < rects.len() implies (neighbor_rank(
        current,
        #[trigger] rects[j].1,
        direction,
    ) is Some <==> (lies_toward(current, rects[j].1, direction) && shares_stretch(
        current,
        rects[j].1,
        direction,
    ))) && (neighbor_rank(current, rects[j].1, direction) is Some ==> (neighbor_rank(
        current,
        rects[j].1,
        direction,
    )->0).0 == gap_toward(current, rects[j].1, direction) && (neighbor_rank(
        current,
        rects[j].1,
        direction,
    )->0).1 == shared_length(current, rects[j].1, direction)) by {
        let r = rects[j].1;
        match direction {
            Direction::Left | Direction::Right => {
                assert(span_overlap(current.y as int, current.y + current.h, r.y as int, r.y + r.h)
                    > 0 <==> shares_stretch(current, r, direction));
            },
            Direction::Up | Direction::Down => {
                assert(span_overlap(current.x as int, current.x + current.w, r.x as int, r.x + r.w)
                    > 0 <==> shares_stretch(current, r, direction));
            },
        }
    }
    match found {
        Some(n) => {
            let i = choose|i: int|
                {
                    &&& #[trigger] is_candidate(rects, pane, current, direction, i)
                    &&& rects[i].0 == n
                    &&& forall|j: int|
                        is_candidate(rects, pane, current, direction, j) ==> rank_le(
                            neighbor_rank(current, rects[i].1, direction)->0,
                            n,
                            neighbor_rank(current, rects[j].1, direction)->0,
                            rects[j].0,
                        )
                };
            assert forall|j: int|
                0 <= j < rects.len() && rects[j].0 != pane && lies_toward(
                    current,
                    #[trigger] rects[j].1,
                    direction,
                ) && shares_stretch(current, rects[j].1, direction) implies gap_toward(
                current,
                rects[i].1,
                direction,
            ) <= gap_toward(current, rects[j].1, direction) && (gap_toward(
                current,
                rects[i].1,
                direction,
            ) == gap_toward(current, rects[j].1, direction) ==> shared_length(
                current,
                rects[i].1,
                direction,
            ) >= shared_length(current, rects[j].1, direction)) by {
                assert(is_candidate(rects, pane, current, direction, j));
            }
            assert(rects[i].0 == n);
        },
        None => {
            assert forall|j: int| 0 <= j < rects.len() && rects[j].0 != pane implies !(lies_toward(
                current,
                #[trigger] rects[j].1,
                direction,
            ) && shares_stretch(current, rects[j].1, direction)) by {
                assert(!is_candidate(rects, pane, current, direction, j));
            }
        },
    }
}

/// The rectangle listed first for `pane`.
pub open spec fn lookup_rect(rects: Seq<(PaneId, Rect)>, pane: PaneId) -> Option<Rect>
    decreases rects.len(),
{
    if rects.len() == 0 {
        None
    } else if rects[0].0 == pane {
        Some(rects[0].1)
    } else {
        lookup_rect(rects.skip(1), pane)
    }
}

/// Entry `i` of `rects` is another pane that ranks as a neighbor of `current`.
pub open spec fn is_candidate(
    rects: Seq<(PaneId, Rect)>,
    pane: PaneId,
    current: Rect,
    direction: Direction,
    i: int,
) -> bool {
    &&& 0 <= i < rects.len()
    &&& rects[i].0 != pane
    &&& neighbor_rank(current, rects[i].1, direction) is Some
}

/// `found` is the best ranked neighbor of `pane` toward `direction` among
/// `rects`, or `None` when `pane` has no rectangle or nothing ranks.
pub open spec fn is_nearest_neighbor(
    rects: Seq<(PaneId, Rect)>,
    pane: PaneId,
    direction: Direction,
    found: Option<PaneId>,
) -> bool {
    match lookup_rect(rects, pane) {
        None => found is None,
        Some(current) => match found {
            None => forall|i: int| !is_candidate(rects, pane, current, direction, i),
            Some(n) => exists|i: int|
                {
                    &&& #[trigger] is_candidate(rects, pane, current, direction, i)
                    &&& rects[i].0 == n
                    &&& forall|j: int|
                        is_candidate(rects, pane, current, direction, j) ==> rank_le(
                            neighbor_rank(current, rects[i].1, direction)->0,
                            n,
                            neighbor_rank(current, rects[j].1, direction)->0,
                            rects[j].0,
                        )
                },
        },
    }
}

fn neighbor_rank_of(current: Rect, rect: Rect, direction: Direction) -> (rank: Option<
    (u128, u128, u128),
>)
    requires
        fits_workspace(current),
        fits_workspace(rect),
    ensures
        match neighbor_rank(current, rect, direction) {
            None => rank is None,
            Some(k) => rank matches Some(r) && r.0 as int == k.0 && r.1 as int == k.1 && r.2 as int
                == k.2,
        },
{
    let (c, r) = (current, rect);
    let (c0, c1, r0, r1) = match direction {
        Direction::Left | Direction::Right => (c.y, c.y + c.h, r.y, r.y + r.h),
        Direction::Up | Direction::Down => (c.x, c.x + c.w, r.x, r.x + r.w),
    };
    let lo = if c0 >= r0 {
        c0
    } else {
        r0
    };
    let hi = if c1 <= r1 {
        c1
    } else {
        r1
    };
    if hi <= lo {
        return None;
    }
    let overlap = hi - lo;
    let gap = match direction {
        Direction::Left => if r.x + r.w <= c.x {
            c.x - (r.x + r.w)
        } else {
            return None;
        },
        Direction::Right => if r.x >= c.x + c.w {
            r.x - (c.x + c.w)
        } else {
            return None;
        },
        Direction::Up => if r.y + r.h <= c.y {
            c.y - (r.y + r.h)
        } else {
            return None;
        },
        Direction::Down => if r.y >= c.y + c.h {
            r.y - (c.y + c.h)
        } else {
            return None;
        },
    };
    let (rc, cc) = match direction {
        Direction::Left | Direction::Right => (2 * r.y + r.h, 2 * c.y + c.h),
        Direction::Up | Direction::Down => (2 * r.x + r.w, 2 * c.x + c.w),
    };
    let cross = if rc >= cc {
        rc - cc
    } else {
        cc - rc
    };
    Some((gap, overlap, cross))
}

fn rank_precedes(a: (u128, u128, u128), a_id: PaneId, b: (u128, u128, u128), b_id: PaneId) -> (before: bool)
    ensures
        before == rank_le(
            (a.0 as int, a.1 as int, a.2 as int),
            a_id,
            (b.0 as int, b.1 as int, b.2 as int),
            b_id,
        ),
{
    if a.0 != b.0 {
        a.0 < b.0
    } else if a.1 != b.1 {
        a.1 > b.1
    } else if a.2 != b.2 {
        a.2 < b.2
    } else {
        a_id.0 <= b_id.0
    }
}

/// Trading the places of the panes `a` and `b` keeps every rectangle where
/// it is and only exchanges the panes that own them: `a` gets the rectangle
/// `b` had and `b` the one `a` had, all others keep theirs.
pub proof fn law_swap_exchanges_rectangles(t: LayoutTree, a: PaneId, b: PaneId, area: Rect)
    ensures
        t.swap_spec(a, b).rects_spec(area) == t.rects_spec(area).map_values(
            |e: (PaneId, Rect)| (swapped(e.0, a, b), e.1),
        ),
        forall|p: PaneId|
            lookup_rect(t.swap_spec(a, b).rects_spec(area), #[trigger] swapped(p, a, b))
                == lookup_rect(t.rects_spec(area), p),
    decreases t,
{
    lemma_swap_rects(t, a, b, area);
    assert forall|p: PaneId|
        lookup_rect(t.swap_spec(a, b).rects_spec(area), #[trigger] swapped(p, a, b)) == lookup_rect(
            t.rects_spec(area),
            p,
        ) by {
        lemma_lookup_swapped(t.rects_spec(area), a, b, p);
    }
}

proof fn lemma_swap_rects(t: LayoutTree, a: PaneId, b: PaneId, area: Rect)
    ensures
        t.swap_spec(a, b).rects_spec(area) == t.rects_spec(area).map_values(
            |e: (PaneId, Rect)| (swapped(e.0, a, b), e.1),
        ),
    decreases t,
{
    let f = |e: (PaneId, Rect)| (swapped(e.0, a, b), e.1);
    match t {
        LayoutTree::Leaf(id) => {
            assert(t.rects_spec(area).map_values(f) =~= seq![(swapped(id, a, b), area)]);
        },
        LayoutTree::Split { orientation, ratio, first, second } => {
            let (r1, r2) = match orientation {
                SplitOrientation::Horizontal => {
                    let fw = scaled(area.w, ratio);
                    (
                        Rect { x: area.x, y: area.y, w: fw, h: area.h },
                        Rect { x: (area.x + fw) as u128, y: area.y, w: (area.w - fw) as u128, h: area.h },
                    )
                },
                SplitOrientation::Vertical => {
                    let fh = scaled(area.h, ratio);
                    (
                        Rect { x: area.x, y: area.y, w: area.w, h: fh },
                        Rect { x: area.x, y: (area.y + fh) as u128, w: area.w, h: (area.h - fh) as u128 },
                    )
                },
            };
            lemma_swap_rects(*first, a, b, r1);
            lemma_swap_rects(*second, a, b, r2);
            let x = first.rects_spec(r1);
            let y = second.rects_spec(r2);
            assert(t.rects_spec(area) == x + y);
            assert(t.swap_spec(a, b).rects_spec(area) == first.swap_spec(a, b).rects_spec(r1)
                + second.swap_spec(a, b).rects_spec(r2));
            assert((x + y).map_values(f) =~= x.map_values(f) + y.map_values(f));
        },
    }
}

proof fn lemma_lookup_swapped(rects: Seq<(PaneId, Rect)>, a: PaneId, b: PaneId, p: PaneId)
    ensures
        lookup_rect(
            rects.map_values(|e: (PaneId, Rect)| (swapped(e.0, a, b), e.1)),
            swapped(p, a, b),
        ) == lookup_rect(rects, p),
    decreases rects.len(),
{
    let f = |e: (PaneId, Rect)| (swapped(e.0, a, b), e.1);
    if rects.len() > 0 {
        assert(rects.map_values(f).skip(1) =~= rects.skip(1).map_values(f));
        lemma_lookup_swapped(rects.skip(1), a, b, p);
    }
}

/// Trading the places of two panes of a duplicate-free sequence keeps it
/// duplicate-free and holding the same panes.
pub proof fn lemma_swap_preserves_panes(s: Seq<PaneId>, a: PaneId, b: PaneId)
    requires
        s.no_duplicates(),
        s.contains(a),
        s.contains(b),
    ensures
        s.map_values(|p: PaneId| swapped(p, a, b)).no_duplicates(),
        forall|p: PaneId| s.map_values(|q: PaneId| swapped(q, a, b)).contains(p) <==> s.contains(p),
{
    let r = s.map_values(|p: PaneId| swapped(p, a, b));
    assert forall|i: int, j: int| 0 <= i < r.len() && 0 <= j < r.len() && i != j implies r[i]
        != r[j] by {
        assert(r[i] == swapped(s[i], a, b) && r[j] == swapped(s[j], a, b));
    }
    assert forall|p: PaneId| r.contains(p) <==> s.contains(p) by {
        if r.contains(p) {
            let k = choose|k: int| 0 <= k < r.len() && r[k] == p;
            assert(r[k] == swapped(s[k], a, b));
        }
        if s.contains(p) {
            let k = choose|k: int| 0 <= k < s.len() && s[k] == p;
            let q = swapped(p, a, b);
            let kq = choose|kq: int| 0 <= kq < s.len() && s[kq] == q;
            assert(r[kq] == swapped(q, a, b));
        }
    }
}

pub open spec fn opposite(direction: Direction) -> Direction {
    match direction {
        Direction::Left => Direction::Right,
        Direction::Right => Direction::Left,
        Direction::Up => Direction::Down,
        Direction::Down => Direction::Up,
    }
}

/// Every split ratio stays at least `margin` away from both ends of the
/// allowed range.
pub open spec fn ratios_within_margin(t: LayoutTree, margin: int) -> bool
    decreases t,
{
    match t {
        LayoutTree::Leaf(_) => true,
        LayoutTree::Split { ratio, first, second, .. } => {
            &&& RATIO_MIN + margin <= ratio <= RATIO_MAX - margin
            &&& ratios_within_margin(*first, margin)
            &&& ratios_within_margin(*second, margin)
        },
    }
}

/// Resizing a pane by `delta` toward a direction and then by the same
/// `delta` toward the opposite direction gives back the layout, as long as
/// no ratio had to be clamped on the way.
pub proof fn law_resize_back_and_forth(
    t: LayoutTree,
    target: PaneId,
    direction: Direction,
    delta: int,
)
    requires
        ratios_within_margin(t, abs_int(delta)),
    ensures
        t.resize_spec(target, direction, delta).0.resize_spec(target, opposite(direction), delta).0
            == t,
    decreases t,
{
    match t {
        LayoutTree::Leaf(_) => {},
        LayoutTree::Split { orientation, ratio, first, second } => {
            lemma_resize_shape(*first, target, direction, delta);
            lemma_resize_shape(*second, target, direction, delta);
            if orientation != orientation_of(direction) {
                law_resize_back_and_forth(*first, target, direction, delta);
                law_resize_back_and_forth(*second, target, direction, delta);
            }
        },
    }
}

/// The panes, the focus and the identifier allocator of one dashboard window.
#[derive(Debug)]
pub struct Workspace {
    root: LayoutTree,
    focused: PaneId,
    next_id: u64,
}

/// Panes are unique, the focus is one of them, every identifier lies below
/// the next one to hand out, and every ratio is in range.
spec fn valid_parts(root: LayoutTree, focused: PaneId, next_id: u64) -> bool {
    let panes = root.panes();
    &&& panes.no_duplicates()
    &&& panes.contains(focused)
    &&& forall|i: int| 0 <= i < panes.len() ==> (#[trigger] panes[i]).0 < next_id
    &&& root.ratios_in_range()
}

impl Clone for Workspace {
    fn clone(&self) -> (copy: Self)
        ensures
            copy == *self,
    {
        proof {
            use_type_invariant(self);
        }
        Workspace { root: self.root.clone(), focused: self.focused, next_id: self.next_id }
    }
}

impl Workspace {
    pub closed spec fn layout(self) -> LayoutTree {
        self.root
    }

    pub closed spec fn focus_id(self) -> PaneId {
        self.focused
    }

    pub closed spec fn next_pane_number(self) -> u64 {
        self.next_id
    }

    /// Panes are unique, the focus is one of them, every identifier lies below
    /// the next one to hand out, and every ratio is in range: this holds of
    /// every workspace.
    #[verifier::type_invariant]
    closed spec fn wf(self) -> bool {
        valid_parts(self.root, self.focused, self.next_id)
    }

    /// Takes the layout out, leaving the focused pane alone in its place.
    fn take_root(&mut self) -> (root: LayoutTree)
        ensures
            root == old(self).layout(),
            valid_parts(root, old(self).focus_id(), old(self).next_pane_number()),
            final(self).focus_id() == old(self).focus_id(),
            final(self).next_pane_number() == old(self).next_pane_number(),
    {
        proof {
            use_type_invariant(&*self);
            let panes = self.root.panes();
            let k = choose|k: int| 0 <= k < panes.len() && panes[k] == self.focused;
            assert(panes[k].0 < self.next_id);
            let leaf = LayoutTree::Leaf(self.focused);
            assert(leaf.panes() =~= seq![self.focused]);
            assert(leaf.panes()[0] == self.focused);
        }
        let mut root = LayoutTree::Leaf(self.focused);
        std::mem::swap(&mut root, &mut self.root);
        root
    }

    /// Puts a layout and a focus in place.
    fn install(&mut self, root: LayoutTree, focused: PaneId)
        requires
            valid_parts(root, focused, old(self).next_pane_number()),
        ensures
            final(self).layout() == root,
            final(self).focus_id() == focused,
            final(self).next_pane_number() == old(self).next_pane_number(),
    {
        *self = Workspace { root, focused, next_id: self.next_id };
    }

    pub fn new() -> (workspace: Self)
        ensures
            workspace.layout() == LayoutTree::Leaf(PaneId(1)),
            workspace.focus_id() == PaneId(1),
            workspace.next_pane_number() == 2,
    {
        let first = PaneId(1);
        proof {
            let leaf = LayoutTree::Leaf(first);
            assert(leaf.panes() =~= seq![first]);
            assert(leaf.panes()[0] == first);
        }
        Workspace { root: LayoutTree::Leaf(first), focused: first, next_id: 2 }
    }

    pub fn root(&self) -> (root: &LayoutTree)
        ensures
            *root == self.layout(),
    {
        &self.root
    }

    pub fn focused(&self) -> (pane: PaneId)
        ensures
            pane == self.focus_id(),
    {
        self.focused
    }

    pub fn pane_ids(&self) -> (ids: Vec<PaneId>)
        ensures
            ids@ == self.layout().panes(),
    {
        let mut ids = Vec::new();
        self.root.walk_panes(&mut ids);
        assert(ids@ =~= self.layout().panes());
        ids
    }

    /// Whether a new pane identifier can still be handed out.
    pub fn can_allocate_pane(&self) -> (ok: bool)
        ensures
            ok == (self.next_pane_number() < u64::MAX),
    {
        self.next_id < u64::MAX
    }

    fn allocate_pane(&mut self) -> (id: PaneId)
        requires
            old(self).next_pane_number() < u64::MAX,
        ensures
            id == PaneId(old(self).next_pane_number()),
            final(self).next_pane_number() == old(self).next_pane_number() + 1,
            final(self).layout() == old(self).layout(),
            final(self).focus_id() == old(self).focus_id(),
    {
        proof {
            use_type_invariant(&*self);
        }
        let id = PaneId(self.next_id);
        self.next_id = self.next_id + 1;
        id
    }

    /// Replaces the focused leaf by `split`, which must hold the old focus and
    /// the freshly allocated `new_id`, and focuses `new_id`.
    fn install_split(&mut self, new_id: PaneId, split: LayoutTree)
        requires
            old(self).wf(),
            new_id.0 == old(self).next_pane_number() - 1,
            forall|i: int|
                0 <= i < old(self).layout().panes().len() ==> (#[trigger] old(
                    self,
                ).layout().panes()[i]).0 < new_id.0,
            split.ratios_in_range(),
            split.panes() == seq![old(self).focus_id(), new_id] || split.panes() == seq![
                new_id,
                old(self).focus_id(),
            ],
        ensures
            final(self).wf(),
            final(self).layout() == old(self).layout().replace_leaf_spec(
                old(self).focus_id(),
                split,
            ),
            final(self).focus_id() == new_id,
            final(self).next_pane_number() == old(self).next_pane_number(),
            final(self).layout().panes() =~= old(self).layout().panes().take(
                old(self).layout().panes().index_of(old(self).focus_id()),
            ) + split.panes() + old(self).layout().panes().skip(
                old(self).layout().panes().index_of(old(self).focus_id()) + 1,
            ),
    {
        let ghost old_panes = self.root.panes();
        let ghost i = old_panes.index_of(self.focused);
        let ghost focus = self.focused;
        let ghost next = self.next_id;
        let root = self.take_root();
        let new_root = root.replace_leaf(self.focused, split);
        proof {
            lemma_replace_leaf_panes(root, i, focus, split);
            lemma_replace_leaf_ratios(root, focus, split);
            let new_panes = new_root.panes();
            assert(!old_panes.contains(new_id)) by {
                if old_panes.contains(new_id) {
                    let k = choose|k: int| 0 <= k < old_panes.len() && old_panes[k] == new_id;
                    assert(old_panes[k].0 < new_id.0);
                }
            }
            if split.panes() == seq![focus, new_id] {
                assert(new_panes =~= old_panes.insert(i + 1, new_id));
                lemma_insert_fresh(old_panes, i + 1, new_id);
                assert(new_panes[i + 1] == new_id);
            } else {
                assert(new_panes =~= old_panes.insert(i, new_id));
                lemma_insert_fresh(old_panes, i, new_id);
                assert(new_panes[i] == new_id);
            }
            assert forall|k: int| 0 <= k < new_panes.len() implies (
            #[trigger] new_panes[k]).0 < next by {
                assert(old_panes.insert(i + 1, new_id).contains(new_panes[k])
                    || old_panes.insert(i, new_id).contains(new_panes[k]));
                if new_panes[k] != new_id {
                    assert(old_panes.contains(new_panes[k]));
                }
            }
        }
        self.install(new_root, new_id);
    }

    /// Splits the focused pane in two, the new pane second, and focuses it.
    pub fn split_focused(&mut self, orientation: SplitOrientation) -> (new_pane: PaneId)
        requires
            old(self).next_pane_number() < u64::MAX,
        ensures
            new_pane == PaneId(old(self).next_pane_number()),
            !old(self).layout().panes().contains(new_pane),
            final(self).focus_id() == new_pane,
            final(self).next_pane_number() == old(self).next_pane_number() + 1,
            final(self).layout() == old(self).layout().replace_leaf_spec(
                old(self).focus_id(),
                LayoutTree::Split {
                    orientation,
                    ratio: RATIO_HALF,
                    first: Box::new(LayoutTree::Leaf(old(self).focus_id())),
                    second: Box::new(LayoutTree::Leaf(new_pane)),
                },
            ),
            final(self).layout().panes() == old(self).layout().panes().insert(
                old(self).layout().panes().index_of(old(self).focus_id()) + 1,
                new_pane,
            ),
    {
        proof {
            use_type_invariant(&*self);
        }
        let ghost old_self = *self;
        let new_id = self.allocate_pane();
        let split = LayoutTree::Split {
            orientation,
            ratio: RATIO_HALF,
            first: Box::new(LayoutTree::Leaf(self.focused)),
            second: Box::new(LayoutTree::Leaf(new_id)),
        };
        proof {
            reveal_with_fuel(LayoutTree::panes, 2);
            reveal_with_fuel(LayoutTree::ratios_in_range, 2);
            assert(split.panes() =~= seq![self.focused, new_id]);
        }
        self.install_split(new_id, split);
        proof {
            let panes = old_self.layout().panes();
            assert(!panes.contains(new_id)) by {
                if panes.contains(new_id) {
                    let k = choose|k: int| 0 <= k < panes.len() && panes[k] == new_id;
                    assert(panes[k].0 < new_id.0);
                }
            }
            assert(self.layout().panes() =~= panes.insert(
                panes.index_of(old_self.focus_id()) + 1,
                new_id,
            ));
        }
        new_id
    }

    /// Splits the focused pane so that the new pane sits on the side given by
    /// `direction`, and focuses it.
    pub fn split_focused_toward(&mut self, direction: Direction) -> (new_pane: PaneId)
        requires
            old(self).next_pane_number() < u64::MAX,
        ensures
            new_pane == PaneId(old(self).next_pane_number()),
            !old(self).layout().panes().contains(new_pane),
            final(self).focus_id() == new_pane,
            final(self).next_pane_number() == old(self).next_pane_number() + 1,
            final(self).layout() == old(self).layout().replace_leaf_spec(
                old(self).focus_id(),
                match direction {
                    Direction::Left | Direction::Up => LayoutTree::Split {
                        orientation: orientation_of(direction),
                        ratio: RATIO_HALF,
                        first: Box::new(LayoutTree::Leaf(new_pane)),
                        second: Box::new(LayoutTree::Leaf(old(self).focus_id())),
                    },
                    Direction::Right | Direction::Down => LayoutTree::Split {
                        orientation: orientation_of(direction),
                        ratio: RATIO_HALF,
                        first: Box::new(LayoutTree::Leaf(old(self).focus_id())),
                        second: Box::new(LayoutTree::Leaf(new_pane)),
                    },
                },
            ),
            final(self).layout().panes() == old(self).layout().panes().insert(
                old(self).layout().panes().index_of(old(self).focus_id()) + match direction {
                    Direction::Left | Direction::Up => 0int,
                    Direction::Right | Direction::Down => 1int,
                },
                new_pane,
            ),
    {
        proof {
            use_type_invariant(&*self);
        }
        let ghost old_self = *self;
        let new_id = self.allocate_pane();
        let orientation = direction.split_orientation();
        let old = LayoutTree::Leaf(self.focused);
        let new = LayoutTree::Leaf(new_id);
        let (first, second) = match direction {
            Direction::Left | Direction::Up => (new, old),
            Direction::Right | Direction::Down => (old, new),
        };
        let split = LayoutTree::Split {
            orientation,
            ratio: RATIO_HALF,
            first: Box::new(first),
            second: Box::new(second),
        };
        proof {
            reveal_with_fuel(LayoutTree::panes, 2);
            reveal_with_fuel(LayoutTree::ratios_in_range, 2);
            assert(split.panes() =~= seq![first->Leaf_0, second->Leaf_0]);
        }
        self.install_split(new_id, split);
        proof {
            let panes = old_self.layout().panes();
            assert(!panes.contains(new_id)) by {
                if panes.contains(new_id) {
                    let k = choose|k: int| 0 <= k < panes.len() && panes[k] == new_id;
                    assert(panes[k].0 < new_id.0);
                }
            }
            let i = panes.index_of(old_self.focus_id());
            match direction {
                Direction::Left | Direction::Up => {
                    assert(self.layout().panes() =~= panes.insert(i, new_id));
                },
                Direction::Right | Direction::Down => {
                    assert(self.layout().panes() =~= panes.insert(i + 1, new_id));
                },
            }
        }
        new_id
    }

    /// The pane to focus once `_removed` is gone: the last of `remaining`.
    fn nearest_to_removed(remaining: &LayoutTree, _removed: PaneId) -> (pane: Option<PaneId>)
        ensures
            remaining.panes().len() > 0 ==> pane == Some(remaining.panes().last()),
    {
        let mut ids = Vec::new();
        remaining.walk_panes(&mut ids);
        assert(ids@ =~= remaining.panes());
        if ids.len() > 0 {
            Some(ids[ids.len() - 1])
        } else {
            None
        }
    }

    /// Closes the focused pane unless it is the last one, and focuses the
    /// last remaining pane.
    pub fn close_focused(&mut self) -> (closed: Option<PaneId>)
        ensures
            final(self).next_pane_number() == old(self).next_pane_number(),
            old(self).layout().panes().len() <= 1 ==> closed is None && *final(self) == *old(self),
            old(self).layout().panes().len() > 1 ==> {
                &&& closed == Some(old(self).focus_id())
                &&& old(self).layout().remove_leaf_spec(old(self).focus_id()) == Some(
                    final(self).layout(),
                )
                &&& final(self).layout().panes() == old(self).layout().panes().remove(
                    old(self).layout().panes().index_of(old(self).focus_id()),
                )
                &&& final(self).focus_id() == final(self).layout().panes().last()
            },
    {
        proof {
            use_type_invariant(&*self);
        }
        let closing = self.focused;
        let remaining = self.pane_ids();
        if remaining.len() <= 1 {
            return None;
        }
        let ghost old_panes = self.root.panes();
        let ghost i = old_panes.index_of(closing);
        proof {
            lemma_remove_present(self.root, i, closing);
            lemma_remove_index_no_dup(old_panes, i);
        }
        let ghost next = self.next_id;
        let root = self.take_root();
        let new_root = match root.remove_leaf(closing) {
            Some(remaining) => remaining,
            None => {
                return None;
            },
        };
        proof {
            let new_panes = new_root.panes();
            old_panes.remove_ensures(i);
            assert(new_panes.len() >= 1);
            assert forall|k: int| 0 <= k < new_panes.len() implies (
            #[trigger] new_panes[k]).0 < next by {
                assert(new_panes.contains(new_panes[k]));
                assert(old_panes.contains(new_panes[k]));
            }
        }
        let focus = match Self::nearest_to_removed(&new_root, closing) {
            Some(pane) => pane,
            None => {
                return None;
            },
        };
        proof {
            let new_panes = new_root.panes();
            assert(new_panes[new_panes.len() - 1] == focus);
        }
        self.install(new_root, focus);
        Some(closing)
    }

    /// Focuses `pane` when the layout holds it.
    pub fn focus(&mut self, pane: PaneId) -> (found: bool)
        ensures
            found == old(self).layout().panes().contains(pane),
            final(self).layout() == old(self).layout(),
            final(self).next_pane_number() == old(self).next_pane_number(),
            final(self).focus_id() == if found {
                pane
            } else {
                old(self).focus_id()
            },
    {
        proof {
            use_type_invariant(&*self);
        }
        if self.root.contains(pane) {
            self.focused = pane;
            true
        } else {
            false
        }
    }

    /// The rectangle of every pane, in pane order; together they tile the
    /// workspace without overlapping, and while no pane lies more than
    /// `MAX_POSITIVE_DEPTH` splits deep every rectangle has positive sides.
    pub fn rectangles(&self) -> (rects: Vec<(PaneId, Rect)>)
        ensures
            rects@ == self.layout().rects_spec(workspace_rect()),
            rects@.len() == self.layout().panes().len(),
            forall|i: int|
                0 <= i < rects@.len() ==> (#[trigger] rects@[i]).0 == self.layout().panes()[i]
                    && fits_workspace(rects@[i].1),
            total_area(rects@) == LAYOUT_EXTENT as int * LAYOUT_EXTENT as int,
            forall|i: int, j: int|
                0 <= i < j < rects@.len() ==> interiors_apart(
                    #[trigger] rects@[i].1,
                    #[trigger] rects@[j].1,
                ),
            height(self.layout()) <= MAX_POSITIVE_DEPTH ==> forall|i: int|
                0 <= i < rects@.len() ==> (#[trigger] rects@[i]).1.w > 0 && rects@[i].1.h > 0,
    {
        proof {
            use_type_invariant(self);
        }
        let mut rects = Vec::new();
        self.root.collect_rects(Rect { x: 0, y: 0, w: LAYOUT_EXTENT, h: LAYOUT_EXTENT }, &mut rects);
        proof {
            lemma_rects_apart(self.root, workspace_rect());
            if height(self.root) <= MAX_POSITIVE_DEPTH {
                lemma_min_side_extent();
                lemma_rects_positive(self.root, workspace_rect(), MAX_POSITIVE_DEPTH as nat);
            }
            lemma_rects_tile(self.root, workspace_rect());
            assert(rects@ =~= self.layout().rects_spec(workspace_rect()));
        }
        rects
    }

    /// The pane that the focus moves to from `pane` toward `direction`: among
    /// the panes lying on that side and sharing a stretch of the other axis,
    /// the nearest, then the one sharing the most, then the best centred,
    /// then the smallest identifier.
    pub fn neighbor(&self, pane: PaneId, direction: Direction) -> (found: Option<PaneId>)
        ensures
            is_nearest_neighbor(
                self.layout().rects_spec(workspace_rect()),
                pane,
                direction,
                found,
            ),
    {
        proof {
            use_type_invariant(self);
        }
        let rects = self.rectangles();
        let ghost rs = rects@;
        let mut current: Option<Rect> = None;
        let mut k: usize = 0;
        assert(rs.skip(0) =~= rs);
        while k < rects.len()
            invariant
                rects@ == rs,
                0 <= k <= rs.len(),
                forall|i: int| 0 <= i < rs.len() ==> fits_workspace(#[trigger] rs[i].1),
                current is None ==> lookup_rect(rs, pane) == lookup_rect(rs.skip(k as int), pane),
                current is Some ==> lookup_rect(rs, pane) == current,
                current matches Some(c) ==> fits_workspace(c),
            decreases rs.len() - k,
        {
            if current.is_none() {
                assert(rs.skip(k as int).skip(1) =~= rs.skip(k + 1));
                assert(rs.skip(k as int)[0] == rs[k as int]);
                if rects[k].0 == pane {
                    current = Some(rects[k].1);
                }
            }
            k = k + 1;
        }
        let current = match current {
            Some(c) => c,
            None => {
                assert(rs.skip(rs.len() as int).len() == 0);
                return None;
            },
        };
        let mut best: Option<(usize, (u128, u128, u128))> = None;
        let mut i: usize = 0;
        while i < rects.len()
            invariant
                rects@ == rs,
                0 <= i <= rs.len(),
                forall|j: int| 0 <= j < rs.len() ==> fits_workspace(#[trigger] rs[j].1),
                fits_workspace(current),
                lookup_rect(rs, pane) == Some(current),
                best is None ==> forall|j: int|
                    0 <= j < i ==> !is_candidate(rs, pane, current, direction, j),
                best matches Some(b) ==> {
                    &&& b.0 < i
                    &&& is_candidate(rs, pane, current, direction, b.0 as int)
                    &&& neighbor_rank(current, rs[b.0 as int].1, direction) == Some(
                        (b.1.0 as int, b.1.1 as int, b.1.2 as int),
                    )
                    &&& forall|j: int|
                        0 <= j < i && is_candidate(rs, pane, current, direction, j) ==> rank_le(
                            (b.1.0 as int, b.1.1 as int, b.1.2 as int),
                            rs[b.0 as int].0,
                            neighbor_rank(current, rs[j].1, direction)->0,
                            rs[j].0,
                        )
                },
            decreases rs.len() - i,
        {
            let (id, rect) = rects[i];
            if id != pane {
                match neighbor_rank_of(current, rect, direction) {
                    Some(rank) => {
                        let better = match best {
                            None => true,
                            Some((b, b_rank)) => !rank_precedes(b_rank, rects[b].0, rank, id),
                        };
                        if better {
                            best = Some((i, rank));
                        }
                    },
                    None => {},
                }
            }
            i = i + 1;
        }
        match best {
            None => None,
            Some((b, _)) => {
                assert(is_candidate(rs, pane, current, direction, b as int));
                Some(rects[b].0)
            },
        }
    }

    /// Moves the focus to the neighbor of the focused pane toward `direction`.
    pub fn focus_neighbor(&mut self, direction: Direction) -> (moved_to: Option<PaneId>)
        ensures
            is_nearest_neighbor(
                old(self).layout().rects_spec(workspace_rect()),
                old(self).focus_id(),
                direction,
                moved_to,
            ),
            final(self).layout() == old(self).layout(),
            final(self).next_pane_number() == old(self).next_pane_number(),
            final(self).focus_id() == match moved_to {
                Some(n) => n,
                None => old(self).focus_id(),
            },
    {
        proof {
            use_type_invariant(&*self);
        }
        let neighbor = match self.neighbor(self.focused, direction) {
            Some(n) => n,
            None => return None,
        };
        proof {
            self.lemma_neighbor_is_pane(self.focused, direction, neighbor);
        }
        self.focused = neighbor;
        Some(neighbor)
    }

    /// A neighbor found among the rectangles is a pane of the layout other
    /// than the pane it neighbors.
    proof fn lemma_neighbor_is_pane(self, pane: PaneId, direction: Direction, n: PaneId)
        requires
            self.wf(),
            is_nearest_neighbor(
                self.layout().rects_spec(workspace_rect()),
                pane,
                direction,
                Some(n),
            ),
        ensures
            self.layout().panes().contains(n),
            n != pane,
    {
        let rs = self.layout().rects_spec(workspace_rect());
        lemma_rects_tile(self.layout(), workspace_rect());
        let current = lookup_rect(rs, pane)->0;
        let i = choose|i: int|
            {
                &&& #[trigger] is_candidate(rs, pane, current, direction, i)
                &&& rs[i].0 == n
                &&& forall|j: int|
                    is_candidate(rs, pane, current, direction, j) ==> rank_le(
                        neighbor_rank(current, rs[i].1, direction)->0,
                        n,
                        neighbor_rank(current, rs[j].1, direction)->0,
                        rs[j].0,
                    )
            };
        assert(self.layout().panes()[i] == n);
    }

    /// Swaps the focused pane with its neighbor toward `direction`; the focus
    /// stays on the moved pane.
    pub fn move_focused(&mut self, direction: Direction) -> (swapped_with: Option<PaneId>)
        ensures
            is_nearest_neighbor(
                old(self).layout().rects_spec(workspace_rect()),
                old(self).focus_id(),
                direction,
                swapped_with,
            ),
            final(self).focus_id() == old(self).focus_id(),
            final(self).next_pane_number() == old(self).next_pane_number(),
            match swapped_with {
                None => final(self).layout() == old(self).layout(),
                Some(n) => {
                    &&& final(self).layout() == old(self).layout().swap_spec(old(self).focus_id(), n)
                    &&& final(self).layout().panes() == old(self).layout().panes().map_values(
                        |p: PaneId| swapped(p, old(self).focus_id(), n),
                    )
                    &&& final(self).layout().rects_spec(workspace_rect()) == old(
                        self,
                    ).layout().rects_spec(workspace_rect()).map_values(
                        |e: (PaneId, Rect)| (swapped(e.0, old(self).focus_id(), n), e.1),
                    )
                },
            },
    {
        proof {
            use_type_invariant(&*self);
        }
        let neighbor = match self.neighbor(self.focused, direction) {
            Some(n) => n,
            None => return None,
        };
        let ghost old_panes = self.root.panes();
        let ghost focus = self.focused;
        let focused = self.focused;
        proof {
            self.lemma_neighbor_is_pane(self.focused, direction, neighbor);
            lemma_swap_shape(self.root, self.focused, neighbor);
        }
        let ghost next = self.next_id;
        let root = self.take_root();
        let new_root = root.swap_leaves(focused, neighbor);
        proof {
            lemma_swap_preserves_panes(old_panes, focus, neighbor);
            lemma_swap_rects(old(self).layout(), focus, neighbor, workspace_rect());
            let new_panes = new_root.panes();
            assert(new_panes.contains(focus)) by {
                assert(old_panes.contains(neighbor));
                let k = choose|k: int| 0 <= k < old_panes.len() && old_panes[k] == neighbor;
                assert(new_panes[k] == swapped(old_panes[k], focus, neighbor));
            }
            assert forall|k: int| 0 <= k < new_panes.len() implies (#[trigger] new_panes[k]).0
                < next by {
                assert(new_panes.contains(new_panes[k]));
                assert(old_panes.contains(new_panes[k]));
            }
        }
        self.install(new_root, focused);
        Some(neighbor)
    }

    /// Moves the divider of the outermost split on the way to the focused pane
    /// that lies across `direction`, by `delta` thousandths, toward
    /// `direction`. Says whether the focused pane was found.
    pub fn resize_focused(&mut self, direction: Direction, delta: i32) -> (resized: bool)
        ensures
            resized,
            (final(self).layout(), resized) == old(self).layout().resize_spec(
                old(self).focus_id(),
                direction,
                delta as int,
            ),
            final(self).layout().panes() == old(self).layout().panes(),
            final(self).focus_id() == old(self).focus_id(),
            final(self).next_pane_number() == old(self).next_pane_number(),
    {
        proof {
            use_type_invariant(&*self);
        }
        proof {
            lemma_resize_shape(self.root, self.focused, direction, delta as int);
        }
        let focused = self.focused;
        let root = self.take_root();
        let (root, resized) = root.resize_path_to(focused, direction, delta);
        self.install(root, focused);
        resized
    }
}

impl Workspace {
    /// Sets the ratio of the split that `path` leads to from the root
    /// (`false` for the first child, `true` for the second), clamped to
    /// `RATIO_MIN..=RATIO_MAX`, as a divider dragged on screen asks. Says
    /// whether `path` led to a split; nothing changes when it did not.
    pub fn set_split_ratio(&mut self, path: &[bool], ratio: u32) -> (found: bool)
        ensures
            (final(self).layout(), found) == old(self).layout().set_ratio_spec(path@, ratio as int),
            final(self).layout().panes() == old(self).layout().panes(),
            final(self).focus_id() == old(self).focus_id(),
            final(self).next_pane_number() == old(self).next_pane_number(),
    {
        proof {
            use_type_invariant(&*self);
        }
        proof {
            lemma_set_ratio_shape(self.root, path@, ratio as int);
            assert(path@.skip(0) =~= path@);
        }
        let focused = self.focused;
        let root = self.take_root();
        let (root, found) = root.set_ratio_at(path, 0, ratio);
        self.install(root, focused);
        found
    }
}

impl Default for Workspace {
    fn default() -> (workspace: Self)
        ensures
            workspace.layout() == LayoutTree::Leaf(PaneId(1)),
            workspace.focus_id() == PaneId(1),
            workspace.next_pane_number() == 2,
    {
        Self::new()
    }
}

} // verus!
