//! The key-sequence trie: one root per mode, nodes held in an arena and
//! identified by index, each node mapping single chords to child nodes and
//! optionally carrying a bound action. A traversal pointer walks the trie one
//! event at a time; unmatched unmodified digits at the root accumulate into a
//! numeric repeat prefix.

use vstd::prelude::*;

use crate::action::Action;
use crate::keys::{plain_digit_of, KeyInput, Mode};

verus! {

/// One trie node: its outgoing edges (chord to child index) and the action
/// bound at it, if any. A node may hold an action and children at once.
pub struct KeyNode {
    pub children: Vec<(KeyInput, usize)>,
    pub action: Option<Action>,
}

/// The mathematical content of a node.
#[verifier::ext_equal]
pub struct KeyNodeModel {
    pub children: Seq<(KeyInput, usize)>,
    pub action: Option<Action>,
}

impl View for KeyNode {
    type V = KeyNodeModel;

    open spec fn view(&self) -> KeyNodeModel {
        KeyNodeModel { children: self.children@, action: self.action }
    }
}

/// The per-mode trie forest with its transient traversal state: the arena of
/// nodes (the first four are the mode roots), the traversal pointer, and the
/// pending numeric repeat prefix.
pub struct Keymap {
    pub nodes: Vec<KeyNode>,
    pub current: Option<usize>,
    pub numeric_prefix: Option<usize>,
}

/// The mathematical content of the trie forest and its traversal state.
#[verifier::ext_equal]
pub struct KeymapModel {
    pub nodes: Seq<KeyNodeModel>,
    pub current: Option<usize>,
    pub prefix: Option<usize>,
}

impl View for Keymap {
    type V = KeymapModel;

    open spec fn view(&self) -> KeymapModel {
        KeymapModel {
            nodes: self.nodes@.map_values(|n: KeyNode| n@),
            current: self.current,
            prefix: self.numeric_prefix,
        }
    }
}

/// The arena index of a mode's root node.
pub open spec fn root_index(mode: Mode) -> int {
    match mode {
        Mode::NORMAL => 0,
        Mode::COMMAND => 1,
        Mode::INSERT => 2,
        Mode::VISUAL => 3,
    }
}

/// The child reached from an edge list under a chord: the first edge carrying
/// that chord, if any.
pub open spec fn child_in(children: Seq<(KeyInput, usize)>, k: KeyInput) -> Option<usize>
    decreases children.len(),
{
    if children.len() == 0 {
        None
    } else if children[0].0 == k {
        Some(children[0].1)
    } else {
        child_in(children.drop_first(), k)
    }
}

/// The node reached from `n` by following the chord sequence `s`.
pub open spec fn node_at(nodes: Seq<KeyNodeModel>, n: int, s: Seq<KeyInput>) -> Option<int>
    decreases s.len(),
{
    if s.len() == 0 {
        Some(n)
    } else if 0 <= n < nodes.len() {
        match child_in(nodes[n].children, s[0]) {
            Some(c) => node_at(nodes, c as int, s.drop_first()),
            None => None,
        }
    } else {
        None
    }
}

/// The action at the end of the path `s` from node `n`, if the path exists
/// and an action is bound there.
pub open spec fn bound_at(nodes: Seq<KeyNodeModel>, n: int, s: Seq<KeyInput>) -> Option<Action> {
    match node_at(nodes, n, s) {
        Some(m) => if 0 <= m < nodes.len() {
            nodes[m].action
        } else {
            None
        },
        None => None,
    }
}

/// The action a mode binds to a chord sequence, if any.
pub open spec fn bound_action(nodes: Seq<KeyNodeModel>, mode: Mode, s: Seq<KeyInput>) -> Option<
    Action,
> {
    bound_at(nodes, root_index(mode), s)
}

/// Arena well-formedness: the four roots exist, every edge points at a
/// non-root node inside the arena, edges out of one node carry distinct
/// chords, and no two edges point at the same node, so the arena is a forest.
pub open spec fn nodes_wf(nodes: Seq<KeyNodeModel>) -> bool {
    &&& nodes.len() >= 4
    &&& forall|i: int, j: int|
        0 <= i < nodes.len() && 0 <= j < nodes[i].children.len() ==> 4 <= (
        #[trigger] nodes[i].children[j]).1 < nodes.len()
    &&& forall|i: int, j1: int, j2: int|
        0 <= i < nodes.len() && 0 <= j1 < nodes[i].children.len() && 0 <= j2
            < nodes[i].children.len() && j1 != j2 ==> (#[trigger] nodes[i].children[j1]).0 != (
        #[trigger] nodes[i].children[j2]).0
    &&& forall|i1: int, j1: int, i2: int, j2: int|
        0 <= i1 < nodes.len() && 0 <= j1 < nodes[i1].children.len() && 0 <= i2 < nodes.len() && 0
            <= j2 < nodes[i2].children.len() && (#[trigger] nodes[i1].children[j1]).1 == (
        #[trigger] nodes[i2].children[j2]).1 ==> i1 == i2 && j1 == j2
}

impl KeymapModel {
    /// A well-formed trie state: a well-formed arena and a traversal pointer
    /// that, when set, points inside it.
    pub open spec fn wf(self) -> bool {
        &&& nodes_wf(self.nodes)
        &&& match self.current {
            Some(c) => (c as int) < self.nodes.len(),
            None => true,
        }
    }
}

/// The numeric prefix after one more digit: decimal accumulation, saturating
/// at the machine limit.
pub open spec fn prefix_accum(prefix: Option<usize>, d: usize) -> usize {
    let base = match prefix {
        Some(p) => p as int,
        None => 0,
    };
    if base * 10 + d > usize::MAX {
        usize::MAX as int as usize
    } else {
        (base * 10 + d) as usize
    }
}

/// What one traversal step does: follow an edge from the pointer (or the
/// mode's root) and report `None`, or, at the root, consume an unmodified
/// digit into the repeat prefix, or hand the event back as unresolved with
/// the pending state untouched.
pub open spec fn traverse_step(km: KeymapModel, mode: Mode, ev: KeyInput) -> (KeymapModel, Option<
    KeyInput,
>) {
    let start = match km.current {
        Some(c) => c as int,
        None => root_index(mode),
    };
    match child_in(km.nodes[start].children, ev) {
        Some(c) => (KeymapModel { current: Some(c), ..km }, None),
        None => {
            if km.current is None && plain_digit_of(ev) is Some {
                (
                    KeymapModel {
                        prefix: Some(prefix_accum(km.prefix, plain_digit_of(ev).unwrap())),
                        ..km
                    },
                    None,
                )
            } else {
                (km, Some(ev))
            }
        },
    }
}

/// The action the pointer rests on, if any.
pub open spec fn pointed_action(km: KeymapModel) -> Option<Action> {
    match km.current {
        Some(c) => km.nodes[c as int].action,
        None => None,
    }
}

/// Whether the pointer rests on a leaf: a node with no children. An unset
/// pointer is not a leaf.
pub open spec fn pointer_is_leaf(km: KeymapModel) -> bool {
    match km.current {
        Some(c) => km.nodes[c as int].children.len() == 0,
        None => false,
    }
}

impl KeyNode {
    /// An empty node: no edges, no action.
    pub fn new() -> (r: KeyNode)
        ensures
            r@.children.len() == 0,
            r@.action is None,
    {
        KeyNode { children: Vec::new(), action: None }
    }

    /// Whether this node has no children, so its sequence cannot extend.
    pub fn is_leaf(&self) -> (r: bool)
        ensures
            r == (self@.children.len() == 0),
    {
        self.children.len() == 0
    }
}

/// Finds the child reached under a chord, pinned to `child_in`.
fn find_child(children: &Vec<(KeyInput, usize)>, k: KeyInput) -> (r: Option<usize>)
    ensures
        r == child_in(children@, k),
{
    let mut i: usize = 0;
    proof {
        assert(children@.skip(0) =~= children@);
    }
    while i < children.len()
        invariant
            i <= children@.len(),
            child_in(children@, k) == child_in(children@.skip(i as int), k),
        decreases children@.len() - i,
    {
        let entry = children[i];
        proof {
            assert(children@.skip(i as int)[0] == children@[i as int]);
            assert(children@.skip(i as int).drop_first() =~= children@.skip(i as int + 1));
        }
        if entry.0 == k {
            return Some(entry.1);
        }
        i += 1;
    }
    proof {
        assert(children@.skip(children@.len() as int).len() == 0);
    }
    None
}

/// The arena index of a mode's root, pinned to `root_index`.
fn root_of(mode: &Mode) -> (r: usize)
    ensures
        r as int == root_index(*mode),
        r < 4,
{
    match mode {
        Mode::NORMAL => 0,
        Mode::COMMAND => 1,
        Mode::INSERT => 2,
        Mode::VISUAL => 3,
    }
}

/// Decimal accumulation of one more digit onto the repeat prefix, saturating,
/// pinned to `prefix_accum`.
fn accum_digit(prefix: Option<usize>, d: usize) -> (r: usize)
    ensures
        r == prefix_accum(prefix, d),
{
    let base: usize = match prefix {
        Some(p) => p,
        None => 0,
    };
    match base.checked_mul(10) {
        Some(v) => v.saturating_add(d),
        None => usize::MAX,
    }
}

impl Keymap {
    /// An empty keymap: the four mode roots and nothing bound.
    pub fn new() -> (r: Keymap)
        ensures
            r@.wf(),
            r@.current is None,
            r@.prefix is None,
            r@.nodes.len() == 4,
            forall|m: Mode, s: Seq<KeyInput>| #[trigger] bound_action(r@.nodes, m, s) is None,
            forall|m: Mode, s: Seq<KeyInput>|
                (#[trigger] node_at(r@.nodes, root_index(m), s)) is Some <==> s.len() == 0,
    {
        let mut nodes: Vec<KeyNode> = Vec::new();
        nodes.push(KeyNode::new());
        nodes.push(KeyNode::new());
        nodes.push(KeyNode::new());
        nodes.push(KeyNode::new());
        let r = Keymap { nodes, current: None, numeric_prefix: None };
        proof {
            assert forall|m: Mode, s: Seq<KeyInput>| #[trigger] bound_action(r@.nodes, m, s)
                is None by {
                assert(0 <= root_index(m) < 4);
                if s.len() == 0 {
                    assert(node_at(r@.nodes, root_index(m), s) == Some(root_index(m)));
                    assert(r@.nodes[root_index(m)].action is None);
                } else {
                    assert(r@.nodes[root_index(m)].children.len() == 0);
                    assert(child_in(r@.nodes[root_index(m)].children, s[0]) is None);
                }
            }
            assert forall|m: Mode, s: Seq<KeyInput>|
                (#[trigger] node_at(r@.nodes, root_index(m), s)) is Some <==> s.len() == 0 by {
                assert(0 <= root_index(m) < 4);
                if s.len() == 0 {
                    assert(node_at(r@.nodes, root_index(m), s) == Some(root_index(m)));
                } else {
                    assert(r@.nodes[root_index(m)].children.len() == 0);
                    assert(child_in(r@.nodes[root_index(m)].children, s[0]) is None);
                }
            }
        }
        r
    }

    /// Whether the traversal pointer rests on a leaf node.
    pub fn is_leaf(&self) -> (r: bool)
        requires
            self@.wf(),
        ensures
            r == pointer_is_leaf(self@),
    {
        match self.current {
            Some(c) => self.nodes[c].children.len() == 0,
            None => false,
        }
    }

    /// The action bound at the traversal pointer, if any.
    pub fn get_action(&self) -> (r: Option<Action>)
        requires
            self@.wf(),
        ensures
            r == pointed_action(self@),
    {
        match self.current {
            Some(c) => self.nodes[c].action,
            None => None,
        }
    }

    /// Resets the traversal pointer to the root; the repeat prefix survives.
    pub fn clear(&mut self)
        ensures
            final(self)@ == (KeymapModel { current: None, ..old(self)@ }),
    {
        self.current = None;
    }

    /// Whether no traversal is in progress.
    pub fn is_empty(&self) -> (r: bool)
        ensures
            r == (self@.current is None),
    {
        self.current.is_none()
    }

    /// Takes the accumulated repeat prefix, defaulting to one; it is consumed
    /// exactly once per firing action.
    pub fn repeats(&mut self) -> (r: usize)
        ensures
            r == (match old(self)@.prefix {
                Some(p) => p,
                None => 1usize,
            }),
            final(self)@ == (KeymapModel { prefix: None, ..old(self)@ }),
    {
        let r = match self.numeric_prefix {
            Some(p) => p,
            None => 1,
        };
        self.numeric_prefix = None;
        r
    }

    /// Inserts a sequence under one mode root and binds the action at its
    /// end, overwriting any action already bound there; every other binding
    /// of every mode is untouched.
    fn insert_seq(&mut self, root: usize, sequence: &Vec<KeyInput>, action: Action)
        requires
            old(self)@.wf(),
            root < 4,
        ensures
            final(self)@.wf(),
            final(self)@.current == old(self)@.current,
            final(self)@.prefix == old(self)@.prefix,
            final(self)@.nodes.len() >= old(self)@.nodes.len(),
            forall|m: Mode, s: Seq<KeyInput>| #[trigger]
                bound_action(final(self)@.nodes, m, s) == (if root_index(m) == root && s
                    == sequence@ {
                    Some(action)
                } else {
                    bound_action(old(self)@.nodes, m, s)
                }),
            forall|m: Mode, s: Seq<KeyInput>|
                (#[trigger] node_at(final(self)@.nodes, root_index(m), s)) is Some <==> (node_at(
                    old(self)@.nodes,
                    root_index(m),
                    s,
                ) is Some || (root_index(m) == root && s.is_prefix_of(sequence@))),
    {
        let mut cur: usize = root;
        let mut i: usize = 0;
        proof {
            assert(sequence@.take(0) =~= Seq::<KeyInput>::empty());
            assert forall|m: Mode, s: Seq<KeyInput>|
                (#[trigger] node_at(self@.nodes, root_index(m), s)) is Some <==> (node_at(
                    old(self)@.nodes,
                    root_index(m),
                    s,
                ) is Some || (root_index(m) == root as int && s.is_prefix_of(
                    sequence@.take(0),
                ))) by {
                if s.is_prefix_of(sequence@.take(0)) {
                    assert(s.len() == 0);
                    assert(node_at(old(self)@.nodes, root_index(m), s) is Some);
                }
            }
        }
        while i < sequence.len()
            invariant
                old(self)@.wf(),
                nodes_wf(self@.nodes),
                self@.current == old(self)@.current,
                self@.prefix == old(self)@.prefix,
                self@.nodes.len() >= old(self)@.nodes.len(),
                root < 4,
                i <= sequence@.len(),
                cur < self@.nodes.len(),
                node_at(self@.nodes, root as int, sequence@.take(i as int)) == Some(cur as int),
                forall|m: Mode, s: Seq<KeyInput>| #[trigger]
                    bound_action(self@.nodes, m, s) == bound_action(old(self)@.nodes, m, s),
                forall|m: Mode, s: Seq<KeyInput>|
                    (#[trigger] node_at(self@.nodes, root_index(m), s)) is Some <==> (node_at(
                        old(self)@.nodes,
                        root_index(m),
                        s,
                    ) is Some || (root_index(m) == root as int && s.is_prefix_of(
                        sequence@.take(i as int),
                    ))),
            decreases sequence@.len() - i,
        {
            let k = sequence[i];
            let found = find_child(&self.nodes[cur].children, k);
            proof {
                assert(self@.nodes[cur as int].children == self.nodes@[cur as int].children@);
            }
            match found {
                Some(c) => {
                    proof {
                        lemma_child_in_position(self@.nodes[cur as int].children, k);
                        lemma_node_at_snoc(self@.nodes, root as int, sequence@.take(i as int), k);
                        assert(sequence@.take(i as int) + seq![k] =~= sequence@.take(i as int + 1));
                        assert(node_at(self@.nodes, root as int, sequence@.take(i as int + 1))
                            == Some(c as int));
                        // The one new prefix of the longer take already exists.
                        assert forall|mm: Mode, ss: Seq<KeyInput>|
                            (#[trigger] node_at(self@.nodes, root_index(mm), ss)) is Some <==> (
                        node_at(old(self)@.nodes, root_index(mm), ss) is Some || (root_index(mm)
                            == root as int && ss.is_prefix_of(
                            sequence@.take(i as int + 1),
                        ))) by {
                            lemma_prefix_take_succ(ss, sequence@, i as int);
                            if root_index(mm) == root as int && ss == sequence@.take(
                                i as int + 1,
                            ) {
                                assert(node_at(self@.nodes, root_index(mm), ss) is Some);
                            }
                        }
                    }
                    cur = c;
                },
                None => {
    let ghost a = self@.nodes;
                    let fresh = self.nodes.len();
                    self.nodes.push(KeyNode { children: Vec::new(), action: None });
                    let grown = self.nodes.len();
                    let node_ref = &mut self.nodes[cur];
                    node_ref.children.push((k, fresh));
                    proof {
                        let b = self@.nodes;
                        assert(grown == a.len() + 1);
                        assert(a.len() < usize::MAX);
                        assert(b.len() == a.len() + 1);
                        assert(b[cur as int].children =~= a[cur as int].children + seq![
                            (k, fresh),
                        ]);
                        assert(b[cur as int].action == a[cur as int].action);
                        assert forall|j: int| 0 <= j < a.len() && j != cur as int implies b[j] =~= a[j] by {}
                        assert(b[a.len() as int].children.len() == 0);
                        assert(b[a.len() as int].action is None);
                        // The extended arena is still a well-formed forest.
                        assert forall|ii: int, j: int|
                            0 <= ii < b.len() && 0 <= j < b[ii].children.len() implies 4 <= (
                        #[trigger] b[ii].children[j]).1 < b.len() by {
                            if ii < a.len() {
                                if ii == cur as int && j == a[ii].children.len() {
                                    assert(b[ii].children[j] == (k, fresh));
                                } else {
                                    assert(b[ii].children[j] == a[ii].children[j]);
                                }
                            }
                        }
                        assert forall|ii: int, j1: int, j2: int|
                            0 <= ii < b.len() && 0 <= j1 < b[ii].children.len() && 0 <= j2 < b[ii].children.len() && j1 != j2 implies (#[trigger] b[ii].children[j1]).0
                            != (#[trigger] b[ii].children[j2]).0 by {
                            if ii < a.len() {
                                lemma_child_in_none(a[cur as int].children, k);
                                if ii == cur as int {
                                    if j1 < a[ii].children.len() && j2 < a[ii].children.len() {
                                        assert(b[ii].children[j1] == a[ii].children[j1]);
                                        assert(b[ii].children[j2] == a[ii].children[j2]);
                                    } else if j1 < a[ii].children.len() {
                                        assert(b[ii].children[j2] == (k, fresh));
                                        assert(a[ii].children[j1].0 != k);
                                    } else if j2 < a[ii].children.len() {
                                        assert(b[ii].children[j1] == (k, fresh));
                                        assert(a[ii].children[j2].0 != k);
                                    }
                                } else {
                                    assert(b[ii] == a[ii]);
                                }
                            }
                        }
                        assert forall|i1: int, j1: int, i2: int, j2: int|
                            0 <= i1 < b.len() && 0 <= j1 < b[i1].children.len() && 0 <= i2
                                < b.len() && 0 <= j2 < b[i2].children.len() && (
                            #[trigger] b[i1].children[j1]).1 == (#[trigger] b[i2].children[j2]).1
                            implies i1 == i2 && j1 == j2 by {
                            let new1 = i1 == cur as int && j1 == a[cur as int].children.len();
                            let new2 = i2 == cur as int && j2 == a[cur as int].children.len();
                            if new1 && new2 {
                            } else if new1 {
                                assert(b[i1].children[j1] == (k, fresh));
                                assert(i2 < a.len());
                                assert(b[i2].children[j2] == a[i2].children[j2]);
                                assert((a[i2].children[j2]).1 < a.len());
                                assert(false);
                            } else if new2 {
                                assert(b[i2].children[j2] == (k, fresh));
                                assert(i1 < a.len());
                                assert(b[i1].children[j1] == a[i1].children[j1]);
                                assert((a[i1].children[j1]).1 < a.len());
                                assert(false);
                            } else {
                                assert(i1 < a.len() && i2 < a.len());
                                assert(b[i1].children[j1] == a[i1].children[j1]);
                                assert(b[i2].children[j2] == a[i2].children[j2]);
                            }
                        }
                        assert(nodes_wf(b));
                        // Nothing already bound has moved.
                        assert forall|m: Mode, s: Seq<KeyInput>| #[trigger]
                            bound_action(b, m, s) == bound_action(a, m, s) by {
                            lemma_link_frame(a, b, cur as int, k, root_index(m), s);
                        }
                        // The pointer of the walked prefix now extends to the
                        // fresh node.
                        lemma_link_frame(a, b, cur as int, k, root as int, sequence@.take(i as int));
                        assert(node_at(b, root as int, sequence@.take(i as int)) == Some(
                            cur as int,
                        ));
                        lemma_node_at_snoc(b, root as int, sequence@.take(i as int), k);
                        lemma_child_in_append(a[cur as int].children, seq![(k, fresh)], k);
                        assert(seq![(k, fresh)][0] == (k, fresh));
                        assert(child_in(seq![(k, fresh)], k) == Some(fresh));
                        assert(child_in(b[cur as int].children, k) == Some(fresh));
                        assert(sequence@.take(i as int) + seq![k] =~= sequence@.take(i as int + 1));
                        assert(node_at(b, root as int, sequence@.take(i as int + 1)) == Some(
                            fresh as int,
                        ));
                        // The fresh link adds exactly the longer take as a path.
                        assert forall|mm: Mode, ss: Seq<KeyInput>|
                            (#[trigger] node_at(b, root_index(mm), ss)) is Some <==> (node_at(
                            old(self)@.nodes,
                            root_index(mm),
                            ss,
                        ) is Some || (root_index(mm) == root as int && ss.is_prefix_of(
                            sequence@.take(i as int + 1),
                        ))) by {
                            lemma_link_frame(a, b, cur as int, k, root_index(mm), ss);
                            lemma_prefix_take_succ(ss, sequence@, i as int);
                            if node_at(b, root_index(mm), ss) is Some && !(node_at(
                                a,
                                root_index(mm),
                                ss,
                            ) is Some) {
                                // A genuinely new path ends at the fresh node,
                                // and the forest admits only one way there.
                                lemma_path_unique(
                                    a,
                                    root_index(mm),
                                    ss.drop_last(),
                                    root as int,
                                    sequence@.take(i as int),
                                    cur as int,
                                );
                                assert(ss =~= ss.drop_last() + seq![ss.last()]);
                                assert(ss =~= sequence@.take(i as int + 1));
                            }
                            if node_at(old(self)@.nodes, root_index(mm), ss) is Some || (
                            root_index(mm) == root as int && ss.is_prefix_of(
                                sequence@.take(i as int),
                            )) {
                                assert(node_at(a, root_index(mm), ss) is Some);
                                assert(node_at(b, root_index(mm), ss) is Some);
                            }
                            if root_index(mm) == root as int && ss == sequence@.take(
                                i as int + 1,
                            ) {
                                assert(node_at(b, root_index(mm), ss) is Some);
                            }
                        }
                    }
                    cur = fresh;
                },
            }
            i += 1;
        }
        proof {
            assert(sequence@.take(sequence@.len() as int) =~= sequence@);
        }
        let ghost a2 = self@.nodes;
        let node_ref = &mut self.nodes[cur];
        node_ref.action = Some(action);
        proof {
            let b2 = self@.nodes;
            assert(b2.len() == a2.len());
            assert forall|j: int| 0 <= j < a2.len() implies b2[j].children == a2[j].children by {}
            assert forall|j: int| 0 <= j < a2.len() && j != cur as int implies b2[j] == a2[j] by {}
            assert(b2[cur as int].action == Some(action));
            assert(nodes_wf(b2)) by {
                assert forall|ii: int, j: int|
                    0 <= ii < b2.len() && 0 <= j < b2[ii].children.len() implies 4 <= (
                #[trigger] b2[ii].children[j]).1 < b2.len() by {
                    assert(b2[ii].children == a2[ii].children);
                }
                assert forall|ii: int, j1: int, j2: int|
                    0 <= ii < b2.len() && 0 <= j1 < b2[ii].children.len() && 0 <= j2 < b2[ii].children.len() && j1 != j2 implies (#[trigger] b2[ii].children[j1]).0 != (
                #[trigger] b2[ii].children[j2]).0 by {
                    assert(b2[ii].children == a2[ii].children);
                }
                assert forall|i1: int, j1: int, i2: int, j2: int|
                    0 <= i1 < b2.len() && 0 <= j1 < b2[i1].children.len() && 0 <= i2 < b2.len() && 0
                        <= j2 < b2[i2].children.len() && (#[trigger] b2[i1].children[j1]).1 == (
                #[trigger] b2[i2].children[j2]).1 implies i1 == i2 && j1 == j2 by {
                    assert(b2[i1].children == a2[i1].children);
                    assert(b2[i2].children == a2[i2].children);
                }
            }
            assert forall|m: Mode, s: Seq<KeyInput>|
                (#[trigger] node_at(b2, root_index(m), s)) is Some <==> (node_at(
                    old(self)@.nodes,
                    root_index(m),
                    s,
                ) is Some || (root_index(m) == root && s.is_prefix_of(sequence@))) by {
                lemma_node_at_same_children(a2, b2, root_index(m), s);
            }
            assert forall|m: Mode, s: Seq<KeyInput>| #[trigger]
                bound_action(b2, m, s) == (if root_index(m) == root && s == sequence@ {
                    Some(action)
                } else {
                    bound_action(old(self)@.nodes, m, s)
                }) by {
                lemma_node_at_same_children(a2, b2, root_index(m), s);
                match node_at(a2, root_index(m), s) {
                    Some(mm) => {
                        lemma_node_at_in_range(a2, root_index(m), s);
                        if mm == cur as int {
                            lemma_path_unique(
                                a2,
                                root_index(m),
                                s,
                                root as int,
                                sequence@,
                                cur as int,
                            );
                            assert(root_index(m) == root && s == sequence@);
                            assert(bound_action(b2, m, s) == Some(action));
                        } else {
                            assert(b2[mm].action == a2[mm].action);
                            assert(!(root_index(m) == root && s == sequence@));
                            assert(bound_action(b2, m, s) == bound_action(a2, m, s));
                        }
                    },
                    None => {
                        assert(!(root_index(m) == root && s == sequence@));
                    },
                }
            }
        }
    }

    /// Registers a binding: inserts the chord sequence into each listed
    /// mode's trie, the last registration for an identical pair silently
    /// overwriting the earlier action. No other binding changes, and the
    /// paths that exist afterwards are exactly those that existed before
    /// plus the prefixes of the registered sequence under the listed modes.
    pub fn add_keybind(&mut self, modes: &Vec<Mode>, sequence: &Vec<KeyInput>, action: Action)
        requires
            old(self)@.wf(),
        ensures
            final(self)@.wf(),
            final(self)@.current == old(self)@.current,
            final(self)@.prefix == old(self)@.prefix,
            forall|m: Mode, s: Seq<KeyInput>| #[trigger]
                bound_action(final(self)@.nodes, m, s) == (if modes@.contains(m) && s
                    == sequence@ {
                    Some(action)
                } else {
                    bound_action(old(self)@.nodes, m, s)
                }),
            forall|m: Mode, s: Seq<KeyInput>|
                (#[trigger] node_at(final(self)@.nodes, root_index(m), s)) is Some <==> (node_at(
                    old(self)@.nodes,
                    root_index(m),
                    s,
                ) is Some || (modes@.contains(m) && s.is_prefix_of(sequence@))),
    {
        let mut mi: usize = 0;
        while mi < modes.len()
            invariant
                self@.wf(),
                self@.current == old(self)@.current,
                self@.prefix == old(self)@.prefix,
                mi <= modes@.len(),
                forall|m: Mode, s: Seq<KeyInput>| #[trigger]
                    bound_action(self@.nodes, m, s) == (if (exists|t: int|
                        0 <= t < mi && modes@[t] == m) && s == sequence@ {
                        Some(action)
                    } else {
                        bound_action(old(self)@.nodes, m, s)
                    }),
                forall|m: Mode, s: Seq<KeyInput>|
                    (#[trigger] node_at(self@.nodes, root_index(m), s)) is Some <==> (node_at(
                        old(self)@.nodes,
                        root_index(m),
                        s,
                    ) is Some || ((exists|t: int| 0 <= t < mi && modes@[t] == m)
                        && s.is_prefix_of(sequence@))),
            decreases modes@.len() - mi,
        {
            let ghost mid = self@.nodes;
            let mode = modes[mi];
            let root = root_of(&mode);
            self.insert_seq(root, sequence, action);
            proof {
                assert forall|m: Mode, s: Seq<KeyInput>| #[trigger]
                    bound_action(self@.nodes, m, s) == (if (exists|t: int|
                        0 <= t < mi + 1 && modes@[t] == m) && s == sequence@ {
                        Some(action)
                    } else {
                        bound_action(old(self)@.nodes, m, s)
                    }) by {
                    lemma_root_index_injective(m, mode);
                    if root_index(m) == root as int && s == sequence@ {
                        assert(m == modes@[mi as int]);
                        assert(exists|t: int| 0 <= t < mi + 1 && modes@[t] == m);
                    } else if (exists|t: int| 0 <= t < mi + 1 && modes@[t] == m) && s
                        == sequence@ {
                        let t = choose|t: int| 0 <= t < mi + 1 && modes@[t] == m;
                        assert(t < mi);
                        assert(bound_action(mid, m, s) == Some(action));
                    }
                }
                assert forall|m: Mode, s: Seq<KeyInput>|
                    (#[trigger] node_at(self@.nodes, root_index(m), s)) is Some <==> (node_at(
                        old(self)@.nodes,
                        root_index(m),
                        s,
                    ) is Some || ((exists|t: int| 0 <= t < mi + 1 && modes@[t] == m)
                        && s.is_prefix_of(sequence@))) by {
                    lemma_root_index_injective(m, mode);
                    if root_index(m) == root as int && s.is_prefix_of(sequence@) {
                        assert(m == modes@[mi as int]);
                        assert(exists|t: int| 0 <= t < mi + 1 && modes@[t] == m);
                    }
                    if (exists|t: int| 0 <= t < mi + 1 && modes@[t] == m) && s.is_prefix_of(
                        sequence@,
                    ) && !(node_at(self@.nodes, root_index(m), s) is Some) {
                        let t = choose|t: int| 0 <= t < mi + 1 && modes@[t] == m;
                        if t < mi {
                            assert(exists|t2: int| 0 <= t2 < mi && modes@[t2] == m);
                            assert(node_at(mid, root_index(m), s) is Some);
                            assert(false);
                        } else {
                            assert(m == modes@[mi as int]);
                            assert(root_index(m) == root as int);
                            assert(false);
                        }
                    }
                }
            }
            mi += 1;
        }
        proof {
            assert forall|m: Mode, s: Seq<KeyInput>| #[trigger]
                bound_action(self@.nodes, m, s) == (if modes@.contains(m) && s == sequence@ {
                    Some(action)
                } else {
                    bound_action(old(self)@.nodes, m, s)
                }) by {
                if modes@.contains(m) {
                    let t = choose|t: int| 0 <= t < modes@.len() && modes@[t] == m;
                    assert(exists|t2: int| 0 <= t2 < modes@.len() && modes@[t2] == m);
                }
            }
            assert forall|m: Mode, s: Seq<KeyInput>|
                (#[trigger] node_at(self@.nodes, root_index(m), s)) is Some <==> (node_at(
                    old(self)@.nodes,
                    root_index(m),
                    s,
                ) is Some || (modes@.contains(m) && s.is_prefix_of(sequence@))) by {
                if modes@.contains(m) {
                    let t = choose|t: int| 0 <= t < modes@.len() && modes@[t] == m;
                    assert(exists|t2: int| 0 <= t2 < modes@.len() && modes@[t2] == m);
                }
                if exists|t: int| 0 <= t < modes@.len() && modes@[t] == m {
                    let t = choose|t: int| 0 <= t < modes@.len() && modes@[t] == m;
                    assert(modes@.contains(m));
                }
            }
        }
    }

    /// One resolution step for an incoming event, exactly `traverse_step`:
    /// advance the pointer along a matching edge, or consume a root-level
    /// unmodified digit into the repeat prefix, or hand the event back as
    /// unresolved without resetting the pending state.
    pub fn traverse(&mut self, mode: &Mode, event: KeyInput) -> (unresolved: Option<KeyInput>)
        requires
            old(self)@.wf(),
        ensures
            final(self)@ == traverse_step(old(self)@, *mode, event).0,
            unresolved == traverse_step(old(self)@, *mode, event).1,
            final(self)@.wf(),
            final(self)@.nodes == old(self)@.nodes,
    {
        let start: usize = match self.current {
            Some(c) => c,
            None => root_of(mode),
        };
        let found = find_child(&self.nodes[start].children, event);
        proof {
            assert(self@.nodes[start as int].children == self.nodes@[start as int].children@);
        }
        match found {
            Some(c) => {
                proof {
                    lemma_child_in_position(self@.nodes[start as int].children, event);
                }
                self.current = Some(c);
                proof {
                    assert(final(self)@ =~= traverse_step(old(self)@, *mode, event).0);
                }
                None
            },
            None => {
                if self.current.is_none() {
                    if let Some(d) = crate::keys::event_to_digit(&event) {
                        let v = accum_digit(self.numeric_prefix, d);
                        self.numeric_prefix = Some(v);
                        proof {
                            assert(final(self)@ =~= traverse_step(old(self)@, *mode, event).0);
                        }
                        return None;
                    }
                }
                proof {
                    assert(final(self)@ =~= traverse_step(old(self)@, *mode, event).0);
                }
                Some(event)
            },
        }
    }
}

/// An edge found under a chord really stands somewhere in the edge list.
proof fn lemma_child_in_position(children: Seq<(KeyInput, usize)>, k: KeyInput)
    requires
        child_in(children, k) is Some,
    ensures
        exists|j: int|
            0 <= j < children.len() && #[trigger] children[j] == (
            k,
            child_in(children, k).unwrap(),
            ),
    decreases children.len(),
{
    if children.len() > 0 {
        if children[0].0 == k {
            assert(children[0] == (k, child_in(children, k).unwrap()));
        } else {
            lemma_child_in_position(children.drop_first(), k);
            let j = choose|j: int|
                0 <= j < children.drop_first().len() && #[trigger] children.drop_first()[j] == (
                k,
                child_in(children, k).unwrap(),
                );
            assert(children[j + 1] == (k, child_in(children, k).unwrap()));
        }
    }
}

/// If no edge carries a chord, no position in the edge list does.
proof fn lemma_child_in_none(children: Seq<(KeyInput, usize)>, k: KeyInput)
    requires
        child_in(children, k) is None,
    ensures
        forall|j: int| 0 <= j < children.len() ==> (#[trigger] children[j]).0 != k,
    decreases children.len(),
{
    if children.len() > 0 {
        lemma_child_in_none(children.drop_first(), k);
        assert forall|j: int| 0 <= j < children.len() implies (#[trigger] children[j]).0 != k by {
            if j > 0 {
                assert(children.drop_first()[j - 1] == children[j]);
            }
        }
    }
}

/// A path that exists lands inside the arena; a non-empty one lands off the
/// roots.
proof fn lemma_node_at_in_range(nodes: Seq<KeyNodeModel>, n: int, s: Seq<KeyInput>)
    requires
        nodes_wf(nodes),
        0 <= n < nodes.len(),
        node_at(nodes, n, s) is Some,
    ensures
        0 <= node_at(nodes, n, s).unwrap() < nodes.len(),
        s.len() > 0 ==> 4 <= node_at(nodes, n, s).unwrap(),
    decreases s.len(),
{
    if s.len() > 0 {
        let c = child_in(nodes[n].children, s[0]).unwrap();
        lemma_child_in_position(nodes[n].children, s[0]);
        if s.len() == 1 {
            assert(s.drop_first().len() == 0);
        } else {
            lemma_node_at_in_range(nodes, c as int, s.drop_first());
        }
    }
}

/// Extending a path by one chord steps once more from the path's landing
/// node: how callers relate path existence to a node's outgoing edges.
pub proof fn lemma_node_at_snoc(nodes: Seq<KeyNodeModel>, n: int, s: Seq<KeyInput>, k: KeyInput)
    requires
        nodes_wf(nodes),
        0 <= n < nodes.len(),
    ensures
        node_at(nodes, n, s + seq![k]) == (match node_at(nodes, n, s) {
            Some(m) => (match child_in(nodes[m].children, k) {
                Some(c) => Some(c as int),
                None => None::<int>,
            }),
            None => None::<int>,
        }),
    decreases s.len(),
{
    if s.len() == 0 {
        assert((s + seq![k])[0] == k);
        assert((s + seq![k]).drop_first() =~= Seq::<KeyInput>::empty());
        match child_in(nodes[n].children, k) {
            Some(c) => {
                assert(node_at(nodes, c as int, (s + seq![k]).drop_first()) == Some(c as int));
            },
            None => {},
        }
    } else {
        assert((s + seq![k])[0] == s[0]);
        assert((s + seq![k]).drop_first() =~= s.drop_first() + seq![k]);
        match child_in(nodes[n].children, s[0]) {
            Some(c) => {
                lemma_child_in_position(nodes[n].children, s[0]);
                lemma_node_at_snoc(nodes, c as int, s.drop_first(), k);
            },
            None => {},
        }
    }
}

/// Two arenas of the same length with the same edges resolve every path
/// alike.
proof fn lemma_node_at_same_children(
    a: Seq<KeyNodeModel>,
    b: Seq<KeyNodeModel>,
    n: int,
    s: Seq<KeyInput>,
)
    requires
        a.len() == b.len(),
        forall|j: int| 0 <= j < a.len() ==> a[j].children == b[j].children,
    ensures
        node_at(a, n, s) == node_at(b, n, s),
    decreases s.len(),
{
    if s.len() > 0 && 0 <= n < a.len() {
        match child_in(a[n].children, s[0]) {
            Some(c) => {
                lemma_node_at_same_children(a, b, c as int, s.drop_first());
            },
            None => {},
        }
    }
}

/// In a well-formed forest every node is reached from the roots by at most
/// one path: same landing node means same root and same chord sequence.
proof fn lemma_path_unique(
    nodes: Seq<KeyNodeModel>,
    r1: int,
    s1: Seq<KeyInput>,
    r2: int,
    s2: Seq<KeyInput>,
    m: int,
)
    requires
        nodes_wf(nodes),
        0 <= r1 < 4,
        0 <= r2 < 4,
        node_at(nodes, r1, s1) == Some(m),
        node_at(nodes, r2, s2) == Some(m),
    ensures
        r1 == r2,
        s1 == s2,
    decreases s1.len(),
{
    if s1.len() == 0 {
        assert(m == r1);
        if s2.len() > 0 {
            lemma_node_at_in_range(nodes, r2, s2);
            assert(false);
        }
    } else {
        lemma_node_at_in_range(nodes, r1, s1);
        if s2.len() == 0 {
            assert(false);
        } else {
            let p1 = s1.drop_last();
            let k1 = s1.last();
            let p2 = s2.drop_last();
            let k2 = s2.last();
            assert(p1 + seq![k1] =~= s1);
            assert(p2 + seq![k2] =~= s2);
            lemma_node_at_snoc(nodes, r1, p1, k1);
            lemma_node_at_snoc(nodes, r2, p2, k2);
            let m1 = node_at(nodes, r1, p1).unwrap();
            let m2 = node_at(nodes, r2, p2).unwrap();
            lemma_node_at_in_range(nodes, r1, p1);
            lemma_node_at_in_range(nodes, r2, p2);
            let c1 = child_in(nodes[m1].children, k1).unwrap();
            let c2 = child_in(nodes[m2].children, k2).unwrap();
            lemma_child_in_position(nodes[m1].children, k1);
            lemma_child_in_position(nodes[m2].children, k2);
            let j1 = choose|j: int|
                0 <= j < nodes[m1].children.len() && #[trigger] nodes[m1].children[j] == (k1, c1);
            let j2 = choose|j: int|
                0 <= j < nodes[m2].children.len() && #[trigger] nodes[m2].children[j] == (k2, c2);
            assert(nodes[m1].children[j1].1 == nodes[m2].children[j2].1);
            assert(m1 == m2 && j1 == j2);
            assert(k1 == k2);
            lemma_path_unique(nodes, r1, p1, r2, p2, m1);
            assert(s1 =~= s2);
        }
    }
}

/// The prefixes of a one-chord-longer take: the prefixes of the shorter
/// take, plus the longer take itself.
proof fn lemma_prefix_take_succ(s: Seq<KeyInput>, t: Seq<KeyInput>, j: int)
    requires
        0 <= j < t.len(),
    ensures
        s.is_prefix_of(t.take(j + 1)) <==> (s.is_prefix_of(t.take(j)) || s == t.take(j + 1)),
{
    if s.is_prefix_of(t.take(j + 1)) {
        if s.len() <= j {
            assert(s =~= t.take(j + 1).subrange(0, s.len() as int));
            assert(t.take(j + 1).subrange(0, s.len() as int) =~= t.take(j).subrange(
                0,
                s.len() as int,
            ));
            assert(s.is_prefix_of(t.take(j)));
        } else {
            assert(s.len() == j + 1);
            assert(s =~= t.take(j + 1));
        }
    }
    if s.is_prefix_of(t.take(j)) {
        assert(s =~= t.take(j).subrange(0, s.len() as int));
        assert(t.take(j).subrange(0, s.len() as int) =~= t.take(j + 1).subrange(
            0,
            s.len() as int,
        ));
        assert(s.is_prefix_of(t.take(j + 1)));
    }
    if s == t.take(j + 1) {
        assert(t.take(j + 1).subrange(0, s.len() as int) =~= s);
        assert(s.is_prefix_of(t.take(j + 1)));
    }
}

/// Adding a fresh childless node and a single edge to it preserves every
/// existing path and changes no bound action: the fresh node carries none.
proof fn lemma_link_frame(
    a: Seq<KeyNodeModel>,
    b: Seq<KeyNodeModel>,
    p: int,
    k: KeyInput,
    n: int,
    s: Seq<KeyInput>,
)
    requires
        nodes_wf(a),
        a.len() < usize::MAX,
        0 <= p < a.len(),
        b.len() == a.len() + 1,
        child_in(a[p].children, k) is None,
        b[p].children == a[p].children + seq![(k, a.len() as usize)],
        b[p].action == a[p].action,
        forall|j: int| 0 <= j < a.len() && j != p ==> b[j] == a[j],
        b[a.len() as int].children.len() == 0,
        b[a.len() as int].action is None,
        0 <= n < a.len(),
    ensures
        node_at(a, n, s) is Some ==> node_at(b, n, s) == node_at(a, n, s),
        bound_at(b, n, s) == bound_at(a, n, s),
        node_at(b, n, s) is Some ==> node_at(a, n, s) is Some || (s.len() > 0 && node_at(
            a,
            n,
            s.drop_last(),
        ) == Some(p) && s.last() == k),
    decreases s.len(),
{
    let f = a.len() as int;
    if s.len() == 0 {
        assert(b[n].action == a[n].action);
    } else {
        let ca = child_in(a[n].children, s[0]);
        let single = seq![(k, a.len() as usize)];
        if n == p {
            lemma_child_in_append(a[p].children, single, s[0]);
            assert(single[0] == (k, a.len() as usize));
            assert(single.drop_first().len() == 0);
        } else {
            assert(b[n] == a[n]);
        }
        match ca {
            Some(c) => {
                assert(child_in(b[n].children, s[0]) == Some(c));
                lemma_child_in_position(a[n].children, s[0]);
                lemma_link_frame(a, b, p, k, c as int, s.drop_first());
                // The new-path direction lifts through the shared first edge.
                if node_at(b, n, s) is Some && !(node_at(a, n, s) is Some) {
                    let sd = s.drop_first();
                    assert(node_at(b, c as int, sd) is Some);
                    assert(!(node_at(a, c as int, sd) is Some));
                    assert(sd.len() > 0 && node_at(a, c as int, sd.drop_last()) == Some(p)
                        && sd.last() == k);
                    assert(s.drop_last()[0] == s[0]);
                    assert(s.drop_last().drop_first() =~= sd.drop_last());
                    assert(node_at(a, n, s.drop_last()) == node_at(a, c as int, sd.drop_last()));
                    assert(s.last() == sd.last());
                }
            },
            None => {
                if n == p && s[0] == k {
                    assert(child_in(b[n].children, s[0]) == Some(a.len() as usize));
                    if s.len() == 1 {
                        assert(s.drop_first().len() == 0);
                        assert(node_at(b, f, s.drop_first()) == Some(f));
                        assert(node_at(b, n, s) == Some(f));
                        assert(b[f].action is None);
                        assert(bound_at(b, n, s) is None);
                        assert(s.drop_last().len() == 0);
                        assert(node_at(a, n, s.drop_last()) == Some(p));
                        assert(s.last() == k);
                    } else {
                        assert(child_in(b[f].children, s.drop_first()[0]) is None);
                        assert(node_at(b, f, s.drop_first()) is None);
                        assert(node_at(b, n, s) is None);
                    }
                    assert(node_at(a, n, s) is None);
                } else {
                    if n == p {
                        assert(child_in(single.drop_first(), s[0]) is None);
                        assert(child_in(single, s[0]) is None);
                    }
                    assert(child_in(b[n].children, s[0]) is None);
                }
            },
        }
    }
}

/// Distinct modes root at distinct arena indices.
proof fn lemma_root_index_injective(m1: Mode, m2: Mode)
    ensures
        root_index(m1) == root_index(m2) ==> m1 == m2,
{
}

/// Looking a chord up in a concatenation of edge lists: the left list wins
/// when it carries the chord.
proof fn lemma_child_in_append(a: Seq<(KeyInput, usize)>, b: Seq<(KeyInput, usize)>, k: KeyInput)
    ensures
        child_in(a + b, k) == if child_in(a, k) is Some {
            child_in(a, k)
        } else {
            child_in(b, k)
        },
    decreases a.len(),
{
    if a.len() == 0 {
        assert(a + b =~= b);
    } else {
        assert((a + b)[0] == a[0]);
        assert((a + b).drop_first() =~= a.drop_first() + b);
        lemma_child_in_append(a.drop_first(), b, k);
    }
}

} // verus!
