//! A rope: balanced-by-construction text storage as a binary tree whose
//! leaves hold character runs and whose internal nodes cache the length of
//! their left subtree. An alternative backing store candidate, kept apart
//! from the editor's line buffer.

use vstd::prelude::*;

verus! {

/// A rope node: a leaf run of characters, or an internal node whose weight
/// caches the length of the text under its left child.
pub enum Node {
    Leaf(Vec<char>),
    Internal { left: Box<Node>, right: Box<Node>, weight: usize },
}

impl Node {
    /// The text under this node, in order.
    pub open spec fn text(self) -> Seq<char>
        decreases self,
    {
        match self {
            Node::Leaf(s) => s@,
            Node::Internal { left, right, .. } => (*left).text() + (*right).text(),
        }
    }

    /// Every internal weight caches its left subtree's text length.
    pub open spec fn wf(self) -> bool
        decreases self,
    {
        match self {
            Node::Leaf(_) => true,
            Node::Internal { left, right, weight } => (*left).wf() && (*right).wf() && weight
                == (*left).text().len(),
        }
    }

    /// A leaf holding the given run of characters.
    pub fn new_leaf(text: Vec<char>) -> (r: Box<Node>)
        ensures
            (*r).text() == text@,
            (*r).wf(),
    {
        Box::new(Node::Leaf(text))
    }

    /// An internal node over two subtrees, caching the left text length.
    pub fn new_internal(left: Box<Node>, right: Box<Node>) -> (r: Box<Node>)
        requires
            (*left).wf(),
            (*right).wf(),
            (*left).text().len() <= usize::MAX,
        ensures
            (*r).text() == (*left).text() + (*right).text(),
            (*r).wf(),
    {
        let weight = (*left).len();
        Box::new(Node::Internal { left, right, weight })
    }

    /// The length of the text under this node.
    pub fn len(&self) -> (r: usize)
        requires
            self.wf(),
            self.text().len() <= usize::MAX,
        ensures
            r == self.text().len(),
        decreases *self,
    {
        match self {
            Node::Leaf(s) => s.len(),
            Node::Internal { right, weight, .. } => *weight + (**right).len(),
        }
    }
}

/// A rope: the root of the node tree.
pub struct Rope {
    pub root: Box<Node>,
}

impl Rope {
    /// The text the rope holds.
    pub open spec fn text(self) -> Seq<char> {
        (*self.root).text()
    }

    /// A well-formed rope: cached weights are right and the text fits the
    /// machine.
    pub open spec fn wf(self) -> bool {
        (*self.root).wf() && self.text().len() <= usize::MAX
    }

    /// A rope over one run of characters.
    pub fn new(text: Vec<char>) -> (r: Rope)
        ensures
            r.wf(),
            r.text() == text@,
    {
        let n = text.len();
        proof {
            assert(text@.len() == n);
        }
        Rope { root: Node::new_leaf(text) }
    }

    /// The length of the rope's text.
    pub fn len(&self) -> (r: usize)
        requires
            self.wf(),
        ensures
            r == self.text().len(),
    {
        (*self.root).len()
    }

    /// Splices a run of characters into the text at a character index.
    pub fn insert(&mut self, index: usize, text: Vec<char>)
        requires
            old(self).wf(),
            index <= old(self).text().len(),
            old(self).text().len() + text@.len() <= usize::MAX,
        ensures
            final(self).wf(),
            final(self).text() == old(self).text().take(index as int) + text@ + old(
                self,
            ).text().skip(index as int),
    {
        let mut root = Box::new(Node::Leaf(Vec::new()));
        core::mem::swap(&mut root, &mut self.root);
        self.root = Self::insert_rec(root, index, text);
    }

    /// Rebuilds the path to the insertion point: splices into the leaf the
    /// index falls in, adjusting cached weights on the way down.
    fn insert_rec(node: Box<Node>, index: usize, text: Vec<char>) -> (r: Box<Node>)
        requires
            (*node).wf(),
            index <= (*node).text().len(),
            (*node).text().len() + text@.len() <= usize::MAX,
        ensures
            (*r).wf(),
            (*r).text() == (*node).text().take(index as int) + text@ + (*node).text().skip(
                index as int,
            ),
        decreases *node,
    {
        let tlen = text.len();
        match *node {
            Node::Leaf(mut s) => {
                let mut tail = s.split_off(index);
                let mut mid = text;
                s.append(&mut mid);
                s.append(&mut tail);
                let r = Box::new(Node::Leaf(s));
                proof {
                    assert((*r).text() =~= (*node).text().take(index as int) + text@ + (
                    *node).text().skip(index as int));
                }
                r
            },
            Node::Internal { left, right, weight } => {
                if index < weight {
                    let ghost lt = (*left).text();
                    let ghost rt = (*right).text();
                    let left2 = Self::insert_rec(left, index, text);
                    let weight2 = weight + tlen;
                    let r = Box::new(Node::Internal { left: left2, right, weight: weight2 });
                    proof {
                        assert((lt + rt).take(index as int) =~= lt.take(index as int));
                        assert((lt + rt).skip(index as int) =~= lt.skip(index as int) + rt);
                        assert((*r).text() =~= (*node).text().take(index as int) + text@ + (
                        *node).text().skip(index as int));
                    }
                    r
                } else {
                    let ghost lt = (*left).text();
                    let ghost rt = (*right).text();
                    let right2 = Self::insert_rec(right, index - weight, text);
                    let r = Box::new(Node::Internal { left, right: right2, weight });
                    proof {
                        let i = index as int;
                        assert((lt + rt).take(i) =~= lt + rt.take(i - lt.len()));
                        assert((lt + rt).skip(i) =~= rt.skip(i - lt.len()));
                        assert((*r).text() =~= (*node).text().take(i) + text@ + (
                        *node).text().skip(i));
                    }
                    r
                }
            },
        }
    }

    /// Reads the whole text out of the rope, in order.
    pub fn collect_text(&self) -> (r: Vec<char>)
        ensures
            r@ == self.text(),
    {
        let mut out: Vec<char> = Vec::new();
        Self::collect_rec(&self.root, &mut out);
        out
    }

    /// Appends the text under a node onto the output, left to right.
    fn collect_rec(node: &Box<Node>, out: &mut Vec<char>)
        ensures
            final(out)@ == old(out)@ + (**node).text(),
        decreases **node,
    {
        match &**node {
            Node::Leaf(s) => {
                let mut i: usize = 0;
                proof {
                    assert(old(out)@ + s@.take(0) =~= old(out)@);
                }
                while i < s.len()
                    invariant
                        i <= s@.len(),
                        out@ == old(out)@ + s@.take(i as int),
                    decreases s@.len() - i,
                {
                    out.push(s[i]);
                    proof {
                        assert(old(out)@ + s@.take(i as int + 1) =~= (old(out)@ + s@.take(
                            i as int,
                        )).push(s@[i as int]));
                    }
                    i += 1;
                }
                proof {
                    assert(s@.take(s@.len() as int) =~= s@);
                }
            },
            Node::Internal { left, right, .. } => {
                Self::collect_rec(left, out);
                Self::collect_rec(right, out);
                proof {
                    assert(old(out)@ + ((**left).text() + (**right).text()) =~= (old(out)@ + (
                    **left).text()) + (**right).text());
                }
            },
        }
    }
}

} // verus!
