//! The executable tree.

use vstd::prelude::*;
use crate::model::TreeModel;
use crate::model::mheight;
use crate::model::bf;
use crate::model::leftmost;
use crate::model::spec_balance;
use crate::model::spec_insert;
use crate::model::spec_erase;
use crate::model::spec_find;
use crate::model::spec_dump;
use crate::model::spec_dec_int;
use crate::model::spec_dec_nat;
use crate::model::spec_digit;
use crate::model::root_age;
use crate::model::root_name;
use crate::model::rot_right;
use crate::model::rot_left;
use crate::model::msize;
use crate::laws::lemma_rot_left_height;
use crate::laws::lemma_rot_right_height;
use crate::laws::lemma_insert_height;
use crate::laws::lemma_erase_height_le;

verus! {

/// A tree node: one (age, name) entry, the cached height, and the owned
/// optional children.
pub struct Node {
    left: Option<Box<Node>>,
    right: Option<Box<Node>>,
    age: i32,
    name: String,
    height: i32,
}

/// The AVL tree facade: an optional root node.
pub struct Tree {
    root: Option<Box<Node>>,
}

/// The model of an optional subtree.
pub closed spec fn opt_model(o: Option<Box<Node>>) -> TreeModel
    decreases o,
{
    match o {
        Option::None => TreeModel::Empty,
        Option::Some(n) => node_model(*n),
    }
}

/// The model of a node: its entry and the models of its children. The cached
/// height is not part of the model; the model height is derived.
pub closed spec fn node_model(n: Node) -> TreeModel
    decreases n,
{
    TreeModel::Branch {
        age: n.age as int,
        name: n.name@,
        left: Box::new(opt_model(n.left)),
        right: Box::new(opt_model(n.right)),
    }
}

/// Height bookkeeping invariant of an optional subtree.
pub closed spec fn opt_hinv(o: Option<Box<Node>>) -> bool
    decreases o,
{
    match o {
        Option::None => true,
        Option::Some(n) => node_hinv(*n),
    }
}

/// Height bookkeeping invariant: every cached height equals the derived model
/// height of its subtree.
pub closed spec fn node_hinv(n: Node) -> bool
    decreases n,
{
    opt_hinv(n.left) && opt_hinv(n.right) && n.height as int == mheight(node_model(n)) as int
}

impl View for Node {
    type V = TreeModel;

    closed spec fn view(&self) -> TreeModel {
        node_model(*self)
    }
}

impl View for Tree {
    type V = TreeModel;

    closed spec fn view(&self) -> TreeModel {
        opt_model(self.root)
    }
}

impl Tree {
    /// The tree's invariant: all cached heights are correct.
    pub closed spec fn inv(&self) -> bool {
        opt_hinv(self.root)
    }

    /// Create a new tree. Returns the empty tree.
    pub fn new() -> (t: Tree)
        ensures
            t.inv(),
            t@ == TreeModel::Empty,
    {
        Tree { root: None }
    }

    /// Find an entry in the tree. The match is decided by age alone: the name
    /// does not further filter an age-matching node (it mirrors the
    /// duplicate-age insert policy). Returns true if found, false if not.
    pub fn find(&self, age: i32, name: String) -> (r: bool)
        ensures
            r == spec_find(self@, age as int),
    {
        match &self.root {
            Some(node) => node.find(age, name),
            None => false,
        }
    }

    /// Insert a new entry into the tree; inserting an entry that is already
    /// present is a no-op. The tree is rebalanced along the search path.
    pub fn insert(&mut self, age: i32, name: String)
        requires
            old(self).inv(),
            mheight(old(self)@) < i32::MAX,
        ensures
            final(self).inv(),
            final(self)@ == spec_insert(old(self)@, age as int, name@),
    {
        match self.root.take() {
            Some(node) => {
                self.root = Some(node_insert(node, age, name));
            },
            None => {
                self.root = Some(Box::new(Node::new(age, name)));
            },
        }
    }

    /// Remove an entry from the tree: the node whose age matches and whose
    /// name matches, searching the duplicate-age chain through left children
    /// when the name at an age-matching node differs. Absent entries leave
    /// the tree unchanged. The tree is rebalanced along the search path.
    pub fn erase(&mut self, age: i32, name: String)
        requires
            old(self).inv(),
        ensures
            final(self).inv(),
            final(self)@ == spec_erase(old(self)@, age as int, name@),
    {
        match self.root.take() {
            Some(root) => {
                self.root = node_delete(root, age, name);
            },
            None => {},
        }
    }

    /// Delete the entire tree, releasing every node, and leave it empty.
    pub fn delete(&mut self)
        ensures
            final(self).inv(),
            final(self)@ == TreeModel::Empty,
    {
        match self.root.take() {
            Some(node) => {
                self.root = tree_delete(node);
            },
            None => {},
        }
    }

    /// The textual dump of the whole tree:
    /// `[{"<age>":"<name>"},<left>,<right>]` with `null` for an absent
    /// subtree, and exactly `null` for the empty tree.
    pub fn print(&self) -> (r: String)
        ensures
            r@ == spec_dump(self@),
    {
        match &self.root {
            Some(node) => {
                proof {
                    assert(opt_model(self.root) == node_model(**node));
                }
                node.print()
            },
            None => String::from_str("null"),
        }
    }
}

impl Node {
    /// The node's invariant: all cached heights in the subtree are correct.
    pub closed spec fn inv(&self) -> bool {
        node_hinv(*self)
    }

    /// The invariant restricted to the two child subtrees: their cached
    /// heights are correct, while this node's own height may be stale.
    pub closed spec fn children_inv(&self) -> bool {
        opt_hinv(self.left) && opt_hinv(self.right)
    }

    /// Create a new leaf node holding the given entry.
    pub fn new(age: i32, name: String) -> (r: Node)
        ensures
            r.inv(),
            r@ == (TreeModel::Branch {
                age: age as int,
                name: name@,
                left: Box::new(TreeModel::Empty),
                right: Box::new(TreeModel::Empty),
            }),
    {
        let r = Node { age, name, height: 1, left: None, right: None };
        proof {
            assert(opt_model(r.left) == TreeModel::Empty);
            assert(opt_model(r.right) == TreeModel::Empty);
            assert(mheight(TreeModel::Empty) == 0);
            assert(mheight(node_model(r)) == 1);
        }
        r
    }

    /// The age of this node's entry.
    pub fn age(&self) -> (r: &i32)
        ensures
            *r as int == root_age(self@),
    {
        &self.age
    }

    /// The name of this node's entry.
    pub fn name(&self) -> (r: &String)
        ensures
            r@ == root_name(self@),
    {
        &self.name
    }

    /// Refresh this node's cached height from its children: the taller
    /// child's height plus one.
    pub fn update_height(&mut self)
        requires
            old(self).children_inv(),
            mheight((*old(self))@) <= i32::MAX,
        ensures
            final(self).inv(),
            final(self)@ == (*old(self))@,
    {
        let hl = height(&self.left);
        let hr = height(&self.right);
        proof {
            assert(mheight(self@) == 1 + if mheight(opt_model(self.left)) >= mheight(
                opt_model(self.right),
            ) {
                mheight(opt_model(self.left))
            } else {
                mheight(opt_model(self.right))
            });
        }
        self.height = if hr >= hl {
            hr + 1
        } else {
            hl + 1
        };
    }

    /// Find an entry in this subtree by age; the name is carried along but
    /// does not decide the match.
    pub fn find(&self, age: i32, name: String) -> (r: bool)
        ensures
            r == spec_find(self@, age as int),
        decreases mheight(self@),
    {
        if age == self.age {
            true
        } else if age < self.age {
            match &self.left {
                Some(node) => {
                    proof {
                        assert(opt_model(self.left) == node_model(**node));
                        assert(mheight(node_model(**node)) < mheight(node_model(*self)));
                    }
                    let res = node.find(age, name);
                    proof {
                        assert(spec_find(self@, age as int) == spec_find(
                            opt_model(self.left),
                            age as int,
                        ));
                    }
                    res
                },
                None => {
                    proof {
                        assert(opt_model(self.left) == TreeModel::Empty);
                        assert(spec_find(self@, age as int) == spec_find(
                            TreeModel::Empty,
                            age as int,
                        ));
                    }
                    false
                },
            }
        } else {
            match &self.right {
                Some(node) => {
                    proof {
                        assert(opt_model(self.right) == node_model(**node));
                        assert(mheight(node_model(**node)) < mheight(node_model(*self)));
                    }
                    let res = node.find(age, name);
                    proof {
                        assert(spec_find(self@, age as int) == spec_find(
                            opt_model(self.right),
                            age as int,
                        ));
                    }
                    res
                },
                None => {
                    proof {
                        assert(opt_model(self.right) == TreeModel::Empty);
                        assert(spec_find(self@, age as int) == spec_find(
                            TreeModel::Empty,
                            age as int,
                        ));
                    }
                    false
                },
            }
        }
    }
}

impl Node {
    /// The textual dump of this subtree:
    /// `[{"<age>":"<name>"},<left>,<right>]` with `null` for an absent child,
    /// reproduced character for character.
    pub fn print(&self) -> (r: String)
        ensures
            r@ == spec_dump(self@),
        decreases mheight(self@),
    {
        let mut out = String::from_str("[{\"");
        let num = fmt_i32(self.age);
        out.append(num.as_str());
        out.append("\":\"");
        out.append(self.name.as_str());
        out.append("\"},");
        match &self.left {
            Some(l) => {
                proof {
                    assert(opt_model(self.left) == node_model(**l));
                    assert(mheight(node_model(**l)) < mheight(node_model(*self)));
                }
                let s = l.print();
                out.append(s.as_str());
            },
            None => {
                proof {
                    assert(opt_model(self.left) == TreeModel::Empty);
                }
                out.append("null");
            },
        }
        out.append(",");
        match &self.right {
            Some(rn) => {
                proof {
                    assert(opt_model(self.right) == node_model(**rn));
                    assert(mheight(node_model(**rn)) < mheight(node_model(*self)));
                }
                let s = rn.print();
                out.append(s.as_str());
            },
            None => {
                proof {
                    assert(opt_model(self.right) == TreeModel::Empty);
                }
                out.append("null");
            },
        }
        out.append("]");
        proof {
            assert(spec_dump(self@) == "[{\""@ + spec_dec_int(self.age as int) + "\":\""@
                + self.name@ + "\"},"@ + spec_dump(opt_model(self.left)) + ","@
                + spec_dump(opt_model(self.right)) + "]"@);
        }
        out
    }
}

/// The cached height of an optional subtree: 0 when absent, else the stored
/// height field, which under the invariant equals the model height.
pub fn height(node: &Option<Box<Node>>) -> (r: i32)
    ensures
        opt_hinv(*node) ==> r as int == mheight(opt_model(*node)),
{
    match node {
        None => 0,
        Some(n) => n.height,
    }
}

/// Balance factor of a node: left height minus right height.
pub fn calc_balance(node: &Box<Node>) -> (r: i32)
    requires
        node_hinv(**node),
    ensures
        r as int == bf(node_model(**node)),
{
    height(&node.left) - height(&node.right)
}

/// Balance factor of an optional subtree: 0 when absent.
pub fn get_balance(node: &Option<Box<Node>>) -> (r: i32)
    requires
        opt_hinv(*node),
    ensures
        r as int == bf(opt_model(*node)),
{
    match node {
        None => 0,
        Some(n) => calc_balance(n),
    }
}

/// Rotate the subtree to the right, promoting the left child. The node's own
/// cached height may be stale; both affected heights are recomputed, the
/// demoted node's first.
fn rotate_right(y: Box<Node>) -> (r: Box<Node>)
    requires
        y.children_inv(),
        bf(node_model(*y)) >= 1,
        mheight(node_model(*y)) <= i32::MAX,
    ensures
        node_hinv(*r),
        node_model(*r) == rot_right(node_model(*y)),
{
    let ghost m = node_model(*y);
    let mut y = y;
    proof {
        if y.left is None {
            assert(opt_model(y.left) == TreeModel::Empty);
            assert(false);
        }
    }
    let mut x = y.left.take().unwrap();
    let ghost lm = node_model(*x);
    let b = x.right.take();
    y.left = b;
    proof {
        assert(mheight(node_model(*y)) <= mheight(m) as int - 1);
    }
    y.update_height();
    x.right = Some(y);
    proof {
        assert(mheight(node_model(*x)) <= mheight(lm) + 1);
        assert(mheight(lm) < mheight(m));
    }
    x.update_height();
    x
}

/// Rotate the subtree to the left, promoting the right child. The node's own
/// cached height may be stale; both affected heights are recomputed, the
/// demoted node's first.
fn rotate_left(x: Box<Node>) -> (r: Box<Node>)
    requires
        x.children_inv(),
        bf(node_model(*x)) <= -1,
        mheight(node_model(*x)) <= i32::MAX,
    ensures
        node_hinv(*r),
        node_model(*r) == rot_left(node_model(*x)),
{
    let ghost m = node_model(*x);
    let mut x = x;
    proof {
        if x.right is None {
            assert(opt_model(x.right) == TreeModel::Empty);
            assert(false);
        }
    }
    let mut y = x.right.take().unwrap();
    let ghost rm = node_model(*y);
    let b = y.left.take();
    x.right = b;
    proof {
        assert(mheight(node_model(*x)) <= mheight(m) as int - 1);
    }
    x.update_height();
    y.left = Some(x);
    proof {
        assert(mheight(node_model(*y)) <= mheight(rm) + 1);
        assert(mheight(rm) < mheight(m));
    }
    y.update_height();
    y
}

/// Rebalance the subtree if needed and return the new (or unchanged) subtree
/// root: one rotation in the outer-heavy cases, two in the inner-heavy ones.
fn balance(node: Box<Node>) -> (r: Box<Node>)
    requires
        node_hinv(*node),
    ensures
        node_hinv(*r),
        node_model(*r) == spec_balance(node_model(*node)),
{
    let ghost m = node_model(*node);
    let balance_factor = calc_balance(&node);

    if balance_factor > 1 {
        if get_balance(&node.left) >= 0 {
            rotate_right(node)
        } else {
            let mut node = node;
            proof {
                if node.left is None {
                    assert(opt_model(node.left) == TreeModel::Empty);
                    assert(false);
                }
                lemma_rot_left_height(opt_model(node.left));
            }
            let left = node.left.take().unwrap();
            proof {
                assert(node_hinv(*left));
                assert(left.children_inv());
            }
            node.left = Some(rotate_left(left));
            proof {
                assert(bf(node_model(*node)) >= 1);
                assert(mheight(node_model(*node)) <= mheight(m));
            }
            rotate_right(node)
        }
    } else if balance_factor < -1 {
        if get_balance(&node.right) <= 0 {
            rotate_left(node)
        } else {
            let mut node = node;
            proof {
                if node.right is None {
                    assert(opt_model(node.right) == TreeModel::Empty);
                    assert(false);
                }
                lemma_rot_right_height(opt_model(node.right));
            }
            let right = node.right.take().unwrap();
            proof {
                assert(node_hinv(*right));
                assert(right.children_inv());
            }
            node.right = Some(rotate_right(right));
            proof {
                assert(bf(node_model(*node)) <= -1);
                assert(mheight(node_model(*node)) <= mheight(m));
            }
            rotate_left(node)
        }
    } else {
        node
    }
}

/// Insert the entry into the subtree rooted at `node` and return the new
/// subtree root, rebalanced.
fn node_insert(node: Box<Node>, age: i32, name: String) -> (r: Box<Node>)
    requires
        node_hinv(*node),
        mheight(node_model(*node)) < i32::MAX,
    ensures
        node_hinv(*r),
        node_model(*r) == spec_insert(node_model(*node), age as int, name@),
    decreases mheight(node_model(*node)),
{
    let ghost m = node_model(*node);
    let mut node = node;
    if age == node.age && name == node.name {
        return node;
    } else if age > node.age {
        proof {
            lemma_insert_height(opt_model(node.right), age as int, name@);
        }
        match node.right.take() {
            Some(n) => {
                node.right = Some(node_insert(n, age, name));
            },
            None => {
                node.right = Some(Box::new(Node::new(age, name)));
            },
        }
    } else {
        proof {
            lemma_insert_height(opt_model(node.left), age as int, name@);
        }
        match node.left.take() {
            Some(n) => {
                node.left = Some(node_insert(n, age, name));
            },
            None => {
                node.left = Some(Box::new(Node::new(age, name)));
            },
        }
    }
    node.update_height();
    balance(node)
}

/// Remove the entry with the given age and name, if the search can reach it,
/// from the subtree rooted at `node`; return the new subtree root, rebalanced.
fn node_delete(node: Box<Node>, age: i32, name: String) -> (r: Option<Box<Node>>)
    requires
        node_hinv(*node),
    ensures
        opt_hinv(r),
        opt_model(r) == spec_erase(node_model(*node), age as int, name@),
    decreases mheight(node_model(*node)),
{
    let ghost m = node_model(*node);
    let mut node = node;
    if age < node.age || (age == node.age && !(name == node.name)) {
        proof {
            lemma_erase_height_le(opt_model(node.left), age as int, name@);
        }
        if let Some(left) = node.left.take() {
            proof {
                assert(node_hinv(*left));
                assert(mheight(node_model(*left)) < mheight(m));
            }
            node.left = node_delete(left, age, name);
        } else {
            proof {
                assert(opt_model(node.left) == TreeModel::Empty);
            }
        }
    } else if age > node.age {
        proof {
            lemma_erase_height_le(opt_model(node.right), age as int, name@);
        }
        if let Some(right) = node.right.take() {
            proof {
                assert(node_hinv(*right));
                assert(mheight(node_model(*right)) < mheight(m));
            }
            node.right = node_delete(right, age, name);
        } else {
            proof {
                assert(opt_model(node.right) == TreeModel::Empty);
            }
        }
    } else {
        if node.right.is_none() && node.left.is_none() {
            proof {
                assert(opt_model(node.left) == TreeModel::Empty);
                assert(opt_model(node.right) == TreeModel::Empty);
            }
            return None;
        } else if node.right.is_some() && node.left.is_none() {
            proof {
                assert(opt_model(node.left) == TreeModel::Empty);
            }
            let mut n = node.right.take().unwrap();
            proof {
                assert(node_hinv(*n));
            }
            n.update_height();
            return Some(balance(n));
        } else if node.left.is_some() && node.right.is_none() {
            proof {
                assert(opt_model(node.right) == TreeModel::Empty);
            }
            let mut n = node.left.take().unwrap();
            proof {
                assert(node_hinv(*n));
            }
            n.update_height();
            return Some(balance(n));
        } else {
            let s_age: i32;
            let s_name: String;
            {
                let s = find_successor(&node);
                s_age = *s.age();
                s_name = s.name().clone();
            }
            proof {
                assert((s_age as int, s_name@) == leftmost(opt_model(node.right)));
            }
            node.age = s_age;
            node.name = s_name.clone();
            proof {
                lemma_erase_height_le(opt_model(node.right), s_age as int, s_name@);
            }
            let right = node.right.take().unwrap();
            proof {
                assert(node_hinv(*right));
                assert(mheight(node_model(*right)) < mheight(m));
            }
            node.right = node_delete(right, s_age, s_name);
        }
    }
    proof {
        assert(mheight(node_model(*node)) <= mheight(m));
        assert(mheight(m) <= i32::MAX);
    }
    node.update_height();
    Some(balance(node))
}

/// The leftmost node of the subtree: the one holding the subtree's in-order
/// first entry. Returns the node itself when it has no left child.
fn find_leftmost(node: &Box<Node>) -> (r: &Box<Node>)
    ensures
        (r.age as int, r.name@) == leftmost(node_model(**node)),
    decreases mheight(node_model(**node)),
{
    match &node.left {
        Some(left) => {
            proof {
                assert(opt_model(node.left) == node_model(**left));
                assert(mheight(node_model(**left)) < mheight(node_model(**node)));
            }
            let r = find_leftmost(left);
            proof {
                assert(leftmost(node_model(**node)) == leftmost(node_model(**left)));
            }
            r
        },
        None => {
            proof {
                assert(opt_model(node.left) == TreeModel::Empty);
            }
            node
        },
    }
}

/// The in-order successor used by two-child removal: the leftmost node of the
/// right subtree, or the node itself when there is no right child.
fn find_successor(node: &Box<Node>) -> (r: &Box<Node>)
    ensures
        node.right is Some ==> (r.age as int, r.name@) == leftmost(opt_model(node.right)),
        node.right is None ==> r == node,
{
    match &node.right {
        Some(right) => {
            proof {
                assert(opt_model(node.right) == node_model(**right));
            }
            find_leftmost(right)
        },
        None => node,
    }
}

/// Total node count of the subtrees piled on the teardown stack.
spec fn pile_size(s: Seq<Box<Node>>) -> nat
    decreases s.len(),
{
    if s.len() == 0 {
        0
    } else {
        pile_size(s.drop_last()) + msize(node_model(*s.last()))
    }
}

proof fn lemma_pile_push(s: Seq<Box<Node>>, x: Box<Node>)
    ensures
        pile_size(s.push(x)) == pile_size(s) + msize(node_model(*x)),
{
    assert(s.push(x).drop_last() =~= s);
    assert(s.push(x).last() == x);
}

/// Tear a whole subtree down, releasing every node through an explicit
/// iterative post-order walk rather than a deep recursive release, so that no
/// call stack proportional to the tree shape is needed. Always returns the
/// empty subtree.
fn tree_delete(node: Box<Node>) -> (r: Option<Box<Node>>)
    ensures
        r is None,
{
    let mut stack: Vec<Box<Node>> = Vec::new();
    proof {
        assert(stack@.len() == 0);
    }
    stack.push(node);
    proof {
        lemma_pile_push(Seq::empty(), node);
    }
    while stack.len() > 0
        decreases pile_size(stack@),
    {
        let ghost s0 = stack@;
        let mut n = stack.pop().unwrap();
        let ghost nm = node_model(*n);
        proof {
            assert(stack@ =~= s0.drop_last());
            assert(n == s0.last());
            assert(pile_size(s0) == pile_size(stack@) + msize(nm));
            assert(msize(nm) == 1 + msize(opt_model(n.left)) + msize(opt_model(n.right)));
        }
        if let Some(l) = n.left.take() {
            proof {
                lemma_pile_push(stack@, l);
            }
            stack.push(l);
        }
        if let Some(rc) = n.right.take() {
            proof {
                lemma_pile_push(stack@, rc);
            }
            stack.push(rc);
        }
        proof {
            assert(pile_size(stack@) < pile_size(s0));
        }
    }
    None
}

/// One decimal digit as text.
fn digit_str(d: u64) -> (r: &'static str)
    requires
        d < 10,
    ensures
        r@ == spec_digit(d as nat),
{
    if d == 0 {
        "0"
    } else if d == 1 {
        "1"
    } else if d == 2 {
        "2"
    } else if d == 3 {
        "3"
    } else if d == 4 {
        "4"
    } else if d == 5 {
        "5"
    } else if d == 6 {
        "6"
    } else if d == 7 {
        "7"
    } else if d == 8 {
        "8"
    } else {
        "9"
    }
}

/// Decimal digits of a nonnegative value, most significant first.
fn fmt_u64(n: u64) -> (r: String)
    ensures
        r@ == spec_dec_nat(n as nat),
    decreases n,
{
    if n < 10 {
        String::from_str(digit_str(n))
    } else {
        let mut s = fmt_u64(n / 10);
        s.append(digit_str(n % 10));
        proof {
            assert(s@ == spec_dec_nat((n / 10) as nat) + spec_digit((n % 10) as nat));
        }
        s
    }
}

/// Decimal representation of a signed value, with a minus sign when negative.
fn fmt_i32(v: i32) -> (r: String)
    ensures
        r@ == spec_dec_int(v as int),
{
    if v < 0 {
        let mut s = String::from_str("-");
        proof {
            assert(0 <= -(v as i64) <= u64::MAX);
        }
        let mag = fmt_u64((-(v as i64)) as u64);
        s.append(mag.as_str());
        s
    } else {
        fmt_u64(v as u64)
    }
}

} // verus!
