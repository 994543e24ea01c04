//! The mathematical model of the tree.
//!
//! A tree value is abstracted as a [`TreeModel`]: the node entries and the
//! shape, with no cached heights (the model height is derived). Every
//! executable operation of the library is specified as a function on this
//! model, and the balancing and ordering laws are stated and proved over it.

use vstd::prelude::*;
use vstd::multiset::Multiset;

verus! {

/// The shape and contents of a (sub)tree: empty, or a node holding an
/// (age, name) entry and two subtrees.
#[verifier::ext_equal]
pub enum TreeModel {
    Empty,
    Branch { age: int, name: Seq<char>, left: Box<TreeModel>, right: Box<TreeModel> },
}

/// An (age, name) entry held by one node.
pub type Entry = (int, Seq<char>);

/// Height of a subtree: 0 when empty, else 1 + the taller child's height.
pub open spec fn mheight(m: TreeModel) -> nat
    decreases m,
{
    match m {
        TreeModel::Empty => 0,
        TreeModel::Branch { left, right, .. } => 1 + if mheight(*left) >= mheight(*right) {
            mheight(*left)
        } else {
            mheight(*right)
        },
    }
}

/// The multiset of all (age, name) entries held in the subtree.
pub open spec fn entries(m: TreeModel) -> Multiset<Entry>
    decreases m,
{
    match m {
        TreeModel::Empty => Multiset::empty(),
        TreeModel::Branch { age, name, left, right } => entries(*left).add(entries(*right)).insert(
            (age, name),
        ),
    }
}

/// The age of the entry at the root of the model; 0 when empty.
pub open spec fn root_age(m: TreeModel) -> int {
    match m {
        TreeModel::Empty => 0,
        TreeModel::Branch { age, .. } => age,
    }
}

/// The name of the entry at the root of the model; empty when empty.
pub open spec fn root_name(m: TreeModel) -> Seq<char> {
    match m {
        TreeModel::Empty => Seq::empty(),
        TreeModel::Branch { name, .. } => name,
    }
}

/// Some entry with the given age is present.
pub open spec fn contains_age(m: TreeModel, a: int) -> bool {
    exists|e: Entry| #[trigger] entries(m).count(e) > 0 && e.0 == a
}

/// The exact entry (age, name) is present.
pub open spec fn contains_entry(m: TreeModel, a: int, n: Seq<char>) -> bool {
    entries(m).count((a, n)) > 0
}

/// Whether every entry of the subtree that has the given age is exactly the
/// given entry: the premise under which removal by (age, name) is complete.
pub open spec fn age_unique(m: TreeModel, a: int, n: Seq<char>) -> bool {
    forall|e: Entry| #[trigger] entries(m).count(e) > 0 && e.0 == a ==> e == (a, n)
}

/// Every entry of the subtree has age at most `b`.
pub open spec fn keys_le(m: TreeModel, b: int) -> bool {
    forall|e: Entry| #[trigger] entries(m).count(e) > 0 ==> e.0 <= b
}

/// Every entry of the subtree has age at least `b`.
pub open spec fn keys_ge(m: TreeModel, b: int) -> bool {
    forall|e: Entry| #[trigger] entries(m).count(e) > 0 ==> e.0 >= b
}

/// Ordering invariant: at every node, the left subtree holds ages less than
/// or equal to the node's age and the right subtree holds ages greater than
/// or equal to it. Equal ages may sit on either side: an entry inserted with
/// an age already present goes to the left, but a rotation may later carry an
/// equal-aged entry into a right subtree, so only the non-strict bounds are
/// invariant. Lookup therefore goes by age alone.
pub open spec fn ord(m: TreeModel) -> bool
    decreases m,
{
    match m {
        TreeModel::Empty => true,
        TreeModel::Branch { age, left, right, .. } => keys_le(*left, age) && keys_ge(*right, age)
            && ord(*left) && ord(*right),
    }
}

/// Number of nodes in the subtree.
pub open spec fn msize(m: TreeModel) -> nat
    decreases m,
{
    match m {
        TreeModel::Empty => 0,
        TreeModel::Branch { left, right, .. } => 1 + msize(*left) + msize(*right),
    }
}

/// Balance factor of a node: left height minus right height (0 when empty).
pub open spec fn bf(m: TreeModel) -> int {
    match m {
        TreeModel::Empty => 0,
        TreeModel::Branch { left, right, .. } => mheight(*left) - mheight(*right),
    }
}

/// AVL invariant: every node's balance factor lies in [-1, 1].
pub open spec fn balanced(m: TreeModel) -> bool
    decreases m,
{
    match m {
        TreeModel::Empty => true,
        TreeModel::Branch { left, right, .. } => -1 <= bf(m) <= 1 && balanced(*left) && balanced(
            *right,
        ),
    }
}

/// Both children of the node satisfy the AVL invariant; the node itself may
/// be out of balance, as it is just before rebalancing.
pub open spec fn balanced_children(m: TreeModel) -> bool {
    match m {
        TreeModel::Empty => true,
        TreeModel::Branch { left, right, .. } => balanced(*left) && balanced(*right),
    }
}

/// Well-formedness: ordering plus the AVL invariant.
pub open spec fn wf(m: TreeModel) -> bool {
    ord(m) && balanced(m)
}

/// Single right rotation: promotes the left child. Identity when the shape
/// does not permit it.
pub open spec fn rot_right(m: TreeModel) -> TreeModel {
    match m {
        TreeModel::Branch { age, name, left, right } => match *left {
            TreeModel::Branch { age: la, name: ln, left: ll, right: lr } => TreeModel::Branch {
                age: la,
                name: ln,
                left: ll,
                right: Box::new(TreeModel::Branch { age, name, left: lr, right }),
            },
            TreeModel::Empty => m,
        },
        TreeModel::Empty => m,
    }
}

/// Single left rotation: promotes the right child. Identity when the shape
/// does not permit it.
pub open spec fn rot_left(m: TreeModel) -> TreeModel {
    match m {
        TreeModel::Branch { age, name, left, right } => match *right {
            TreeModel::Branch { age: ra, name: rn, left: rl, right: rr } => TreeModel::Branch {
                age: ra,
                name: rn,
                left: Box::new(TreeModel::Branch { age, name, left, right: rl }),
                right: rr,
            },
            TreeModel::Empty => m,
        },
        TreeModel::Empty => m,
    }
}

/// The rebalance dispatcher: applies zero, one or two rotations according to
/// the balance factor of the node and of the heavier child.
pub open spec fn spec_balance(m: TreeModel) -> TreeModel {
    match m {
        TreeModel::Empty => m,
        TreeModel::Branch { age, name, left, right } => {
            let b = bf(m);
            if b > 1 {
                if bf(*left) >= 0 {
                    rot_right(m)
                } else {
                    rot_right(
                        TreeModel::Branch {
                            age,
                            name,
                            left: Box::new(rot_left(*left)),
                            right,
                        },
                    )
                }
            } else if b < -1 {
                if bf(*right) <= 0 {
                    rot_left(m)
                } else {
                    rot_left(
                        TreeModel::Branch {
                            age,
                            name,
                            left,
                            right: Box::new(rot_right(*right)),
                        },
                    )
                }
            } else {
                m
            }
        },
    }
}

/// Insertion. An exact duplicate of an existing node's entry met on the
/// search path is a no-op; an equal age with a differing name descends left;
/// otherwise the search follows the age order. Every modified node is
/// rebalanced on the way back up.
pub open spec fn spec_insert(m: TreeModel, a: int, n: Seq<char>) -> TreeModel
    decreases m,
{
    match m {
        TreeModel::Empty => TreeModel::Branch {
            age: a,
            name: n,
            left: Box::new(TreeModel::Empty),
            right: Box::new(TreeModel::Empty),
        },
        TreeModel::Branch { age, name, left, right } => {
            if a == age && n == name {
                m
            } else if a > age {
                spec_balance(
                    TreeModel::Branch {
                        age,
                        name,
                        left,
                        right: Box::new(spec_insert(*right, a, n)),
                    },
                )
            } else {
                spec_balance(
                    TreeModel::Branch {
                        age,
                        name,
                        left: Box::new(spec_insert(*left, a, n)),
                        right,
                    },
                )
            }
        },
    }
}

/// The entry of the leftmost node of the subtree; a placeholder when empty.
pub open spec fn leftmost(m: TreeModel) -> Entry
    decreases m,
{
    match m {
        TreeModel::Empty => (0, Seq::empty()),
        TreeModel::Branch { age, name, left, .. } => if *left is Branch {
            leftmost(*left)
        } else {
            (age, name)
        },
    }
}

/// Removal. The search follows the age order; at an age match with a
/// differing name it descends left (the duplicate-age chain). A matching node
/// with two children is overwritten with its in-order successor's entry,
/// which is then removed from the right subtree. Every node on the way back
/// up is rebalanced.
pub open spec fn spec_erase(m: TreeModel, a: int, n: Seq<char>) -> TreeModel
    decreases m,
{
    match m {
        TreeModel::Empty => TreeModel::Empty,
        TreeModel::Branch { age, name, left, right } => {
            if a < age || (a == age && n != name) {
                spec_balance(
                    TreeModel::Branch {
                        age,
                        name,
                        left: Box::new(spec_erase(*left, a, n)),
                        right,
                    },
                )
            } else if a > age {
                spec_balance(
                    TreeModel::Branch {
                        age,
                        name,
                        left,
                        right: Box::new(spec_erase(*right, a, n)),
                    },
                )
            } else {
                if *left is Empty && *right is Empty {
                    TreeModel::Empty
                } else if *left is Empty {
                    spec_balance(*right)
                } else if *right is Empty {
                    spec_balance(*left)
                } else {
                    let s = leftmost(*right);
                    spec_balance(
                        TreeModel::Branch {
                            age: s.0,
                            name: s.1,
                            left,
                            right: Box::new(spec_erase(*right, s.0, s.1)),
                        },
                    )
                }
            }
        },
    }
}

/// Membership lookup. The match is decided by age alone: the name plays no
/// part, mirroring the insert policy that chains equal ages leftward.
pub open spec fn spec_find(m: TreeModel, a: int) -> bool
    decreases m,
{
    match m {
        TreeModel::Empty => false,
        TreeModel::Branch { age, left, right, .. } => if a == age {
            true
        } else if a < age {
            spec_find(*left, a)
        } else {
            spec_find(*right, a)
        },
    }
}

/// The characters of one decimal digit.
pub open spec fn spec_digit(d: nat) -> Seq<char> {
    if d == 0 {
        "0"@
    } else if d == 1 {
        "1"@
    } else if d == 2 {
        "2"@
    } else if d == 3 {
        "3"@
    } else if d == 4 {
        "4"@
    } else if d == 5 {
        "5"@
    } else if d == 6 {
        "6"@
    } else if d == 7 {
        "7"@
    } else if d == 8 {
        "8"@
    } else {
        "9"@
    }
}

/// Decimal digits of a nonnegative value, most significant first.
pub open spec fn spec_dec_nat(v: nat) -> Seq<char>
    decreases v,
{
    if v < 10 {
        spec_digit(v)
    } else {
        spec_dec_nat(v / 10) + spec_digit(v % 10)
    }
}

/// Decimal representation of an integer, with a leading minus sign when
/// negative.
pub open spec fn spec_dec_int(v: int) -> Seq<char> {
    if v < 0 {
        "-"@ + spec_dec_nat((-v) as nat)
    } else {
        spec_dec_nat(v as nat)
    }
}

/// The textual dump: `[{"<age>":"<name>"},<left>,<right>]` with `null` for an
/// absent subtree, reproduced character for character.
pub open spec fn spec_dump(m: TreeModel) -> Seq<char>
    decreases m,
{
    match m {
        TreeModel::Empty => "null"@,
        TreeModel::Branch { age, name, left, right } => "[{\""@ + spec_dec_int(age) + "\":\""@
            + name + "\"},"@ + spec_dump(*left) + ","@ + spec_dump(*right) + "]"@,
    }
}

} // verus!
