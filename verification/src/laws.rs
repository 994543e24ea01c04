//! Laws of the tree model: preservation of the balancing and ordering
//! invariants, the effect of each operation on the entries, and derived
//! properties of lookup.

use vstd::prelude::*;
use crate::model::TreeModel;
use crate::model::Entry;
use crate::model::mheight;
use crate::model::entries;
use crate::model::contains_age;
use crate::model::contains_entry;
use crate::model::age_unique;
use crate::model::keys_le;
use crate::model::keys_ge;
use crate::model::ord;
use crate::model::bf;
use crate::model::balanced;
use crate::model::balanced_children;
use crate::model::wf;
use crate::model::rot_right;
use crate::model::rot_left;
use crate::model::spec_balance;
use crate::model::spec_insert;
use crate::model::leftmost;
use crate::model::spec_erase;
use crate::model::spec_find;
use crate::model::spec_dump;
use vstd::multiset::Multiset;

verus! {

broadcast use vstd::multiset::group_multiset_axioms;

/// How the entries of a node decompose: the entries of the two subtrees plus
/// the node's own entry.
proof fn lemma_entries_branch(
    age: int,
    name: Seq<char>,
    left: Box<TreeModel>,
    right: Box<TreeModel>,
    e: Entry,
)
    ensures
        entries(TreeModel::Branch { age, name, left, right }).count(e) == entries(*left).count(e)
            + entries(*right).count(e) + (if e == (age, name) {
            1nat
        } else {
            0nat
        }),
{
    let m = TreeModel::Branch { age, name, left, right };
    assert(entries(m) == entries(*left).add(entries(*right)).insert((age, name)));
    assert(Multiset::singleton((age, name)).count(e) == (if e == (age, name) {
        1nat
    } else {
        0nat
    }));
}

/// The empty tree is well-formed.
pub proof fn lemma_empty_wf()
    ensures
        wf(TreeModel::Empty),
{
}

/// A right rotation of a left-heavy node preserves the entries and the
/// ordering invariant.
pub proof fn lemma_rot_right_props(m: TreeModel)
    requires
        bf(m) >= 1,
    ensures
        entries(rot_right(m)) == entries(m),
        ord(m) ==> ord(rot_right(m)),
{
    match m {
        TreeModel::Branch { age, name, left, right } => {
            match *left {
                TreeModel::Branch { age: la, name: ln, left: ll, right: lr } => {
                    let inner = TreeModel::Branch { age, name, left: lr, right };
                    let res = TreeModel::Branch {
                        age: la,
                        name: ln,
                        left: ll,
                        right: Box::new(inner),
                    };
                    assert(rot_right(m) == res);
                    assert forall|e: Entry| entries(res).count(e) == entries(m).count(e) by {
                        lemma_entries_branch(age, name, left, right, e);
                        lemma_entries_branch(la, ln, ll, lr, e);
                        lemma_entries_branch(age, name, lr, right, e);
                        lemma_entries_branch(la, ln, ll, Box::new(inner), e);
                    }
                    assert(entries(res) =~= entries(m));
                    if ord(m) {
                        assert(keys_le(*left, age));
                        assert(keys_ge(*right, age));
                        assert(ord(*left));
                        assert(keys_le(*ll, la) && keys_ge(*lr, la));
                        assert(ord(*ll) && ord(*lr));
                        assert(ord(*right));
                        assert(entries(*left).count((la, ln)) > 0) by {
                            lemma_entries_branch(la, ln, ll, lr, (la, ln));
                        }
                        assert(la <= age);
                        // bounds of the rotated node's left chain
                        assert forall|e: Entry| #[trigger] entries(*lr).count(e) > 0 implies e.0
                            <= age by {
                            lemma_entries_branch(la, ln, ll, lr, e);
                            assert(entries(*left).count(e) > 0);
                        }
                        assert(keys_le(*lr, age));
                        // everything under the new right child is at least la
                        assert forall|e: Entry| #[trigger] entries(inner).count(e) > 0 implies e.0
                            >= la by {
                            lemma_entries_branch(age, name, lr, right, e);
                            if entries(*lr).count(e) > 0 {
                                assert(e.0 >= la);
                            } else if entries(*right).count(e) > 0 {
                                assert(e.0 >= age);
                            } else {
                                assert(e == (age, name));
                            }
                        }
                        assert(keys_ge(inner, la));
                        assert(ord(inner));
                        assert(ord(res));
                    }
                },
                TreeModel::Empty => {
                    assert(false);
                },
            }
        },
        TreeModel::Empty => {
            assert(false);
        },
    }
}

/// A left rotation of a right-heavy node preserves the entries and the
/// ordering invariant.
pub proof fn lemma_rot_left_props(m: TreeModel)
    requires
        bf(m) <= -1,
    ensures
        entries(rot_left(m)) == entries(m),
        ord(m) ==> ord(rot_left(m)),
{
    match m {
        TreeModel::Branch { age, name, left, right } => {
            match *right {
                TreeModel::Branch { age: ra, name: rn, left: rl, right: rr } => {
                    let inner = TreeModel::Branch { age, name, left, right: rl };
                    let res = TreeModel::Branch {
                        age: ra,
                        name: rn,
                        left: Box::new(inner),
                        right: rr,
                    };
                    assert(rot_left(m) == res);
                    assert forall|e: Entry| entries(res).count(e) == entries(m).count(e) by {
                        lemma_entries_branch(age, name, left, right, e);
                        lemma_entries_branch(ra, rn, rl, rr, e);
                        lemma_entries_branch(age, name, left, rl, e);
                        lemma_entries_branch(ra, rn, Box::new(inner), rr, e);
                    }
                    assert(entries(res) =~= entries(m));
                    if ord(m) {
                        assert(keys_le(*left, age));
                        assert(keys_ge(*right, age));
                        assert(ord(*right));
                        assert(keys_le(*rl, ra) && keys_ge(*rr, ra));
                        assert(ord(*rl) && ord(*rr));
                        assert(ord(*left));
                        assert(entries(*right).count((ra, rn)) > 0) by {
                            lemma_entries_branch(ra, rn, rl, rr, (ra, rn));
                        }
                        assert(ra >= age);
                        assert forall|e: Entry| #[trigger] entries(*rl).count(e) > 0 implies e.0
                            >= age by {
                            lemma_entries_branch(ra, rn, rl, rr, e);
                            assert(entries(*right).count(e) > 0);
                        }
                        assert(keys_ge(*rl, age));
                        assert forall|e: Entry| #[trigger] entries(inner).count(e) > 0 implies e.0
                            <= ra by {
                            lemma_entries_branch(age, name, left, rl, e);
                            if entries(*left).count(e) > 0 {
                                assert(e.0 <= age);
                            } else if entries(*rl).count(e) > 0 {
                                assert(e.0 <= ra);
                            } else {
                                assert(e == (age, name));
                            }
                        }
                        assert(keys_le(inner, ra));
                        assert(ord(inner));
                        assert(ord(res));
                    }
                },
                TreeModel::Empty => {
                    assert(false);
                },
            }
        },
        TreeModel::Empty => {
            assert(false);
        },
    }
}

/// The rebalance dispatcher restores the AVL invariant of a node whose
/// children are well-formed and whose own balance factor is off by at most
/// one rotation's worth, preserving the entries and the ordering, moving the
/// height by at most one, and leaving an already balanced node unchanged.
pub proof fn lemma_balance_props(m: TreeModel)
    requires
        m is Branch,
        ord(m),
        balanced_children(m),
        -2 <= bf(m) <= 2,
    ensures
        wf(spec_balance(m)),
        entries(spec_balance(m)) == entries(m),
        mheight(m) as int - 1 <= mheight(spec_balance(m)) as int <= mheight(m) as int,
        -1 <= bf(m) <= 1 ==> spec_balance(m) == m,
{
    match m {
        TreeModel::Empty => {
            assert(false);
        },
        TreeModel::Branch { age, name, left, right } => {
            let b = bf(m);
            let hl = mheight(*left) as int;
            let hr = mheight(*right) as int;
            if -1 <= b <= 1 {
                assert(spec_balance(m) == m);
                assert(balanced(m));
            } else if b == 2 {
                assert(hl == hr + 2);
                match *left {
                    TreeModel::Empty => {
                        assert(false);
                    },
                    TreeModel::Branch { age: la, name: ln, left: ll, right: lr } => {
                        assert(balanced(*left));
                        assert(keys_le(*left, age) && keys_ge(*right, age) && ord(*left) && ord(
                            *right,
                        ));
                        let bl = bf(*left);
                        assert(-1 <= bl <= 1);
                        let hll = mheight(*ll) as int;
                        let hlr = mheight(*lr) as int;
                        assert(hl == 1 + if hll >= hlr {
                            hll
                        } else {
                            hlr
                        });
                        if bl >= 0 {
                            lemma_rot_right_props(m);
                            let inner = TreeModel::Branch { age, name, left: lr, right };
                            let res = TreeModel::Branch {
                                age: la,
                                name: ln,
                                left: ll,
                                right: Box::new(inner),
                            };
                            assert(spec_balance(m) == res);
                            assert(mheight(inner) as int == 1 + if hlr >= hr {
                                hlr
                            } else {
                                hr
                            });
                            assert(balanced(*ll) && balanced(*lr) && balanced(*right));
                            assert(balanced(inner));
                            assert(balanced(res));
                            assert(mheight(res) as int == if bl == 0 {
                                hl + 1
                            } else {
                                hl
                            });
                        } else {
                            // left-right case: first rotate the left child left
                            assert(bl == -1);
                            lemma_rot_left_props(*left);
                            lemma_rot_left_height(*left);
                            match *lr {
                                TreeModel::Empty => {
                                    assert(false);
                                },
                                TreeModel::Branch {
                                    age: lra,
                                    name: lrn,
                                    left: lrl,
                                    right: lrr,
                                } => {
                                    assert(balanced(*lr));
                                    let hlrl = mheight(*lrl) as int;
                                    let hlrr = mheight(*lrr) as int;
                                    assert(hlr == 1 + if hlrl >= hlrr {
                                        hlrl
                                    } else {
                                        hlrr
                                    });
                                    let low = TreeModel::Branch {
                                        age: la,
                                        name: ln,
                                        left: ll,
                                        right: lrl,
                                    };
                                    let l2 = TreeModel::Branch {
                                        age: lra,
                                        name: lrn,
                                        left: Box::new(low),
                                        right: lrr,
                                    };
                                    assert(rot_left(*left) == l2);
                                    assert(mheight(low) as int == 1 + if hll >= hlrl {
                                        hll
                                    } else {
                                        hlrl
                                    });
                                    let m2 = TreeModel::Branch {
                                        age,
                                        name,
                                        left: Box::new(l2),
                                        right,
                                    };
                                    assert(spec_balance(m) == rot_right(m2));
                                    // entries of the intermediate tree
                                    assert forall|e: Entry|
                                        entries(m2).count(e) == entries(m).count(e) by {
                                        lemma_entries_branch(age, name, left, right, e);
                                        lemma_entries_branch(age, name, Box::new(l2), right, e);
                                        assert(entries(l2).count(e) == entries(*left).count(e));
                                    }
                                    assert(entries(m2) =~= entries(m));
                                    // ordering of the intermediate tree
                                    assert forall|e: Entry| #[trigger] entries(l2).count(e) > 0
                                        implies e.0 <= age by {
                                        assert(entries(l2).count(e) == entries(*left).count(e));
                                    }
                                    assert(keys_le(l2, age));
                                    assert(ord(l2));
                                    assert(ord(m2));
                                    assert(bf(m2) >= 1);
                                    lemma_rot_right_props(m2);
                                    let innr = TreeModel::Branch { age, name, left: lrr, right };
                                    let res = TreeModel::Branch {
                                        age: lra,
                                        name: lrn,
                                        left: Box::new(low),
                                        right: Box::new(innr),
                                    };
                                    assert(rot_right(m2) == res);
                                    assert(mheight(innr) as int == 1 + if hlrr >= hr {
                                        hlrr
                                    } else {
                                        hr
                                    });
                                    assert(balanced(*ll) && balanced(*lrl) && balanced(*lrr)
                                        && balanced(*right));
                                    assert(hll == hl - 2 && hlr == hl - 1 && hr == hl - 2);
                                    assert(balanced(low));
                                    assert(balanced(innr));
                                    assert(balanced(res));
                                    assert(mheight(res) as int == hl);
                                },
                            }
                        }
                    },
                }
            } else {
                assert(b == -2);
                assert(hr == hl + 2);
                match *right {
                    TreeModel::Empty => {
                        assert(false);
                    },
                    TreeModel::Branch { age: ra, name: rn, left: rl, right: rr } => {
                        assert(balanced(*right));
                        assert(keys_le(*left, age) && keys_ge(*right, age) && ord(*left) && ord(
                            *right,
                        ));
                        let br = bf(*right);
                        assert(-1 <= br <= 1);
                        let hrl = mheight(*rl) as int;
                        let hrr = mheight(*rr) as int;
                        assert(hr == 1 + if hrl >= hrr {
                            hrl
                        } else {
                            hrr
                        });
                        if br <= 0 {
                            lemma_rot_left_props(m);
                            let inner = TreeModel::Branch { age, name, left, right: rl };
                            let res = TreeModel::Branch {
                                age: ra,
                                name: rn,
                                left: Box::new(inner),
                                right: rr,
                            };
                            assert(spec_balance(m) == res);
                            assert(mheight(inner) as int == 1 + if hl >= hrl {
                                hl
                            } else {
                                hrl
                            });
                            assert(balanced(*rl) && balanced(*rr) && balanced(*left));
                            assert(balanced(inner));
                            assert(balanced(res));
                            assert(mheight(res) as int == if br == 0 {
                                hr + 1
                            } else {
                                hr
                            });
                        } else {
                            // right-left case: first rotate the right child right
                            assert(br == 1);
                            lemma_rot_right_props(*right);
                            lemma_rot_right_height(*right);
                            match *rl {
                                TreeModel::Empty => {
                                    assert(false);
                                },
                                TreeModel::Branch {
                                    age: rla,
                                    name: rln,
                                    left: rll,
                                    right: rlr,
                                } => {
                                    assert(balanced(*rl));
                                    let hrll = mheight(*rll) as int;
                                    let hrlr = mheight(*rlr) as int;
                                    assert(hrl == 1 + if hrll >= hrlr {
                                        hrll
                                    } else {
                                        hrlr
                                    });
                                    let high = TreeModel::Branch {
                                        age: ra,
                                        name: rn,
                                        left: rlr,
                                        right: rr,
                                    };
                                    let r2 = TreeModel::Branch {
                                        age: rla,
                                        name: rln,
                                        left: rll,
                                        right: Box::new(high),
                                    };
                                    assert(rot_right(*right) == r2);
                                    assert(mheight(high) as int == 1 + if hrlr >= hrr {
                                        hrlr
                                    } else {
                                        hrr
                                    });
                                    let m2 = TreeModel::Branch {
                                        age,
                                        name,
                                        left,
                                        right: Box::new(r2),
                                    };
                                    assert(spec_balance(m) == rot_left(m2));
                                    assert forall|e: Entry|
                                        entries(m2).count(e) == entries(m).count(e) by {
                                        lemma_entries_branch(age, name, left, right, e);
                                        lemma_entries_branch(age, name, left, Box::new(r2), e);
                                        assert(entries(r2).count(e) == entries(*right).count(e));
                                    }
                                    assert(entries(m2) =~= entries(m));
                                    assert forall|e: Entry| #[trigger] entries(r2).count(e) > 0
                                        implies e.0 >= age by {
                                        assert(entries(r2).count(e) == entries(*right).count(e));
                                    }
                                    assert(keys_ge(r2, age));
                                    assert(ord(r2));
                                    assert(ord(m2));
                                    assert(bf(m2) <= -1);
                                    lemma_rot_left_props(m2);
                                    let innl = TreeModel::Branch { age, name, left, right: rll };
                                    let res = TreeModel::Branch {
                                        age: rla,
                                        name: rln,
                                        left: Box::new(innl),
                                        right: Box::new(high),
                                    };
                                    assert(rot_left(m2) == res);
                                    assert(mheight(innl) as int == 1 + if hl >= hrll {
                                        hl
                                    } else {
                                        hrll
                                    });
                                    assert(balanced(*rr) && balanced(*rll) && balanced(*rlr)
                                        && balanced(*left));
                                    assert(hrr == hr - 2 && hrl == hr - 1 && hl == hr - 2);
                                    assert(balanced(innl));
                                    assert(balanced(high));
                                    assert(balanced(res));
                                    assert(mheight(res) as int == hr);
                                },
                            }
                        }
                    },
                }
            }
        },
    }
}

/// A right rotation of a left-heavy node moves the subtree height by at most
/// one.
pub proof fn lemma_rot_right_height(m: TreeModel)
    requires
        bf(m) >= 1,
    ensures
        mheight(m) as int - 1 <= mheight(rot_right(m)) as int <= mheight(m) as int,
{
    match m {
        TreeModel::Branch { age, name, left, right } => {
            match *left {
                TreeModel::Branch { age: la, name: ln, left: ll, right: lr } => {
                    let inner = TreeModel::Branch { age, name, left: lr, right };
                    assert(mheight(inner) == 1 + if mheight(*lr) >= mheight(*right) {
                        mheight(*lr)
                    } else {
                        mheight(*right)
                    });
                },
                TreeModel::Empty => {
                    assert(mheight(*left) == 0);
                    assert(false);
                },
            }
        },
        TreeModel::Empty => {
            assert(false);
        },
    }
}

/// A left rotation of a right-heavy node moves the subtree height by at most
/// one.
pub proof fn lemma_rot_left_height(m: TreeModel)
    requires
        bf(m) <= -1,
    ensures
        mheight(m) as int - 1 <= mheight(rot_left(m)) as int <= mheight(m) as int,
{
    match m {
        TreeModel::Branch { age, name, left, right } => {
            match *right {
                TreeModel::Branch { age: ra, name: rn, left: rl, right: rr } => {
                    let inner = TreeModel::Branch { age, name, left, right: rl };
                    assert(mheight(inner) == 1 + if mheight(*left) >= mheight(*rl) {
                        mheight(*left)
                    } else {
                        mheight(*rl)
                    });
                },
                TreeModel::Empty => {
                    assert(mheight(*right) == 0);
                    assert(false);
                },
            }
        },
        TreeModel::Empty => {
            assert(false);
        },
    }
}

/// The rebalance dispatcher never increases the height of the node it is
/// given, whatever the shape.
pub proof fn lemma_balance_height_le(m: TreeModel)
    ensures
        mheight(spec_balance(m)) <= mheight(m),
{
    match m {
        TreeModel::Empty => {},
        TreeModel::Branch { age, name, left, right } => {
            let b = bf(m);
            if b > 1 {
                if bf(*left) >= 0 {
                    lemma_rot_right_height(m);
                } else {
                    lemma_rot_left_height(*left);
                    let m2 = TreeModel::Branch {
                        age,
                        name,
                        left: Box::new(rot_left(*left)),
                        right,
                    };
                    assert(bf(m2) >= 1);
                    assert(mheight(m2) <= mheight(m));
                    lemma_rot_right_height(m2);
                }
            } else if b < -1 {
                if bf(*right) <= 0 {
                    lemma_rot_left_height(m);
                } else {
                    lemma_rot_right_height(*right);
                    let m2 = TreeModel::Branch {
                        age,
                        name,
                        left,
                        right: Box::new(rot_right(*right)),
                    };
                    assert(bf(m2) <= -1);
                    assert(mheight(m2) <= mheight(m));
                    lemma_rot_left_height(m2);
                }
            }
        },
    }
}

/// Insertion preserves well-formedness (the balance invariant and the
/// ordering), moves the height by at most one, and either adds exactly one
/// occurrence of the given entry or returns the tree unchanged; the latter
/// can happen only when the entry is already present.
pub proof fn lemma_insert_props(m: TreeModel, a: int, n: Seq<char>)
    requires
        wf(m),
    ensures
        wf(spec_insert(m, a, n)),
        mheight(m) as int - 1 <= mheight(spec_insert(m, a, n)) as int <= mheight(m) as int + 1,
        entries(spec_insert(m, a, n)) == entries(m).insert((a, n)) || (spec_insert(m, a, n) == m
            && entries(m).count((a, n)) > 0),
    decreases m,
{
    match m {
        TreeModel::Empty => {
            let res = TreeModel::Branch {
                age: a,
                name: n,
                left: Box::new(TreeModel::Empty),
                right: Box::new(TreeModel::Empty),
            };
            assert(spec_insert(m, a, n) == res);
            assert forall|e: Entry| entries(res).count(e) == entries(m).insert((a, n)).count(
                e,
            ) by {
                lemma_entries_branch(a, n, Box::new(TreeModel::Empty), Box::new(TreeModel::Empty), e);
                assert(Multiset::singleton((a, n)).count(e) == (if e == (a, n) {
                    1nat
                } else {
                    0nat
                }));
            }
            assert(entries(res) =~= entries(m).insert((a, n)));
            assert forall|e: Entry| #[trigger] entries(TreeModel::Empty).count(e) > 0 implies e.0
                <= a by {}
            assert(keys_le(TreeModel::Empty, a) && keys_ge(TreeModel::Empty, a));
            assert(wf(res));
        },
        TreeModel::Branch { age, name, left, right } => {
            assert(keys_le(*left, age) && keys_ge(*right, age) && ord(*left) && ord(*right));
            assert(balanced(*left) && balanced(*right));
            if a == age && n == name {
                assert(entries(m).count((a, n)) > 0) by {
                    lemma_entries_branch(age, name, left, right, (a, n));
                }
            } else if a > age {
                lemma_insert_props(*right, a, n);
                let r2 = spec_insert(*right, a, n);
                let m2 = TreeModel::Branch { age, name, left, right: Box::new(r2) };
                assert(spec_insert(m, a, n) == spec_balance(m2));
                if entries(r2) == entries(*right).insert((a, n)) {
                    assert forall|e: Entry| #[trigger] entries(r2).count(e) > 0 implies e.0
                        >= age by {
                        assert(entries(r2).count(e) == entries(*right).insert((a, n)).count(e));
                        assert(Multiset::singleton((a, n)).count(e) == (if e == (a, n) {
                            1nat
                        } else {
                            0nat
                        }));
                        if entries(*right).count(e) > 0 {
                        } else {
                            assert(e == (a, n));
                        }
                    }
                    assert(keys_ge(r2, age));
                    assert(ord(m2));
                    lemma_balance_props(m2);
                    assert forall|e: Entry| entries(m2).count(e) == entries(m).insert(
                        (a, n),
                    ).count(e) by {
                        lemma_entries_branch(age, name, left, right, e);
                        lemma_entries_branch(age, name, left, Box::new(r2), e);
                        assert(Multiset::singleton((a, n)).count(e) == (if e == (a, n) {
                            1nat
                        } else {
                            0nat
                        }));
                    }
                    assert(entries(m2) =~= entries(m).insert((a, n)));
                } else {
                    assert(r2 == *right && entries(*right).count((a, n)) > 0);
                    assert(m2 == m);
                    lemma_balance_props(m2);
                    assert(spec_balance(m2) == m);
                    assert(entries(m).count((a, n)) > 0) by {
                        lemma_entries_branch(age, name, left, right, (a, n));
                    }
                }
            } else {
                lemma_insert_props(*left, a, n);
                let l2 = spec_insert(*left, a, n);
                let m2 = TreeModel::Branch { age, name, left: Box::new(l2), right };
                assert(spec_insert(m, a, n) == spec_balance(m2));
                if entries(l2) == entries(*left).insert((a, n)) {
                    assert forall|e: Entry| #[trigger] entries(l2).count(e) > 0 implies e.0
                        <= age by {
                        assert(entries(l2).count(e) == entries(*left).insert((a, n)).count(e));
                        assert(Multiset::singleton((a, n)).count(e) == (if e == (a, n) {
                            1nat
                        } else {
                            0nat
                        }));
                        if entries(*left).count(e) > 0 {
                        } else {
                            assert(e == (a, n));
                            assert(a <= age);
                        }
                    }
                    assert(keys_le(l2, age));
                    assert(ord(m2));
                    lemma_balance_props(m2);
                    assert forall|e: Entry| entries(m2).count(e) == entries(m).insert(
                        (a, n),
                    ).count(e) by {
                        lemma_entries_branch(age, name, left, right, e);
                        lemma_entries_branch(age, name, Box::new(l2), right, e);
                        assert(Multiset::singleton((a, n)).count(e) == (if e == (a, n) {
                            1nat
                        } else {
                            0nat
                        }));
                    }
                    assert(entries(m2) =~= entries(m).insert((a, n)));
                } else {
                    assert(l2 == *left && entries(*left).count((a, n)) > 0);
                    assert(m2 == m);
                    lemma_balance_props(m2);
                    assert(spec_balance(m2) == m);
                    assert(entries(m).count((a, n)) > 0) by {
                        lemma_entries_branch(age, name, left, right, (a, n));
                    }
                }
            }
        },
    }
}

/// The leftmost node's entry is present and has the smallest age in the
/// subtree.
pub proof fn lemma_leftmost(m: TreeModel)
    requires
        ord(m),
        m is Branch,
    ensures
        entries(m).count(leftmost(m)) > 0,
        forall|e: Entry| #[trigger] entries(m).count(e) > 0 ==> leftmost(m).0 <= e.0,
    decreases m,
{
    match m {
        TreeModel::Empty => {
            assert(false);
        },
        TreeModel::Branch { age, name, left, right } => {
            assert(keys_le(*left, age) && keys_ge(*right, age) && ord(*left) && ord(*right));
            if *left is Branch {
                lemma_leftmost(*left);
                let lm = leftmost(*left);
                assert(leftmost(m) == lm);
                assert(entries(m).count(lm) > 0) by {
                    lemma_entries_branch(age, name, left, right, lm);
                }
                assert(lm.0 <= age);
                assert forall|e: Entry| #[trigger] entries(m).count(e) > 0 implies lm.0 <= e.0 by {
                    lemma_entries_branch(age, name, left, right, e);
                    if entries(*left).count(e) > 0 {
                    } else if entries(*right).count(e) > 0 {
                        assert(e.0 >= age);
                    } else {
                        assert(e == (age, name));
                    }
                }
            } else {
                assert(leftmost(m) == (age, name));
                assert(entries(m).count((age, name)) > 0) by {
                    lemma_entries_branch(age, name, left, right, (age, name));
                }
                assert forall|e: Entry| #[trigger] entries(m).count(e) > 0 implies age <= e.0 by {
                    lemma_entries_branch(age, name, left, right, e);
                    assert(entries(*left).count(e) == 0);
                    if entries(*right).count(e) > 0 {
                        assert(e.0 >= age);
                    } else {
                        assert(e == (age, name));
                    }
                }
            }
        },
    }
}

/// Under the ordering invariant, the age-only search of `find` answers
/// exactly whether some entry with the given age is present anywhere in the
/// subtree.
pub proof fn lemma_find_is_membership(m: TreeModel, a: int)
    requires
        ord(m),
    ensures
        spec_find(m, a) == contains_age(m, a),
    decreases m,
{
    match m {
        TreeModel::Empty => {
            assert(!contains_age(m, a)) by {
                if contains_age(m, a) {
                    let e = choose|e: Entry| #[trigger] entries(m).count(e) > 0 && e.0 == a;
                    assert(entries(m).count(e) == 0);
                }
            }
        },
        TreeModel::Branch { age, name, left, right } => {
            assert(keys_le(*left, age) && keys_ge(*right, age) && ord(*left) && ord(*right));
            if a == age {
                assert(entries(m).count((age, name)) > 0) by {
                    lemma_entries_branch(age, name, left, right, (age, name));
                }
                assert(contains_age(m, a));
            } else if a < age {
                lemma_find_is_membership(*left, a);
                if contains_age(m, a) {
                    let e = choose|e: Entry| #[trigger] entries(m).count(e) > 0 && e.0 == a;
                    lemma_entries_branch(age, name, left, right, e);
                    assert(entries(*right).count(e) == 0);
                    assert(entries(*left).count(e) > 0);
                    assert(contains_age(*left, a));
                }
                if contains_age(*left, a) {
                    let e = choose|e: Entry| #[trigger] entries(*left).count(e) > 0 && e.0 == a;
                    lemma_entries_branch(age, name, left, right, e);
                    assert(entries(m).count(e) > 0);
                    assert(contains_age(m, a));
                }
            } else {
                lemma_find_is_membership(*right, a);
                if contains_age(m, a) {
                    let e = choose|e: Entry| #[trigger] entries(m).count(e) > 0 && e.0 == a;
                    lemma_entries_branch(age, name, left, right, e);
                    assert(entries(*left).count(e) == 0);
                    assert(entries(*right).count(e) > 0);
                    assert(contains_age(*right, a));
                }
                if contains_age(*right, a) {
                    let e = choose|e: Entry| #[trigger] entries(*right).count(e) > 0 && e.0 == a;
                    lemma_entries_branch(age, name, left, right, e);
                    assert(entries(m).count(e) > 0);
                    assert(contains_age(m, a));
                }
            }
        },
    }
}

/// Insertion grows the height of a subtree by at most one.
pub proof fn lemma_insert_height(m: TreeModel, a: int, n: Seq<char>)
    ensures
        mheight(spec_insert(m, a, n)) <= mheight(m) + 1,
    decreases m,
{
    match m {
        TreeModel::Empty => {},
        TreeModel::Branch { age, name, left, right } => {
            if a == age && n == name {
            } else if a > age {
                lemma_insert_height(*right, a, n);
                lemma_balance_height_le(
                    TreeModel::Branch {
                        age,
                        name,
                        left,
                        right: Box::new(spec_insert(*right, a, n)),
                    },
                );
            } else {
                lemma_insert_height(*left, a, n);
                lemma_balance_height_le(
                    TreeModel::Branch {
                        age,
                        name,
                        left: Box::new(spec_insert(*left, a, n)),
                        right,
                    },
                );
            }
        },
    }
}

/// Removal preserves well-formedness (the balance invariant and the
/// ordering) and shrinks the height by at most one. Its effect on the
/// entries: it removes one occurrence of the given entry, or returns the
/// tree unchanged; an entry that is absent always leaves the tree unchanged;
/// the entry of the leftmost node is always removed; and an entry that is
/// the only one of its age is always removed.
pub proof fn lemma_erase_props(m: TreeModel, a: int, n: Seq<char>)
    requires
        wf(m),
    ensures
        wf(spec_erase(m, a, n)),
        mheight(m) as int - 1 <= mheight(spec_erase(m, a, n)) as int <= mheight(m) as int,
        (entries(spec_erase(m, a, n)) == entries(m).remove((a, n)) && entries(m).count((a, n)) > 0)
            || spec_erase(m, a, n) == m,
        entries(m).count((a, n)) == 0 ==> spec_erase(m, a, n) == m,
        m is Branch && (a, n) == leftmost(m) ==> entries(spec_erase(m, a, n)) == entries(m).remove(
            (a, n),
        ),
        entries(m).count((a, n)) > 0 && age_unique(m, a, n) ==> entries(spec_erase(m, a, n))
            == entries(m).remove((a, n)),
    decreases m,
{
    match m {
        TreeModel::Empty => {
            assert(entries(m).count((a, n)) == 0);
        },
        TreeModel::Branch { age, name, left, right } => {
            assert(keys_le(*left, age) && keys_ge(*right, age) && ord(*left) && ord(*right));
            assert(balanced(*left) && balanced(*right));
            let hl = mheight(*left) as int;
            let hr = mheight(*right) as int;
            lemma_entries_branch(age, name, left, right, (a, n));
            lemma_leftmost(m);
            if a < age || (a == age && n != name) {
                lemma_erase_props(*left, a, n);
                let l2 = spec_erase(*left, a, n);
                let m2 = TreeModel::Branch { age, name, left: Box::new(l2), right };
                assert(spec_erase(m, a, n) == spec_balance(m2));
                // entries of the erased child never exceed the old ones
                assert forall|e: Entry| entries(l2).count(e) <= entries(*left).count(e) by {
                    if entries(l2) == entries(*left).remove((a, n)) {
                        assert(Multiset::singleton((a, n)).count(e) == (if e == (a, n) {
                            1nat
                        } else {
                            0nat
                        }));
                    }
                }
                assert forall|e: Entry| #[trigger] entries(l2).count(e) > 0 implies e.0 <= age by {
                    assert(entries(*left).count(e) > 0);
                }
                assert(keys_le(l2, age));
                assert(ord(m2));
                lemma_balance_props(m2);
                if l2 == *left {
                    assert(m2 == m);
                    assert(spec_erase(m, a, n) == m);
                } else {
                    assert(entries(l2) == entries(*left).remove((a, n)) && entries(*left).count(
                        (a, n),
                    ) > 0);
                    assert forall|e: Entry|
                        entries(m2).count(e) == entries(m).remove((a, n)).count(e) by {
                        lemma_entries_branch(age, name, left, right, e);
                        lemma_entries_branch(age, name, Box::new(l2), right, e);
                        assert(Multiset::singleton((a, n)).count(e) == (if e == (a, n) {
                            1nat
                        } else {
                            0nat
                        }));
                    }
                    assert(entries(m2) =~= entries(m).remove((a, n)));
                }
                // the entry cannot hide elsewhere when it is absent on the left
                if entries(m).count((a, n)) == 0 {
                    assert(entries(*left).count((a, n)) == 0);
                    assert(spec_erase(m, a, n) == m);
                }
                // the leftmost entry always lies on the left search path
                if (a, n) == leftmost(m) {
                    if *left is Empty {
                        assert(leftmost(m) == (age, name));
                        assert(false);
                    } else {
                        assert(leftmost(m) == leftmost(*left));
                        lemma_leftmost(*left);
                        assert(entries(*left).count((a, n)) > 0);
                    }
                }
                // a unique-aged entry lies on the left search path too
                if entries(m).count((a, n)) > 0 && age_unique(m, a, n) {
                    if a == age {
                        assert(entries(m).count((age, name)) > 0) by {
                            lemma_entries_branch(age, name, left, right, (age, name));
                        }
                        assert((age, name) == (a, n));
                        assert(false);
                    } else {
                        assert(entries(*right).count((a, n)) == 0);
                        assert(entries(*left).count((a, n)) > 0);
                        assert forall|e: Entry| #[trigger] entries(*left).count(e) > 0 && e.0 == a
                            implies e == (a, n) by {
                            lemma_entries_branch(age, name, left, right, e);
                        }
                        assert(age_unique(*left, a, n));
                    }
                }
            } else if a > age {
                lemma_erase_props(*right, a, n);
                let r2 = spec_erase(*right, a, n);
                let m2 = TreeModel::Branch { age, name, left, right: Box::new(r2) };
                assert(spec_erase(m, a, n) == spec_balance(m2));
                assert forall|e: Entry| entries(r2).count(e) <= entries(*right).count(e) by {
                    if entries(r2) == entries(*right).remove((a, n)) {
                        assert(Multiset::singleton((a, n)).count(e) == (if e == (a, n) {
                            1nat
                        } else {
                            0nat
                        }));
                    }
                }
                assert forall|e: Entry| #[trigger] entries(r2).count(e) > 0 implies e.0 >= age by {
                    assert(entries(*right).count(e) > 0);
                }
                assert(keys_ge(r2, age));
                assert(ord(m2));
                lemma_balance_props(m2);
                if r2 == *right {
                    assert(m2 == m);
                    assert(spec_erase(m, a, n) == m);
                } else {
                    assert(entries(r2) == entries(*right).remove((a, n)) && entries(*right).count(
                        (a, n),
                    ) > 0);
                    assert forall|e: Entry|
                        entries(m2).count(e) == entries(m).remove((a, n)).count(e) by {
                        lemma_entries_branch(age, name, left, right, e);
                        lemma_entries_branch(age, name, left, Box::new(r2), e);
                        assert(Multiset::singleton((a, n)).count(e) == (if e == (a, n) {
                            1nat
                        } else {
                            0nat
                        }));
                    }
                    assert(entries(m2) =~= entries(m).remove((a, n)));
                }
                if entries(m).count((a, n)) == 0 {
                    assert(entries(*right).count((a, n)) == 0);
                    assert(spec_erase(m, a, n) == m);
                }
                // the leftmost entry has the least age, so it never lies right
                if (a, n) == leftmost(m) {
                    assert(entries(m).count((age, name)) > 0) by {
                        lemma_entries_branch(age, name, left, right, (age, name));
                    }
                    assert(leftmost(m).0 <= age);
                    assert(false);
                }
                if entries(m).count((a, n)) > 0 && age_unique(m, a, n) {
                    assert(entries(*left).count((a, n)) == 0);
                    assert(entries(*right).count((a, n)) > 0);
                    assert forall|e: Entry| #[trigger] entries(*right).count(e) > 0 && e.0 == a
                        implies e == (a, n) by {
                        lemma_entries_branch(age, name, left, right, e);
                    }
                    assert(age_unique(*right, a, n));
                }
            } else {
                // a == age && n == name: this node's entry is removed
                assert((a, n) == (age, name));
                if *left is Empty && *right is Empty {
                    assert forall|e: Entry|
                        entries(TreeModel::Empty).count(e) == entries(m).remove((a, n)).count(
                            e,
                        ) by {
                        lemma_entries_branch(age, name, left, right, e);
                        assert(Multiset::singleton((a, n)).count(e) == (if e == (a, n) {
                            1nat
                        } else {
                            0nat
                        }));
                    }
                    assert(entries(TreeModel::Empty) =~= entries(m).remove((a, n)));
                } else if *left is Empty {
                    lemma_balance_props(*right);
                    assert(spec_erase(m, a, n) == *right);
                    assert forall|e: Entry|
                        entries(*right).count(e) == entries(m).remove((a, n)).count(e) by {
                        lemma_entries_branch(age, name, left, right, e);
                        assert(Multiset::singleton((a, n)).count(e) == (if e == (a, n) {
                            1nat
                        } else {
                            0nat
                        }));
                    }
                    assert(entries(*right) =~= entries(m).remove((a, n)));
                } else if *right is Empty {
                    lemma_balance_props(*left);
                    assert(spec_erase(m, a, n) == *left);
                    assert forall|e: Entry|
                        entries(*left).count(e) == entries(m).remove((a, n)).count(e) by {
                        lemma_entries_branch(age, name, left, right, e);
                        assert(Multiset::singleton((a, n)).count(e) == (if e == (a, n) {
                            1nat
                        } else {
                            0nat
                        }));
                    }
                    assert(entries(*left) =~= entries(m).remove((a, n)));
                } else {
                    // two children: the in-order successor replaces the entry
                    let s = leftmost(*right);
                    lemma_leftmost(*right);
                    assert(entries(*right).count(s) > 0);
                    assert(s.0 >= age);
                    lemma_erase_props(*right, s.0, s.1);
                    let r2 = spec_erase(*right, s.0, s.1);
                    assert(entries(r2) == entries(*right).remove(s));
                    let m2 = TreeModel::Branch { age: s.0, name: s.1, left, right: Box::new(r2) };
                    assert(spec_erase(m, a, n) == spec_balance(m2));
                    assert forall|e: Entry| #[trigger] entries(*left).count(e) > 0 implies e.0
                        <= s.0 by {}
                    assert(keys_le(*left, s.0));
                    assert forall|e: Entry| #[trigger] entries(r2).count(e) > 0 implies e.0
                        >= s.0 by {
                        assert(Multiset::singleton(s).count(e) == (if e == s {
                            1nat
                        } else {
                            0nat
                        }));
                        assert(entries(*right).count(e) > 0);
                    }
                    assert(keys_ge(r2, s.0));
                    assert(ord(m2));
                    lemma_balance_props(m2);
                    assert forall|e: Entry|
                        entries(m2).count(e) == entries(m).remove((a, n)).count(e) by {
                        lemma_entries_branch(age, name, left, right, e);
                        lemma_entries_branch(s.0, s.1, left, Box::new(r2), e);
                        assert(Multiset::singleton((a, n)).count(e) == (if e == (a, n) {
                            1nat
                        } else {
                            0nat
                        }));
                        assert(Multiset::singleton(s).count(e) == (if e == s {
                            1nat
                        } else {
                            0nat
                        }));
                    }
                    assert(entries(m2) =~= entries(m).remove((a, n)));
                }
            }
        },
    }
}

/// Inserting an entry that is already present, and that is the only kind of
/// entry with its age, leaves the tree exactly unchanged: the search by age
/// must meet that entry and stop.
pub proof fn lemma_insert_unique_noop(m: TreeModel, a: int, n: Seq<char>)
    requires
        wf(m),
        entries(m).count((a, n)) > 0,
        age_unique(m, a, n),
    ensures
        spec_insert(m, a, n) == m,
    decreases m,
{
    match m {
        TreeModel::Empty => {
            assert(entries(m).count((a, n)) == 0);
        },
        TreeModel::Branch { age, name, left, right } => {
            assert(keys_le(*left, age) && keys_ge(*right, age) && ord(*left) && ord(*right));
            assert(balanced(*left) && balanced(*right));
            lemma_entries_branch(age, name, left, right, (a, n));
            if a == age {
                assert(entries(m).count((age, name)) > 0) by {
                    lemma_entries_branch(age, name, left, right, (age, name));
                }
                assert((age, name) == (a, n));
                assert(spec_insert(m, a, n) == m);
            } else if a > age {
                assert(entries(*left).count((a, n)) == 0);
                assert(entries(*right).count((a, n)) > 0);
                assert forall|e: Entry| #[trigger] entries(*right).count(e) > 0 && e.0 == a
                    implies e == (a, n) by {
                    lemma_entries_branch(age, name, left, right, e);
                }
                lemma_insert_unique_noop(*right, a, n);
                let m2 = TreeModel::Branch {
                    age,
                    name,
                    left,
                    right: Box::new(spec_insert(*right, a, n)),
                };
                assert(m2 == m);
                lemma_balance_props(m2);
                assert(spec_insert(m, a, n) == m);
            } else {
                assert(entries(*right).count((a, n)) == 0);
                assert(entries(*left).count((a, n)) > 0);
                assert forall|e: Entry| #[trigger] entries(*left).count(e) > 0 && e.0 == a
                    implies e == (a, n) by {
                    lemma_entries_branch(age, name, left, right, e);
                }
                lemma_insert_unique_noop(*left, a, n);
                let m2 = TreeModel::Branch {
                    age,
                    name,
                    left: Box::new(spec_insert(*left, a, n)),
                    right,
                };
                assert(m2 == m);
                lemma_balance_props(m2);
                assert(spec_insert(m, a, n) == m);
            }
        },
    }
}

/// Insert idempotence: inserting an entry twice gives exactly the tree that
/// one insertion gives, whenever the tree held no entry with that age
/// beforehand. Since the lookup answer and the textual dump are functions of
/// the tree model, both are unchanged by the second insertion. (When the age
/// is already occupied by differently named entries, a rotation may have
/// carried one of them into a right subtree, the second insertion can miss
/// the first copy, and the shape may change; hence the premise.)
pub proof fn lemma_insert_idempotent(m: TreeModel, a: int, n: Seq<char>)
    requires
        wf(m),
        !contains_age(m, a),
    ensures
        spec_insert(spec_insert(m, a, n), a, n) == spec_insert(m, a, n),
{
    lemma_insert_props(m, a, n);
    let m1 = spec_insert(m, a, n);
    assert(entries(m).count((a, n)) == 0);
    assert(entries(m1) == entries(m).insert((a, n)));
    assert(Multiset::singleton((a, n)).count((a, n)) == 1);
    assert(entries(m1).count((a, n)) > 0);
    assert forall|e: Entry| #[trigger] entries(m1).count(e) > 0 && e.0 == a implies e == (
        a,
        n,
    ) by {
        assert(Multiset::singleton((a, n)).count(e) == (if e == (a, n) {
            1nat
        } else {
            0nat
        }));
        if e != (a, n) {
            assert(entries(m).count(e) > 0);
            assert(contains_age(m, a));
        }
    }
    lemma_insert_unique_noop(m1, a, n);
}

/// Erase completeness: removing an entry that is present and that is the
/// only entry with its age leaves a well-formed tree without it, on which a
/// lookup of that age answers false.
pub proof fn lemma_erase_unique_removes(m: TreeModel, a: int, n: Seq<char>)
    requires
        wf(m),
        entries(m).count((a, n)) == 1,
        age_unique(m, a, n),
    ensures
        wf(spec_erase(m, a, n)),
        entries(spec_erase(m, a, n)) == entries(m).remove((a, n)),
        !contains_entry(spec_erase(m, a, n), a, n),
        !contains_age(spec_erase(m, a, n), a),
        !spec_find(spec_erase(m, a, n), a),
{
    lemma_erase_props(m, a, n);
    let m1 = spec_erase(m, a, n);
    assert(!contains_age(m1, a)) by {
        if contains_age(m1, a) {
            let e = choose|e: Entry| #[trigger] entries(m1).count(e) > 0 && e.0 == a;
            assert(Multiset::singleton((a, n)).count(e) == (if e == (a, n) {
                1nat
            } else {
                0nat
            }));
            if e == (a, n) {
            } else {
                assert(entries(m).count(e) > 0);
            }
        }
    }
    lemma_find_is_membership(m1, a);
}

/// An inserted entry is present afterwards: a lookup of its age answers
/// true.
pub proof fn lemma_insert_then_found(m: TreeModel, a: int, n: Seq<char>)
    requires
        wf(m),
    ensures
        spec_find(spec_insert(m, a, n), a),
{
    lemma_insert_props(m, a, n);
    let m1 = spec_insert(m, a, n);
    assert(entries(m1).count((a, n)) > 0) by {
        if entries(m1) == entries(m).insert((a, n)) {
            assert(Multiset::singleton((a, n)).count((a, n)) == 1);
        }
    }
    assert(contains_age(m1, a));
    lemma_find_is_membership(m1, a);
}

/// Clear totality: in the empty tree every lookup answers false, the dump is
/// exactly `null`, and no entry is held.
pub proof fn lemma_clear_totality(a: int)
    ensures
        !spec_find(TreeModel::Empty, a),
        spec_dump(TreeModel::Empty) == "null"@,
        entries(TreeModel::Empty) == Multiset::<Entry>::empty(),
{
}

/// Removal never grows the height of a subtree.
pub proof fn lemma_erase_height_le(m: TreeModel, a: int, n: Seq<char>)
    ensures
        mheight(spec_erase(m, a, n)) <= mheight(m),
    decreases m,
{
    match m {
        TreeModel::Empty => {},
        TreeModel::Branch { age, name, left, right } => {
            if a < age || (a == age && n != name) {
                lemma_erase_height_le(*left, a, n);
                lemma_balance_height_le(
                    TreeModel::Branch {
                        age,
                        name,
                        left: Box::new(spec_erase(*left, a, n)),
                        right,
                    },
                );
            } else if a > age {
                lemma_erase_height_le(*right, a, n);
                lemma_balance_height_le(
                    TreeModel::Branch {
                        age,
                        name,
                        left,
                        right: Box::new(spec_erase(*right, a, n)),
                    },
                );
            } else {
                if *left is Empty && *right is Empty {
                } else if *left is Empty {
                    lemma_balance_height_le(*right);
                } else if *right is Empty {
                    lemma_balance_height_le(*left);
                } else {
                    let s = leftmost(*right);
                    lemma_erase_height_le(*right, s.0, s.1);
                    lemma_balance_height_le(
                        TreeModel::Branch {
                            age: s.0,
                            name: s.1,
                            left,
                            right: Box::new(spec_erase(*right, s.0, s.1)),
                        },
                    );
                }
            }
        },
    }
}

} // verus!
