//! Code assignment: root-to-leaf paths, and why they are prefix-free.

use vstd::prelude::*;

use crate::tree::{tree_has, HuffmanNode};

verus! {

/// A code table as symbols paired with bit strings.
pub open spec fn table_view(t: Seq<(char, Vec<bool>)>) -> Seq<(char, Seq<bool>)> {
    t.map(|i: int, e: (char, Vec<bool>)| (e.0, e.1@))
}

/// The codes of the leaves under `n`, left to right, each the path from `n`
/// (`false` for a left edge, `true` for a right edge) after `prefix`.
pub open spec fn leaf_codes(n: HuffmanNode, prefix: Seq<bool>) -> Seq<(char, Seq<bool>)>
    decreases n,
{
    match n.ch {
        Some(c) => seq![(c, prefix)],
        None => {
            let l = match n.left {
                Some(b) => leaf_codes(*b, prefix.push(false)),
                None => Seq::empty(),
            };
            let r = match n.right {
                Some(b) => leaf_codes(*b, prefix.push(true)),
                None => Seq::empty(),
            };
            l + r
        },
    }
}

/// The code table of a tree; a lone leaf gets the one-bit code `0`.
pub open spec fn code_table(tree: HuffmanNode) -> Seq<(char, Seq<bool>)> {
    match tree.ch {
        Some(c) => seq![(c, seq![false])],
        None => leaf_codes(tree, Seq::empty()),
    }
}

pub open spec fn is_prefix(a: Seq<bool>, b: Seq<bool>) -> bool {
    a.len() <= b.len() && b.subrange(0, a.len() as int) == a
}

/// No code is a prefix of the code of another entry.
pub open spec fn prefix_free(t: Seq<(char, Seq<bool>)>) -> bool {
    forall|i: int, j: int|
        0 <= i < t.len() && 0 <= j < t.len() && i != j ==> !is_prefix(#[trigger] t[i].1, #[trigger] t[j].1)
}

/// Every code of the table begins with `p`; strictly longer than `p` when
/// `strict` holds.
pub open spec fn all_extend(t: Seq<(char, Seq<bool>)>, p: Seq<bool>, strict: bool) -> bool {
    forall|i: int|
        0 <= i < t.len() ==> is_prefix(p, #[trigger] t[i].1) && (strict ==> t[i].1.len() > p.len())
}

proof fn lemma_leaf_codes(n: HuffmanNode, p: Seq<bool>)
    ensures
        prefix_free(leaf_codes(n, p)),
        all_extend(leaf_codes(n, p), p, n.ch is None),
    decreases n,
{
    if n.ch is None {
        let pl = p.push(false);
        let pr = p.push(true);
        let l = match n.left {
            Some(b) => {
                lemma_leaf_codes(*b, pl);
                leaf_codes(*b, pl)
            },
            None => Seq::empty(),
        };
        let r = match n.right {
            Some(b) => {
                lemma_leaf_codes(*b, pr);
                leaf_codes(*b, pr)
            },
            None => Seq::empty(),
        };
        let t = leaf_codes(n, p);
        assert(t == l + r);
        assert(pl.subrange(0, p.len() as int) =~= p);
        assert(pr.subrange(0, p.len() as int) =~= p);
        assert(all_extend(l, pl, false));
        assert(all_extend(r, pr, false));
        assert forall|i: int| 0 <= i < t.len() implies is_prefix(p, #[trigger] t[i].1) && t[i].1.len() > p.len() by {
            if i < l.len() {
                assert(t[i] == l[i]);
                assert(l[i].1.subrange(0, pl.len() as int) == pl);
                assert(l[i].1.subrange(0, p.len() as int) =~= pl.subrange(0, p.len() as int));
            } else {
                assert(t[i] == r[i - l.len()]);
                assert(r[i - l.len()].1.subrange(0, pr.len() as int) == pr);
                assert(r[i - l.len()].1.subrange(0, p.len() as int) =~= pr.subrange(0, p.len() as int));
            }
        }
        assert forall|i: int, j: int|
            0 <= i < t.len() && 0 <= j < t.len() && i != j implies !is_prefix(#[trigger] t[i].1, #[trigger] t[j].1) by {
            let k = p.len() as int;
            if i < l.len() && j < l.len() {
                assert(t[i] == l[i] && t[j] == l[j]);
            } else if i >= l.len() && j >= l.len() {
                assert(t[i] == r[i - l.len()] && t[j] == r[j - l.len()]);
            } else {
                let a = t[i].1;
                let b = t[j].1;
                if i < l.len() {
                    assert(t[i] == l[i] && t[j] == r[j - l.len()]);
                    assert(a.subrange(0, pl.len() as int) == pl);
                    assert(b.subrange(0, pr.len() as int) == pr);
                    assert(a[k] == pl[k]);
                    assert(b[k] == pr[k]);
                } else {
                    assert(t[i] == r[i - l.len()] && t[j] == l[j]);
                    assert(a.subrange(0, pr.len() as int) == pr);
                    assert(b.subrange(0, pl.len() as int) == pl);
                    assert(a[k] == pr[k]);
                    assert(b[k] == pl[k]);
                }
                if is_prefix(a, b) {
                    assert(b.subrange(0, a.len() as int)[k] == a[k]);
                }
            }
        }
    } else {
        assert(p.subrange(0, p.len() as int) =~= p);
    }
}

proof fn lemma_leaf_codes_has(n: HuffmanNode, p: Seq<bool>, c: char)
    requires
        tree_has(n, c),
    ensures
        exists|k: int| 0 <= k < leaf_codes(n, p).len() && (#[trigger] leaf_codes(n, p)[k]).0 == c,
    decreases n,
{
    if n.ch is None {
        let l = match n.left {
            Some(b) => leaf_codes(*b, p.push(false)),
            None => Seq::empty(),
        };
        let r = match n.right {
            Some(b) => leaf_codes(*b, p.push(true)),
            None => Seq::empty(),
        };
        assert(leaf_codes(n, p) == l + r);
        match n.left {
            Some(b) => {
                if tree_has(*b, c) {
                    lemma_leaf_codes_has(*b, p.push(false), c);
                    let k = choose|k: int| 0 <= k < l.len() && (#[trigger] l[k]).0 == c;
                    assert((l + r)[k] == l[k]);
                }
            },
            None => {},
        }
        match n.right {
            Some(b) => {
                if tree_has(*b, c) {
                    lemma_leaf_codes_has(*b, p.push(true), c);
                    let k = choose|k: int| 0 <= k < r.len() && (#[trigger] r[k]).0 == c;
                    assert((l + r)[l.len() + k] == r[k]);
                }
            },
            None => {},
        }
    } else {
        assert(leaf_codes(n, p)[0].0 == c);
    }
}

/// Every leaf of a tree has an entry in its code table.
pub proof fn lemma_code_table_has(tree: HuffmanNode, c: char)
    requires
        tree_has(tree, c),
    ensures
        exists|k: int| 0 <= k < code_table(tree).len() && (#[trigger] code_table(tree)[k]).0 == c,
{
    if tree.ch is None {
        lemma_leaf_codes_has(tree, Seq::empty(), c);
        let k = choose|k: int|
            0 <= k < leaf_codes(tree, Seq::empty()).len() && (#[trigger] leaf_codes(tree, Seq::empty())[k]).0 == c;
        assert(code_table(tree)[k] == leaf_codes(tree, Seq::empty())[k]);
    } else {
        assert(code_table(tree)[0].0 == c);
    }
}

/// Every code table made from a tree is prefix-free, and its codes are not empty.
pub proof fn lemma_code_table_prefix_free(tree: HuffmanNode)
    ensures
        prefix_free(code_table(tree)),
        forall|i: int| 0 <= i < code_table(tree).len() ==> #[trigger] code_table(tree)[i].1.len() > 0,
{
    if tree.ch is None {
        lemma_leaf_codes(tree, Seq::empty());
        let t = code_table(tree);
        assert forall|i: int| 0 <= i < t.len() implies #[trigger] t[i].1.len() > 0 by {
            assert(all_extend(t, Seq::empty(), true));
        }
    }
}

fn recursive_assign_codes(node: HuffmanNode, current: Vec<bool>, map: &mut Vec<(char, Vec<bool>)>)
    ensures
        table_view(final(map)@) == table_view(old(map)@) + leaf_codes(node, current@),
    decreases node,
{
    let ghost n = node;
    if let Some(ch) = node.ch {
        map.push((ch, current));
        assert(table_view(map@) =~= table_view(old(map)@) + leaf_codes(n, current@));
    } else {
        let ghost start = table_view(map@);
        let ghost mid = start;
        if let Some(left) = node.left {
            let mut code = current.clone();
            assert(code@ =~= current@);
            code.push(false);
            recursive_assign_codes(*left, code, map);
        }
        proof {
            mid = table_view(map@);
        }
        if let Some(right) = node.right {
            let mut code = current.clone();
            assert(code@ =~= current@);
            code.push(true);
            recursive_assign_codes(*right, code, map);
        }
        assert(table_view(map@) =~= start + leaf_codes(n, current@));
    }
}

/// The code table of a tree: the root-to-leaf path of each leaf, left to
/// right; a tree that is a single leaf gives its symbol the code `0`.
pub fn assign_codes(tree: HuffmanNode) -> (r: Vec<(char, Vec<bool>)>)
    ensures
        table_view(r@) == code_table(tree),
        prefix_free(table_view(r@)),
{
    let mut map: Vec<(char, Vec<bool>)> = Vec::new();
    if let Some(ch) = tree.ch {
        let mut code: Vec<bool> = Vec::new();
        code.push(false);
        map.push((ch, code));
        assert(table_view(map@) =~= code_table(tree));
    } else {
        let ghost t = tree;
        recursive_assign_codes(tree, Vec::new(), &mut map);
        assert(table_view(map@) =~= code_table(t));
    }
    proof {
        lemma_code_table_prefix_free(tree);
    }
    map
}

} // verus!
