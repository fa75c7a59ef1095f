//! Huffman tree nodes and the greedy tree builder with its tie-break rule.

use vstd::prelude::*;

use crate::HuffmanError;

verus! {

/// A node of a Huffman tree: a leaf holds a symbol, an internal node two children.
pub struct HuffmanNode {
    pub ch: Option<char>,
    pub freq: usize,
    pub left: Option<Box<HuffmanNode>>,
    pub right: Option<Box<HuffmanNode>>,
}

/// The internal node over `l` (the `0` branch) and `r` (the `1` branch).
pub open spec fn combined(l: HuffmanNode, r: HuffmanNode) -> HuffmanNode {
    HuffmanNode { ch: None, freq: (l.freq + r.freq) as usize, left: Some(Box::new(l)), right: Some(Box::new(r)) }
}

/// Among equal frequencies a leaf comes before an internal node, and
/// leaves come by ascending symbol; equal internal nodes are not ordered.
pub open spec fn tie_before(a: Option<char>, b: Option<char>) -> bool {
    match (a, b) {
        (Some(x), Some(y)) => (x as int) < (y as int),
        (Some(_), None) => true,
        _ => false,
    }
}

/// `a` is taken before `b` when the two smallest nodes are picked.
pub open spec fn precedes(a: HuffmanNode, b: HuffmanNode) -> bool {
    a.freq < b.freq || (a.freq == b.freq && tie_before(a.ch, b.ch))
}

impl HuffmanNode {
    /// A node with no children.
    pub fn new(ch: Option<char>, freq: usize) -> (r: Self)
        ensures
            r == (HuffmanNode { ch, freq, left: None, right: None }),
    {
        HuffmanNode { freq: freq, ch: ch, left: None, right: None }
    }

    /// The internal node over two subtrees; its frequency is their sum.
    pub fn combine(l_node: HuffmanNode, r_node: HuffmanNode) -> (r: HuffmanNode)
        requires
            l_node.freq + r_node.freq <= usize::MAX,
        ensures
            r == combined(l_node, r_node),
    {
        HuffmanNode {
            ch: None,
            freq: l_node.freq + r_node.freq,
            left: Some(Box::new(l_node)),
            right: Some(Box::new(r_node)),
        }
    }

    /// Whether `self` is taken before `other` when the two smallest nodes are picked.
    pub fn precedes(&self, other: &HuffmanNode) -> (r: bool)
        ensures
            r == precedes(*self, *other),
    {
        if self.freq != other.freq {
            return self.freq < other.freq;
        }
        match (self.ch, other.ch) {
            (Some(a), Some(b)) => a < b,
            (Some(_), None) => true,
            _ => false,
        }
    }
}

impl PartialEq for HuffmanNode {
    fn eq(&self, other: &HuffmanNode) -> (r: bool) {
        self.freq == other.freq && self.ch == other.ch
    }
}

impl vstd::std_specs::cmp::PartialEqSpecImpl for HuffmanNode {
    open spec fn obeys_eq_spec() -> bool {
        true
    }

    open spec fn eq_spec(&self, other: &HuffmanNode) -> bool {
        self.freq == other.freq && self.ch == other.ch
    }
}

impl PartialOrd for HuffmanNode {
    fn partial_cmp(&self, other: &HuffmanNode) -> (r: Option<core::cmp::Ordering>) {
        if self.precedes(other) {
            Some(core::cmp::Ordering::Less)
        } else if other.precedes(self) {
            Some(core::cmp::Ordering::Greater)
        } else {
            Some(core::cmp::Ordering::Equal)
        }
    }
}

impl vstd::std_specs::cmp::PartialOrdSpecImpl for HuffmanNode {
    open spec fn obeys_partial_cmp_spec() -> bool {
        true
    }

    open spec fn partial_cmp_spec(&self, other: &HuffmanNode) -> Option<core::cmp::Ordering> {
        if precedes(*self, *other) {
            Some(core::cmp::Ordering::Less)
        } else if precedes(*other, *self) {
            Some(core::cmp::Ordering::Greater)
        } else {
            Some(core::cmp::Ordering::Equal)
        }
    }
}

/// A leaf holds a symbol and no children; an internal node holds no symbol,
/// two well-formed children, and the sum of their frequencies.
pub open spec fn well_formed(n: HuffmanNode) -> bool
    decreases n,
{
    match n.ch {
        Some(_) => n.left is None && n.right is None,
        None => match (n.left, n.right) {
            (Some(l), Some(r)) => well_formed(*l) && well_formed(*r) && n.freq == l.freq + r.freq,
            _ => false,
        },
    }
}

/// `c` is the symbol of a leaf under `n`.
pub open spec fn tree_has(n: HuffmanNode, c: char) -> bool
    decreases n,
{
    match n.ch {
        Some(x) => x == c,
        None => {
            ||| (match n.left {
                Some(b) => tree_has(*b, c),
                None => false,
            })
            ||| (match n.right {
                Some(b) => tree_has(*b, c),
                None => false,
            })
        },
    }
}

/// The position of the first smallest node of `pool`: ties go to the node
/// that comes first.
pub open spec fn first_min(pool: Seq<HuffmanNode>) -> int
    decreases pool.len(),
{
    if pool.len() <= 1 {
        0
    } else {
        let k = first_min(pool.drop_last());
        if precedes(pool.last(), pool[k]) {
            pool.len() - 1
        } else {
            k
        }
    }
}

pub proof fn lemma_first_min_range(pool: Seq<HuffmanNode>)
    requires
        pool.len() >= 1,
    ensures
        0 <= first_min(pool) < pool.len(),
    decreases pool.len(),
{
    if pool.len() > 1 {
        lemma_first_min_range(pool.drop_last());
    }
}

/// The root left when the two smallest nodes of `pool` are merged, the
/// smaller as the `0` branch, until one node remains; the merged node joins
/// the end of the pool, so of two equal internal nodes the one formed first
/// is taken first.
pub open spec fn merge_all(pool: Seq<HuffmanNode>) -> HuffmanNode
    decreases pool.len(),
{
    if pool.len() <= 1 {
        pool[0]
    } else {
        proof {
            lemma_first_min_range(pool);
            lemma_first_min_range(pool.remove(first_min(pool)));
        }
        let i = first_min(pool);
        let rest = pool.remove(i);
        let j = first_min(rest);
        merge_all(rest.remove(j).push(combined(pool[i], rest[j])))
    }
}

/// Merging keeps every leaf of the pool.
pub proof fn lemma_merge_keeps(pool: Seq<HuffmanNode>, k: int, c: char)
    requires
        0 <= k < pool.len(),
        tree_has(pool[k], c),
    ensures
        tree_has(merge_all(pool), c),
    decreases pool.len(),
{
    if pool.len() > 1 {
        lemma_first_min_range(pool);
        let i = first_min(pool);
        let rest = pool.remove(i);
        lemma_first_min_range(rest);
        let j = first_min(rest);
        let m = combined(pool[i], rest[j]);
        let pool2 = rest.remove(j).push(m);
        let last = pool2.len() - 1;
        if k == i {
            assert(tree_has(m, c));
            lemma_merge_keeps(pool2, last, c);
        } else {
            let kr = if k < i { k } else { k - 1 };
            assert(rest[kr] == pool[k]);
            if kr == j {
                assert(tree_has(m, c));
                lemma_merge_keeps(pool2, last, c);
            } else {
                let k2 = if kr < j { kr } else { kr - 1 };
                assert(pool2[k2] == rest[kr]);
                lemma_merge_keeps(pool2, k2, c);
            }
        }
    }
}

/// One leaf per entry of a frequency table, in its order.
pub open spec fn leaves_of(f: Seq<(char, usize)>) -> Seq<HuffmanNode> {
    f.map(|i: int, e: (char, usize)| HuffmanNode { ch: Some(e.0), freq: e.1, left: None, right: None })
}

pub open spec fn freq_total(f: Seq<(char, usize)>) -> int
    decreases f.len(),
{
    if f.len() == 0 {
        0
    } else {
        freq_total(f.drop_last()) + f.last().1
    }
}

pub open spec fn pool_total(p: Seq<HuffmanNode>) -> int
    decreases p.len(),
{
    if p.len() == 0 {
        0
    } else {
        pool_total(p.drop_last()) + p.last().freq
    }
}

/// No symbol occurs twice.
pub open spec fn distinct_symbols(f: Seq<(char, usize)>) -> bool {
    forall|i: int, j: int| 0 <= i < j < f.len() ==> f[i].0 != f[j].0
}

/// Symbols strictly ascending.
pub open spec fn symbols_ascending(f: Seq<(char, usize)>) -> bool {
    forall|i: int, j: int| 0 <= i < j < f.len() ==> (f[i].0 as int) < (f[j].0 as int)
}

/// The same entries, in any order.
pub open spec fn same_entries(a: Seq<(char, usize)>, b: Seq<(char, usize)>) -> bool {
    forall|e: (char, usize)| a.contains(e) <==> b.contains(e)
}

/// The entries of a frequency table with the symbols ascending.
pub open spec fn by_symbol(f: Seq<(char, usize)>) -> Seq<(char, usize)> {
    choose|g: Seq<(char, usize)>| symbols_ascending(g) && same_entries(g, f)
}

/// The tree built from a frequency table.
pub open spec fn huffman_tree(f: Seq<(char, usize)>) -> HuffmanNode {
    merge_all(leaves_of(by_symbol(f)))
}

pub proof fn lemma_freq_total_insert(s: Seq<(char, usize)>, k: int, x: (char, usize))
    requires
        0 <= k <= s.len(),
    ensures
        freq_total(s.insert(k, x)) == freq_total(s) + x.1,
    decreases s.len(),
{
    if k < s.len() {
        assert(s.insert(k, x).drop_last() =~= s.drop_last().insert(k, x));
        lemma_freq_total_insert(s.drop_last(), k, x);
    } else {
        assert(s.insert(k, x).drop_last() =~= s);
    }
}

pub proof fn lemma_pool_total_remove(p: Seq<HuffmanNode>, k: int)
    requires
        0 <= k < p.len(),
    ensures
        pool_total(p.remove(k)) == pool_total(p) - p[k].freq,
    decreases p.len(),
{
    if k < p.len() - 1 {
        assert(p.remove(k).drop_last() =~= p.drop_last().remove(k));
        lemma_pool_total_remove(p.drop_last(), k);
    } else {
        assert(p.remove(k) =~= p.drop_last());
    }
}

pub proof fn lemma_pool_total_nonneg(p: Seq<HuffmanNode>)
    ensures
        pool_total(p) >= 0,
    decreases p.len(),
{
    if p.len() > 0 {
        lemma_pool_total_nonneg(p.drop_last());
    }
}

pub proof fn lemma_leaves_total(f: Seq<(char, usize)>)
    ensures
        pool_total(leaves_of(f)) == freq_total(f),
    decreases f.len(),
{
    if f.len() > 0 {
        assert(leaves_of(f).drop_last() =~= leaves_of(f.drop_last()));
        lemma_leaves_total(f.drop_last());
    }
}

/// Two tables with ascending symbols and the same entries are equal.
pub proof fn lemma_ascending_unique(a: Seq<(char, usize)>, b: Seq<(char, usize)>)
    requires
        symbols_ascending(a),
        symbols_ascending(b),
        same_entries(a, b),
    ensures
        a == b,
    decreases a.len(),
{
    if a.len() == 0 {
        if b.len() > 0 {
            assert(b.contains(b[0]));
        }
    } else if b.len() == 0 {
        assert(a.contains(a[0]));
    } else {
        assert(a.contains(a[0]));
        assert(b.contains(b[0]));
        let i = choose|i: int| 0 <= i < a.len() && a[i] == b[0];
        let j = choose|j: int| 0 <= j < b.len() && b[j] == a[0];
        assert(i == 0 && j == 0);
        let a2 = a.drop_first();
        let b2 = b.drop_first();
        assert forall|e: (char, usize)| a2.contains(e) <==> b2.contains(e) by {
            if a2.contains(e) {
                let k = choose|k: int| 0 <= k < a2.len() && a2[k] == e;
                assert(a.contains(e));
                assert(a[k + 1] == e);
                let m = choose|m: int| 0 <= m < b.len() && b[m] == e;
                assert(m != 0);
                assert(b2[m - 1] == e);
            }
            if b2.contains(e) {
                let k = choose|k: int| 0 <= k < b2.len() && b2[k] == e;
                assert(b[k + 1] == e);
                assert(b.contains(e));
                let m = choose|m: int| 0 <= m < a.len() && a[m] == e;
                assert(m != 0);
                assert(a2[m - 1] == e);
            }
        }
        lemma_ascending_unique(a2, b2);
        assert(a =~= seq![a[0]] + a2);
        assert(b =~= seq![b[0]] + b2);
    }
}

/// The entries of `f` with the symbols ascending.
pub fn sort_by_symbol(f: &Vec<(char, usize)>) -> (r: Vec<(char, usize)>)
    requires
        distinct_symbols(f@),
    ensures
        symbols_ascending(r@),
        same_entries(r@, f@),
        freq_total(r@) == freq_total(f@),
{
    let mut out: Vec<(char, usize)> = Vec::new();
    let mut i: usize = 0;
    while i < f.len()
        invariant
            i <= f@.len(),
            distinct_symbols(f@),
            symbols_ascending(out@),
            same_entries(out@, f@.take(i as int)),
            freq_total(out@) == freq_total(f@.take(i as int)),
        decreases f@.len() - i,
    {
        let x = f[i];
        let mut k: usize = 0;
        while k < out.len() && out[k].0 < x.0
            invariant
                k <= out@.len(),
                forall|m: int| 0 <= m < k ==> (out@[m].0 as int) < (x.0 as int),
            decreases out@.len() - k,
        {
            k = k + 1;
        }
        proof {
            assert forall|m: int| 0 <= m < out@.len() implies out@[m].0 != x.0 by {
                assert(out@.contains(out@[m]));
                assert(f@.take(i as int).contains(out@[m]));
                let q = choose|q: int| 0 <= q < i && f@.take(i as int)[q] == out@[m];
                assert(f@[q] == out@[m]);
            }
            lemma_freq_total_insert(out@, k as int, x);
            assert(f@.take(i as int + 1).drop_last() =~= f@.take(i as int));
        }
        let ghost old_out = out@;
        out.insert(k, x);
        proof {
            assert forall|e: (char, usize)| out@.contains(e) <==> f@.take(i as int + 1).contains(e) by {
                let t = f@.take(i as int + 1);
                if out@.contains(e) {
                    let m = choose|m: int| 0 <= m < out@.len() && out@[m] == e;
                    if m == k {
                        assert(t[i as int] == e);
                    } else if m < k {
                        assert(old_out.contains(e));
                        let q = choose|q: int| 0 <= q < i && f@.take(i as int)[q] == e;
                        assert(t[q] == e);
                    } else {
                        assert(old_out[m - 1] == e);
                        assert(old_out.contains(e));
                        let q = choose|q: int| 0 <= q < i && f@.take(i as int)[q] == e;
                        assert(t[q] == e);
                    }
                }
                if t.contains(e) {
                    let q = choose|q: int| 0 <= q <= i && t[q] == e;
                    if q == i {
                        assert(out@[k as int] == e);
                    } else {
                        assert(f@.take(i as int)[q] == e);
                        assert(f@.take(i as int).contains(e));
                        assert(old_out.contains(e));
                        let m = choose|m: int| 0 <= m < old_out.len() && old_out[m] == e;
                        if m < k {
                            assert(out@[m] == e);
                        } else {
                            assert(out@[m + 1] == e);
                        }
                    }
                }
            }
        }
        i = i + 1;
    }
    assert(f@.take(i as int) =~= f@);
    out
}

/// Builds the Huffman tree of a frequency table: one leaf per symbol, then
/// the two smallest nodes (by `precedes`) merged until one remains.
pub fn create_tree(letter_freqs: Vec<(char, usize)>) -> (r: Result<HuffmanNode, HuffmanError>)
    requires
        distinct_symbols(letter_freqs@),
        freq_total(letter_freqs@) <= usize::MAX,
    ensures
        letter_freqs@.len() == 0 <==> r == Err::<HuffmanNode, HuffmanError>(HuffmanError::EmptyInput),
        letter_freqs@.len() > 0 ==> r == Ok::<HuffmanNode, HuffmanError>(huffman_tree(letter_freqs@)),
        r matches Ok(t) ==> well_formed(t) && t.freq == freq_total(letter_freqs@),
        letter_freqs@.len() > 0 ==> symbols_ascending(by_symbol(letter_freqs@)) && same_entries(
            by_symbol(letter_freqs@),
            letter_freqs@,
        ),
{
    if letter_freqs.len() == 0 {
        return Err(HuffmanError::EmptyInput);
    }
    let sorted = sort_by_symbol(&letter_freqs);
    proof {
        lemma_ascending_unique(sorted@, by_symbol(letter_freqs@));
    }
    let mut nodes: Vec<HuffmanNode> = Vec::new();
    let mut i: usize = 0;
    while i < sorted.len()
        invariant
            i <= sorted@.len(),
            nodes@ == leaves_of(sorted@.take(i as int)),
        decreases sorted@.len() - i,
    {
        let (c, n) = sorted[i];
        nodes.push(HuffmanNode::new(Some(c), n));
        assert(leaves_of(sorted@.take(i as int + 1)) =~= leaves_of(sorted@.take(i as int)).push(nodes@.last()));
        i = i + 1;
    }
    proof {
        assert(sorted@.take(i as int) =~= sorted@);
        lemma_leaves_total(sorted@);
        assert(sorted@.len() > 0) by {
            assert(letter_freqs@.contains(letter_freqs@[0]));
        }
    }
    let ghost start = nodes@;
    let ghost total = pool_total(nodes@);
    assert forall|k: int| 0 <= k < nodes@.len() implies #[trigger] well_formed(nodes@[k]) by {
        assert(nodes@[k] == leaves_of(sorted@)[k]);
    }
    while nodes.len() > 1
        invariant
            nodes@.len() >= 1,
            forall|k: int| 0 <= k < nodes@.len() ==> #[trigger] well_formed(nodes@[k]),
            merge_all(nodes@) == merge_all(start),
            pool_total(nodes@) == total,
            total <= usize::MAX,
        decreases nodes@.len(),
    {
        let ghost pool = nodes@;
        let i = select_min(&nodes);
        let a = nodes.remove(i);
        let ghost rest = nodes@;
        let j = select_min(&nodes);
        let b = nodes.remove(j);
        proof {
            lemma_pool_total_remove(pool, i as int);
            lemma_pool_total_remove(rest, j as int);
            lemma_pool_total_nonneg(nodes@);
        }
        let ghost before = nodes@;
        assert(well_formed(a)) by {
            assert(a == pool[i as int]);
        }
        assert(well_formed(b)) by {
            assert(b == rest[j as int]);
            assert(rest[j as int] == pool[if j < i { j as int } else { j + 1 }]);
        }
        nodes.push(HuffmanNode::combine(a, b));
        assert(nodes@.drop_last() =~= before);
        assert forall|k: int| 0 <= k < nodes@.len() implies #[trigger] well_formed(nodes@[k]) by {
            if k < nodes@.len() - 1 {
                let kr = if k < j { k } else { k + 1 };
                assert(nodes@[k] == rest[kr]);
                assert(rest[kr] == pool[if kr < i { kr } else { kr + 1 }]);
            }
        }
    }
    proof {
        assert(pool_total(nodes@) == pool_total(nodes@.drop_last()) + nodes@[0].freq);
        assert(nodes@.drop_last().len() == 0);
    }
    let root = nodes.pop().unwrap();
    Ok(root)
}

/// The position of the first smallest node.
fn select_min(nodes: &Vec<HuffmanNode>) -> (r: usize)
    requires
        nodes@.len() >= 1,
    ensures
        r as int == first_min(nodes@),
        r < nodes@.len(),
{
    let mut best: usize = 0;
    let mut j: usize = 1;
    while j < nodes.len()
        invariant
            1 <= j <= nodes@.len(),
            best as int == first_min(nodes@.take(j as int)),
            best < j,
        decreases nodes@.len() - j,
    {
        proof {
            assert(nodes@.take(j as int + 1).drop_last() =~= nodes@.take(j as int));
        }
        if nodes[j].precedes(&nodes[best]) {
            best = j;
        }
        j = j + 1;
    }
    assert(nodes@.take(j as int) =~= nodes@);
    best
}

} // verus!
