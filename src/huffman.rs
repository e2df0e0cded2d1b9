//! Huffman code construction: leaves for the byte values that occur, merged
//! two lightest first until one tree is left, then read off as paths.
use vstd::prelude::*;

verus! {

/// A code tree: leaves carry a byte value, inner nodes the sum of their
/// children's frequencies.
pub enum Tree {
    Leaf { data: u8, freq: u64 },
    Node { freq: u64, left: Box<Tree>, right: Box<Tree> },
}

impl Tree {
    pub open spec fn spec_freq(&self) -> u64 {
        match self {
            Tree::Leaf { freq, .. } => *freq,
            Tree::Node { freq, .. } => *freq,
        }
    }

    #[verifier::when_used_as_spec(spec_freq)]
    pub fn freq(&self) -> (r: u64)
        ensures
            r == self.spec_freq(),
    {
        match self {
            Tree::Leaf { freq, .. } => *freq,
            Tree::Node { freq, .. } => *freq,
        }
    }
}

/// A code: the bits of a path from the root of a tree to one of its leaves,
/// `true` for a step to the left.
#[derive(Clone, Debug, PartialEq, Eq)]
pub struct Symbol {
    pub data: Vec<bool>,
}

impl Symbol {
    pub fn new() -> (r: Symbol)
        ensures
            r.data@ == Seq::<bool>::empty(),
    {
        Symbol { data: Vec::new() }
    }

    pub fn from(vec: Vec<bool>) -> (r: Symbol)
        ensures
            r.data@ == vec@,
    {
        Symbol { data: vec }
    }

    /// This code followed by one more bit.
    pub fn append(&self, unit: bool) -> (r: Symbol)
        ensures
            r.data@ == self.data@.push(unit),
    {
        let mut data: Vec<bool> = Vec::new();
        let mut i: usize = 0;
        while i < self.data.len()
            invariant
                i <= self.data@.len(),
                data@ == self.data@.subrange(0, i as int),
            decreases self.data@.len() - i,
        {
            data.push(self.data[i]);
            i = i + 1;
            assert(data@ =~= self.data@.subrange(0, i as int));
        }
        data.push(unit);
        assert(data@ =~= self.data@.push(unit));
        Symbol { data }
    }
}

/// The sum of the frequencies of a forest's trees.
pub open spec fn weight(f: Seq<Tree>) -> int
    decreases f.len(),
{
    if f.len() == 0 {
        0
    } else {
        weight(f.drop_last()) + f.last().spec_freq()
    }
}

/// The position of the lightest tree of a forest; among equally light
/// trees the first.
pub open spec fn min_index(f: Seq<Tree>) -> int
    decreases f.len(),
{
    if f.len() <= 1 {
        0
    } else {
        let m = min_index(f.drop_last());
        if f.last().spec_freq() < f[m].spec_freq() {
            f.len() - 1
        } else {
            m
        }
    }
}

/// One merge: the lightest tree and then the lightest of the rest become
/// the left and right children of a new tree, placed after the others.
pub open spec fn merge_step(f: Seq<Tree>) -> Seq<Tree> {
    let i = min_index(f);
    let t1 = f[i];
    let g = f.remove(i);
    let j = min_index(g);
    let t2 = g[j];
    g.remove(j).push(
        Tree::Node {
            freq: (t1.spec_freq() + t2.spec_freq()) as u64,
            left: Box::new(t1),
            right: Box::new(t2),
        },
    )
}

/// The tree left after merging the trees of a forest, or `None` for an empty forest.
pub open spec fn build(f: Seq<Tree>) -> Option<Tree>
    decreases f.len(),
{
    if f.len() == 0 {
        None
    } else if f.len() == 1 {
        Some(f[0])
    } else {
        // a merge always leaves one tree fewer; the test makes that visible
        // to the termination check
        let g = merge_step(f);
        if g.len() < f.len() {
            build(g)
        } else {
            None
        }
    }
}

/// One leaf for each byte value below `k` that occurs, in increasing order.
pub open spec fn leaves_upto(freq: Seq<u64>, k: nat) -> Seq<Tree>
    decreases k,
{
    if k == 0 {
        Seq::empty()
    } else {
        let rest = leaves_upto(freq, (k - 1) as nat);
        if freq[k - 1] > 0 {
            rest.push(Tree::Leaf { data: (k - 1) as u8, freq: freq[k - 1] })
        } else {
            rest
        }
    }
}

/// The code tree of a frequency table indexed by byte value.
pub open spec fn huffman_tree(freq: Seq<u64>) -> Option<Tree> {
    build(leaves_upto(freq, freq.len()))
}

/// The path from the root of `t` to its first leaf holding `b`.
pub open spec fn find_path(t: Tree, b: u8) -> Option<Seq<bool>>
    decreases t,
{
    match t {
        Tree::Leaf { data, .. } => if data == b {
            Some(Seq::empty())
        } else {
            None
        },
        Tree::Node { left, right, .. } => match find_path(*left, b) {
            Some(p) => Some(seq![true] + p),
            None => match find_path(*right, b) {
                Some(p) => Some(seq![false] + p),
                None => None,
            },
        },
    }
}

/// The code of `b` in `t`; a tree that is a single leaf gives its byte
/// the one-bit code `1`.
pub open spec fn code_in(t: Tree, b: u8) -> Seq<bool> {
    match t {
        Tree::Leaf { .. } => seq![true],
        Tree::Node { .. } => match find_path(t, b) {
            Some(p) => p,
            None => Seq::empty(),
        },
    }
}

/// The code table of the byte values below `k` that occur, by byte value.
pub open spec fn table_upto(t: Tree, freq: Seq<u64>, k: nat) -> Seq<(u8, Seq<bool>)>
    decreases k,
{
    if k == 0 {
        Seq::empty()
    } else {
        let rest = table_upto(t, freq, (k - 1) as nat);
        if freq[k - 1] > 0 {
            rest.push(((k - 1) as u8, code_in(t, (k - 1) as u8)))
        } else {
            rest
        }
    }
}

/// The code table of a frequency table: one entry for each byte value that
/// occurs, by increasing byte value.
#[verifier::opaque]
pub open spec fn code_table(freq: Seq<u64>) -> Seq<(u8, Seq<bool>)> {
    match huffman_tree(freq) {
        None => Seq::empty(),
        Some(t) => table_upto(t, freq, freq.len()),
    }
}

/// The sum of the first `k` counts.
pub open spec fn total_upto(freq: Seq<u64>, k: nat) -> int
    decreases k,
{
    if k == 0 {
        0
    } else {
        total_upto(freq, (k - 1) as nat) + freq[k - 1]
    }
}

/// The sum of all counts.
pub open spec fn total(freq: Seq<u64>) -> int {
    total_upto(freq, freq.len())
}

/// The pairs of a table, codes as bit sequences.
pub open spec fn table_view(t: Seq<(u8, Symbol)>) -> Seq<(u8, Seq<bool>)> {
    t.map_values(|e: (u8, Symbol)| (e.0, e.1.data@))
}

proof fn lemma_min_index_bound(f: Seq<Tree>)
    requires
        f.len() >= 1,
    ensures
        0 <= min_index(f) < f.len(),
    decreases f.len(),
{
    if f.len() > 1 {
        lemma_min_index_bound(f.drop_last());
    }
}

fn min_index_exec(forest: &Vec<Tree>) -> (r: usize)
    requires
        forest@.len() >= 1,
    ensures
        r == min_index(forest@),
        r < forest@.len(),
{
    let mut best: usize = 0;
    let mut i: usize = 1;
    assert(forest@.take(1).len() == 1);
    while i < forest.len()
        invariant
            1 <= i <= forest@.len(),
            best < i,
            best == min_index(forest@.take(i as int)),
        decreases forest@.len() - i,
    {
        assert(forest@.take(i + 1).drop_last() =~= forest@.take(i as int));
        assert(forest@.take(i + 1)[best as int] == forest@[best as int]);
        if forest[i].freq() < forest[best].freq() {
            best = i;
        }
        i = i + 1;
    }
    assert(forest@.take(i as int) =~= forest@);
    best
}

proof fn lemma_weight_push(f: Seq<Tree>, t: Tree)
    ensures
        weight(f.push(t)) == weight(f) + t.spec_freq(),
{
    assert(f.push(t).drop_last() =~= f);
}

proof fn lemma_weight_remove(f: Seq<Tree>, i: int)
    requires
        0 <= i < f.len(),
    ensures
        weight(f.remove(i)) + f[i].spec_freq() == weight(f),
    decreases f.len(),
{
    if i == f.len() - 1 {
        assert(f.remove(i) =~= f.drop_last());
    } else {
        lemma_weight_remove(f.drop_last(), i);
        assert(f.remove(i) =~= f.drop_last().remove(i).push(f.last()));
        lemma_weight_push(f.drop_last().remove(i), f.last());
    }
}

proof fn lemma_weight_nonneg(f: Seq<Tree>)
    ensures
        weight(f) >= 0,
    decreases f.len(),
{
    if f.len() > 0 {
        lemma_weight_nonneg(f.drop_last());
    }
}

proof fn lemma_leaves_weight(freq: Seq<u64>, k: nat)
    requires
        k <= freq.len(),
    ensures
        weight(leaves_upto(freq, k)) == total_upto(freq, k),
    decreases k,
{
    if k > 0 {
        lemma_leaves_weight(freq, (k - 1) as nat);
        let rest = leaves_upto(freq, (k - 1) as nat);
        if freq[k - 1] > 0 {
            lemma_weight_push(rest, Tree::Leaf { data: (k - 1) as u8, freq: freq[k - 1] });
        }
    }
}

/// A merge leaves one tree fewer, and the forest builds the same tree.
proof fn lemma_merge_step(f: Seq<Tree>)
    requires
        f.len() >= 2,
    ensures
        merge_step(f).len() == f.len() - 1,
        build(f) == build(merge_step(f)),
{
    lemma_min_index_bound(f);
    lemma_min_index_bound(f.remove(min_index(f)));
}

/// The byte values at the leaves of a tree.
pub open spec fn tree_syms(t: Tree) -> Set<u8>
    decreases t,
{
    match t {
        Tree::Leaf { data, .. } => set![data],
        Tree::Node { left, right, .. } => tree_syms(*left) + tree_syms(*right),
    }
}

/// The byte values at the leaves of a forest.
pub open spec fn forest_syms(f: Seq<Tree>) -> Set<u8>
    decreases f.len(),
{
    if f.len() == 0 {
        Set::empty()
    } else {
        forest_syms(f.drop_last()) + tree_syms(f.last())
    }
}

/// The length of the longest path from the root of a tree to a leaf.
pub open spec fn height(t: Tree) -> nat
    decreases t,
{
    match t {
        Tree::Leaf { .. } => 0,
        Tree::Node { left, right, .. } => {
            let (l, r) = (height(*left), height(*right));
            1 + if l < r {
                r
            } else {
                l
            }
        },
    }
}

/// The byte value at the end of path `p` from the root of `t`, if the path
/// ends at a leaf.
pub open spec fn leaf_at(t: Tree, p: Seq<bool>) -> Option<u8>
    decreases p.len(),
{
    match t {
        Tree::Leaf { data, .. } => if p.len() == 0 {
            Some(data)
        } else {
            None
        },
        Tree::Node { left, right, .. } => if p.len() == 0 {
            None
        } else if p[0] {
            leaf_at(*left, p.drop_first())
        } else {
            leaf_at(*right, p.drop_first())
        },
    }
}

pub open spec fn is_prefix(p: Seq<bool>, q: Seq<bool>) -> bool {
    p.len() <= q.len() && q.subrange(0, p.len() as int) == p
}

/// No code of the table is a prefix of another entry's code (nor equal to it).
pub open spec fn prefix_free(t: Seq<(u8, Seq<bool>)>) -> bool {
    forall|i: int, j: int|
        0 <= i < t.len() && 0 <= j < t.len() && i != j ==> !is_prefix(#[trigger] t[i].1, #[trigger] t[j].1)
}

/// The entries are in strictly increasing order of byte value.
pub open spec fn sorted_by_byte(t: Seq<(u8, Seq<bool>)>) -> bool {
    forall|i: int, j: int| 0 <= i < j < t.len() ==> #[trigger] t[i].0 < #[trigger] t[j].0
}

/// Every code is between 1 and 255 bits long.
pub open spec fn codes_bounded(t: Seq<(u8, Seq<bool>)>) -> bool {
    forall|i: int| 0 <= i < t.len() ==> 1 <= #[trigger] t[i].1.len() <= 255
}

/// The table has an entry for a byte value exactly when it occurs.
pub open spec fn covers(t: Seq<(u8, Seq<bool>)>, freq: Seq<u64>) -> bool {
    forall|b: u8|
        (b < freq.len() && freq[b as int] > 0) <==> exists|i: int| 0 <= i < t.len() && #[trigger] t[i].0 == b
}

/// The bytes that occur in a frequency table below `k`.
pub open spec fn occurring(freq: Seq<u64>, k: nat) -> Set<u8> {
    Set::new(|b: u8| b < k && b < freq.len() && freq[b as int] > 0)
}

/// Every tree of the forest is low enough that, merged with all the others,
/// it stays below `n`.
pub open spec fn forest_ok(f: Seq<Tree>, n: nat) -> bool {
    forall|i: int| 0 <= i < f.len() ==> #[trigger] height(f[i]) + f.len() <= n
}

proof fn lemma_forest_syms_push(f: Seq<Tree>, t: Tree)
    ensures
        forest_syms(f.push(t)) == forest_syms(f) + tree_syms(t),
{
    assert(f.push(t).drop_last() =~= f);
}

proof fn lemma_forest_syms_remove(f: Seq<Tree>, i: int)
    requires
        0 <= i < f.len(),
    ensures
        forest_syms(f) == forest_syms(f.remove(i)) + tree_syms(f[i]),
    decreases f.len(),
{
    if i == f.len() - 1 {
        assert(f.remove(i) =~= f.drop_last());
    } else {
        lemma_forest_syms_remove(f.drop_last(), i);
        assert(f.remove(i) =~= f.drop_last().remove(i).push(f.last()));
        lemma_forest_syms_push(f.drop_last().remove(i), f.last());
        assert(forest_syms(f) =~= forest_syms(f.remove(i)) + tree_syms(f[i]));
    }
}

proof fn lemma_merge_keeps(f: Seq<Tree>, n: nat)
    requires
        f.len() >= 2,
        forest_ok(f, n),
    ensures
        forest_ok(merge_step(f), n),
        forest_syms(merge_step(f)) == forest_syms(f),
{
    lemma_min_index_bound(f);
    let i = min_index(f);
    let g = f.remove(i);
    lemma_min_index_bound(g);
    let j = min_index(g);
    let h = g.remove(j);
    let t1 = f[i];
    let t2 = g[j];
    let node = Tree::Node {
        freq: (t1.spec_freq() + t2.spec_freq()) as u64,
        left: Box::new(t1),
        right: Box::new(t2),
    };
    assert(merge_step(f) == h.push(node));
    lemma_forest_syms_remove(f, i);
    lemma_forest_syms_remove(g, j);
    lemma_forest_syms_push(h, node);
    assert(forest_syms(merge_step(f)) =~= forest_syms(f));
    assert(height(t1) + f.len() <= n);
    assert(height(t2) + f.len() <= n) by {
        if j < i {
            assert(t2 == f[j]);
        } else {
            assert(t2 == f[j + 1]);
        }
    }
    assert forall|k: int| 0 <= k < merge_step(f).len() implies #[trigger] height(merge_step(f)[k])
        + merge_step(f).len() <= n by {
        if k < h.len() {
            let k1 = if k < j {
                k
            } else {
                k + 1
            };
            assert(h[k] == g[k1]);
            let k2 = if k1 < i {
                k1
            } else {
                k1 + 1
            };
            assert(g[k1] == f[k2]);
        }
    }
}

proof fn lemma_build(f: Seq<Tree>, n: nat)
    requires
        f.len() >= 1,
        forest_ok(f, n),
    ensures
        build(f) is Some,
        tree_syms(build(f)->0) == forest_syms(f),
        height(build(f)->0) + 1 <= n,
    decreases f.len(),
{
    if f.len() == 1 {
        assert(f.drop_last() =~= Seq::<Tree>::empty());
        assert(forest_syms(f.drop_last()) =~= Set::<u8>::empty());
        assert(forest_syms(f) =~= tree_syms(f[0]));
    } else {
        lemma_merge_step(f);
        lemma_merge_keeps(f, n);
        lemma_build(merge_step(f), n);
    }
}

proof fn lemma_leaves(freq: Seq<u64>, k: nat)
    requires
        k <= freq.len(),
        k <= 256,
    ensures
        leaves_upto(freq, k).len() <= k,
        forall|i: int| 0 <= i < leaves_upto(freq, k).len() ==> #[trigger] height(leaves_upto(freq, k)[i]) == 0,
        forest_syms(leaves_upto(freq, k)) == occurring(freq, k),
    decreases k,
{
    if k == 0 {
        assert(occurring(freq, k) =~= Set::<u8>::empty());
    } else {
        lemma_leaves(freq, (k - 1) as nat);
        let rest = leaves_upto(freq, (k - 1) as nat);
        if freq[k - 1] > 0 {
            let leaf = Tree::Leaf { data: (k - 1) as u8, freq: freq[k - 1] };
            lemma_forest_syms_push(rest, leaf);
            assert(forest_syms(leaves_upto(freq, k)) =~= occurring(freq, k));
        } else {
            assert(forest_syms(leaves_upto(freq, k)) =~= occurring(freq, k));
        }
    }
}

/// A byte value at a leaf has a path that ends there, no longer than the
/// tree is high.
proof fn lemma_find_path(t: Tree, b: u8)
    requires
        tree_syms(t).contains(b),
    ensures
        find_path(t, b) is Some,
        leaf_at(t, find_path(t, b)->0) == Some(b),
        find_path(t, b)->0.len() <= height(t),
    decreases t,
{
    match t {
        Tree::Leaf { data, .. } => {
            assert(set![data].contains(b));
            assert(data == b);
        },
        Tree::Node { left, right, .. } => {
            if tree_syms(*left).contains(b) {
                lemma_find_path(*left, b);
                let p = find_path(*left, b)->0;
                assert((seq![true] + p).drop_first() =~= p);
            } else {
                lemma_find_path(*right, b);
                match find_path(*left, b) {
                    Some(p) => {
                        lemma_find_path_syms(*left, b);
                    },
                    None => {
                        let p = find_path(*right, b)->0;
                        assert((seq![false] + p).drop_first() =~= p);
                    },
                }
            }
        },
    }
}

proof fn lemma_find_path_syms(t: Tree, b: u8)
    requires
        find_path(t, b) is Some,
    ensures
        tree_syms(t).contains(b),
    decreases t,
{
    match t {
        Tree::Leaf { .. } => {},
        Tree::Node { left, right, .. } => {
            if find_path(*left, b) is Some {
                lemma_find_path_syms(*left, b);
            } else {
                lemma_find_path_syms(*right, b);
            }
        },
    }
}

/// Of two paths that both end at leaves, neither is a proper prefix of the other.
proof fn lemma_leaf_paths(t: Tree, p: Seq<bool>, q: Seq<bool>)
    requires
        leaf_at(t, p) is Some,
        leaf_at(t, q) is Some,
        is_prefix(p, q),
    ensures
        p == q,
    decreases p.len(),
{
    match t {
        Tree::Leaf { .. } => {},
        Tree::Node { left, right, .. } => {
            assert(q[0] == q.subrange(0, p.len() as int)[0]);
            assert(q.drop_first().subrange(0, p.drop_first().len() as int) =~= p.drop_first());
            if p[0] {
                lemma_leaf_paths(*left, p.drop_first(), q.drop_first());
            } else {
                lemma_leaf_paths(*right, p.drop_first(), q.drop_first());
            }
            assert(p =~= q);
        },
    }
}

proof fn lemma_table_upto(t: Tree, freq: Seq<u64>, k: nat)
    requires
        k <= freq.len(),
        k <= 256,
    ensures
        sorted_by_byte(table_upto(t, freq, k)),
        forall|i: int|
            0 <= i < table_upto(t, freq, k).len() ==> {
                let e = #[trigger] table_upto(t, freq, k)[i];
                &&& e.0 < k
                &&& occurring(freq, k).contains(e.0)
                &&& e.1 == code_in(t, e.0)
            },
        forall|b: u8|
            #[trigger] occurring(freq, k).contains(b) ==> exists|i: int|
                0 <= i < table_upto(t, freq, k).len() && #[trigger] table_upto(t, freq, k)[i].0 == b,
    decreases k,
{
    if k > 0 {
        lemma_table_upto(t, freq, (k - 1) as nat);
        let rest = table_upto(t, freq, (k - 1) as nat);
        let cur = table_upto(t, freq, k);
        assert forall|b: u8| #[trigger] occurring(freq, k).contains(b) implies exists|i: int|
            0 <= i < cur.len() && #[trigger] cur[i].0 == b by {
            if b < k - 1 {
                assert(occurring(freq, (k - 1) as nat).contains(b));
                let i = choose|i: int| 0 <= i < rest.len() && #[trigger] rest[i].0 == b;
                assert(cur[i] == rest[i]);
            } else {
                assert(cur[cur.len() - 1].0 == b);
            }
        }
    }
}

/// The code table of any frequency table of at most 256 byte values is
/// sorted by byte value, has an entry exactly for the byte values that
/// occur, gives each a code of 1 to 255 bits, and is prefix-free.
pub proof fn lemma_code_table(freq: Seq<u64>)
    requires
        freq.len() <= 256,
    ensures
        sorted_by_byte(code_table(freq)),
        covers(code_table(freq), freq),
        codes_bounded(code_table(freq)),
        prefix_free(code_table(freq)),
{
    reveal(code_table);
    let init = leaves_upto(freq, freq.len());
    lemma_leaves(freq, freq.len());
    let ct = code_table(freq);
    if init.len() == 0 {
        assert(ct.len() == 0);
        assert forall|b: u8| !(b < freq.len() && freq[b as int] > 0) by {
            if b < freq.len() && freq[b as int] > 0 {
                assert(occurring(freq, freq.len()).contains(b));
            }
        }
        return;
    }
    lemma_build(init, init.len());
    let t = build(init)->0;
    lemma_table_upto(t, freq, freq.len());
    assert(ct == table_upto(t, freq, freq.len()));
    assert forall|b: u8|
        (b < freq.len() && freq[b as int] > 0) <==> exists|i: int| 0 <= i < ct.len() && #[trigger] ct[i].0 == b by {
        if b < freq.len() && freq[b as int] > 0 {
            assert(occurring(freq, freq.len()).contains(b));
        }
    }
    assert forall|i: int| 0 <= i < ct.len() implies 1 <= #[trigger] ct[i].1.len() <= 255 by {
        let b = ct[i].0;
        if t is Node {
            lemma_find_path(t, b);
        }
    }
    assert forall|i: int, j: int|
        0 <= i < ct.len() && 0 <= j < ct.len() && i != j implies !is_prefix(#[trigger] ct[i].1, #[trigger] ct[j].1) by {
        let (bi, bj) = (ct[i].0, ct[j].0);
        assert(bi != bj);
        match t {
            Tree::Leaf { data, .. } => {
                assert(tree_syms(t) =~= set![data]);
            },
            Tree::Node { .. } => {
                lemma_find_path(t, bi);
                lemma_find_path(t, bj);
                if is_prefix(ct[i].1, ct[j].1) {
                    lemma_leaf_paths(t, ct[i].1, ct[j].1);
                }
            },
        }
    }
}

/// Encoding is deterministic: two code tables that `encode` returns for the
/// same frequency table are identical, codes and lengths alike.
pub proof fn lemma_encode_deterministic(freq: Seq<u64>, r1: Seq<(u8, Symbol)>, r2: Seq<(u8, Symbol)>)
    requires
        table_view(r1) == code_table(freq),
        table_view(r2) == code_table(freq),
    ensures
        table_view(r1) == table_view(r2),
        r1.len() == r2.len(),
        forall|i: int| 0 <= i < r1.len() ==> (#[trigger] r1[i]).0 == r2[i].0 && r1[i].1.data@ == r2[i].1.data@,
{
    assert(table_view(r1).len() == r1.len());
    assert(table_view(r2).len() == r2.len());
    assert forall|i: int| 0 <= i < r1.len() implies (#[trigger] r1[i]).0 == r2[i].0 && r1[i].1.data@ == r2[i].1.data@ by {
        assert(table_view(r1)[i] == (r1[i].0, r1[i].1.data@));
        assert(table_view(r2)[i] == (r2[i].0, r2[i].1.data@));
    }
}

/// The path of `b` in `t`, appended to `prefix`.
fn find_code(t: &Tree, b: u8, prefix: Symbol) -> (r: Option<Symbol>)
    ensures
        match find_path(*t, b) {
            Some(p) => r is Some && r->0.data@ == prefix.data@ + p,
            None => r is None,
        },
    decreases t,
{
    match t {
        Tree::Leaf { data, .. } => {
            if *data == b {
                assert(prefix.data@ + Seq::<bool>::empty() =~= prefix.data@);
                Some(prefix)
            } else {
                None
            }
        },
        Tree::Node { left, right, .. } => {
            let l = prefix.append(true);
            match find_code(left, b, l) {
                Some(s) => {
                    assert(prefix.data@.push(true) + find_path(**left, b)->0 =~= prefix.data@ + (
                    seq![true] + find_path(**left, b)->0));
                    Some(s)
                },
                None => {
                    let r = prefix.append(false);
                    let found = find_code(right, b, r);
                    proof {
                        if let Some(p) = find_path(**right, b) {
                            assert(prefix.data@.push(false) + p =~= prefix.data@ + (seq![false] + p));
                        }
                    }
                    found
                },
            }
        },
    }
}

/// The code of `b` in `t`.
fn code_for(t: &Tree, b: u8) -> (r: Symbol)
    ensures
        r.data@ == code_in(*t, b),
{
    match t {
        Tree::Leaf { .. } => {
            let mut v: Vec<bool> = Vec::new();
            v.push(true);
            assert(v@ =~= seq![true]);
            Symbol::from(v)
        },
        Tree::Node { .. } => {
            match find_code(t, b, Symbol::new()) {
                Some(s) => {
                    assert(Seq::<bool>::empty() + find_path(*t, b)->0 =~= find_path(*t, b)->0);
                    s
                },
                None => Symbol::new(),
            }
        },
    }
}

/// The code table of a frequency table indexed by byte value: for each
/// byte value that occurs, in increasing order, its Huffman code.
pub fn encode(freq_table: &Vec<u64>) -> (r: Vec<(u8, Symbol)>)
    requires
        freq_table@.len() <= 256,
        total(freq_table@) <= u64::MAX,
    ensures
        table_view(r@) == code_table(freq_table@),
        sorted_by_byte(table_view(r@)),
        covers(table_view(r@), freq_table@),
        codes_bounded(table_view(r@)),
        prefix_free(table_view(r@)),
{
    proof {
        lemma_code_table(freq_table@);
        reveal(code_table);
    }
    let ghost freq = freq_table@;
    let mut forest: Vec<Tree> = Vec::new();
    let mut k: usize = 0;
    while k < freq_table.len()
        invariant
            k <= freq.len(),
            freq == freq_table@,
            forest@ == leaves_upto(freq, k as nat),
        decreases freq.len() - k,
    {
        if freq_table[k] > 0 {
            forest.push(Tree::Leaf { data: k as u8, freq: freq_table[k] });
        }
        k = k + 1;
    }
    proof {
        lemma_leaves_weight(freq, freq.len());
    }
    let ghost init = forest@;
    while forest.len() > 1
        invariant
            build(forest@) == build(init),
            weight(forest@) <= u64::MAX,
        decreases forest@.len(),
    {
        let ghost f = forest@;
        let i = min_index_exec(&forest);
        let t1 = forest.remove(i);
        let j = min_index_exec(&forest);
        let t2 = forest.remove(j);
        proof {
            lemma_weight_remove(f, i as int);
            lemma_weight_remove(f.remove(i as int), j as int);
            lemma_weight_nonneg(forest@);
            lemma_merge_step(f);
        }
        let fr = t1.freq() + t2.freq();
        forest.push(Tree::Node { freq: fr, left: Box::new(t1), right: Box::new(t2) });
        proof {
            assert(forest@ =~= merge_step(f));
            lemma_weight_push(f.remove(i as int).remove(j as int), forest@.last());
        }
    }
    let mut table: Vec<(u8, Symbol)> = Vec::new();
    if forest.len() == 0 {
        assert(table_view(table@) =~= Seq::<(u8, Seq<bool>)>::empty());
        return table;
    }
    let tree = forest.remove(0);
    let mut k: usize = 0;
    assert(table_view(table@) =~= table_upto(tree, freq, 0));
    while k < freq_table.len()
        invariant
            k <= freq.len(),
            freq == freq_table@,
            table_view(table@) == table_upto(tree, freq, k as nat),
        decreases freq.len() - k,
    {
        if freq_table[k] > 0 {
            let code = code_for(&tree, k as u8);
            let ghost prev = table@;
            table.push((k as u8, code));
            assert(table_view(table@) =~= table_view(prev).push((k as u8, code_in(tree, k as u8))));
        }
        k = k + 1;
    }
    table
}

} // verus!
