//! Frequency analysis, deterministic Huffman tree construction and
//! code-table generation.
//!
//! The frequency table maps each symbol of the text to its number of
//! occurrences and is kept in ascending codepoint order; tree construction
//! repeatedly merges the two lowest-weight nodes, breaking ties by that fixed
//! order first and by insertion order for merged nodes, so that the same text
//! always yields the same tree and the same code table.

use vstd::prelude::*;

verus! {

/// A node of the Huffman tree: a leaf carries a symbol, an internal node
/// two children; both carry the aggregate weight of their leaves.
#[derive(Debug)]
pub struct HuffNode {
    pub value: Option<char>,
    pub freq: u64,
    pub left: Option<Box<HuffNode>>,
    pub right: Option<Box<HuffNode>>,
}

/// How many times `c` occurs in `s`.
pub open spec fn count_of(s: Seq<char>, c: char) -> nat
    decreases s.len(),
{
    if s.len() == 0 {
        0
    } else {
        count_of(s.drop_last(), c) + (if s.last() == c {
            1nat
        } else {
            0nat
        })
    }
}

/// Records one more occurrence of `c` in a frequency table sorted by
/// ascending codepoint.
pub open spec fn bump(t: Seq<(char, nat)>, c: char) -> Seq<(char, nat)>
    decreases t.len(),
{
    if t.len() == 0 {
        seq![(c, 1nat)]
    } else if c == t[0].0 {
        seq![(t[0].0, (t[0].1 + 1) as nat)] + t.drop_first()
    } else if (c as u32) < (t[0].0 as u32) {
        seq![(c, 1nat)] + t
    } else {
        seq![t[0]] + bump(t.drop_first(), c)
    }
}

/// The frequency table of `s`: one entry per distinct symbol, in ascending
/// codepoint order, counting its occurrences.
pub open spec fn freq_seq(s: Seq<char>) -> Seq<(char, nat)>
    decreases s.len(),
{
    if s.len() == 0 {
        Seq::empty()
    } else {
        bump(freq_seq(s.drop_last()), s.last())
    }
}

/// The count recorded for `c`, or zero if `c` has no entry.
pub open spec fn freq_lookup(t: Seq<(char, nat)>, c: char) -> nat
    decreases t.len(),
{
    if t.len() == 0 {
        0
    } else if t[0].0 == c {
        t[0].1
    } else {
        freq_lookup(t.drop_first(), c)
    }
}

/// A well-formed frequency table: strictly ascending codepoints, all counts
/// positive.
pub open spec fn freq_wf(t: Seq<(char, nat)>) -> bool {
    &&& forall|i: int, j: int|
        0 <= i < j < t.len() ==> (t[i].0 as u32) < (t[j].0 as u32)
    &&& forall|i: int| 0 <= i < t.len() ==> t[i].1 >= 1
}

/// The total of all counts.
pub open spec fn sum_counts(t: Seq<(char, nat)>) -> nat
    decreases t.len(),
{
    if t.len() == 0 {
        0
    } else {
        t[0].1 + sum_counts(t.drop_first())
    }
}

/// The mathematical table that an executable frequency table stands for.
pub open spec fn freq_view(t: Seq<(char, u64)>) -> Seq<(char, nat)> {
    t.map_values(|e: (char, u64)| (e.0, e.1 as nat))
}

pub proof fn lemma_count_of_le_len(s: Seq<char>, c: char)
    ensures
        count_of(s, c) <= s.len(),
    decreases s.len(),
{
    if s.len() > 0 {
        lemma_count_of_le_len(s.drop_last(), c);
    }
}

pub proof fn lemma_count_of_pos_iff_contains(s: Seq<char>, c: char)
    ensures
        count_of(s, c) >= 1 <==> s.contains(c),
    decreases s.len(),
{
    if s.len() > 0 {
        lemma_count_of_pos_iff_contains(s.drop_last(), c);
        if s.contains(c) {
            let i = choose|i: int| 0 <= i < s.len() && s[i] == c;
            if i < s.len() - 1 {
                assert(s.drop_last()[i] == c);
                assert(s.drop_last().contains(c));
            }
        }
        if s.drop_last().contains(c) {
            let i = choose|i: int| 0 <= i < s.drop_last().len() && s.drop_last()[i] == c;
            assert(s[i] == c);
        }
    }
}

pub proof fn lemma_bump_props(t: Seq<(char, nat)>, c: char)
    requires
        freq_wf(t),
    ensures
        freq_wf(bump(t, c)),
        freq_lookup(bump(t, c), c) == freq_lookup(t, c) + 1,
        forall|d: char| d != c ==> freq_lookup(bump(t, c), d) == freq_lookup(t, d),
        sum_counts(bump(t, c)) == sum_counts(t) + 1,
        bump(t, c).len() == t.len() + (if freq_lookup(t, c) >= 1 {
            0int
        } else {
            1int
        }),
        forall|i: int|
            0 <= i < bump(t, c).len() ==> (#[trigger] bump(t, c)[i]).0 == c || t.contains(
                bump(t, c)[i],
            ),
    decreases t.len(),
{
    let b = bump(t, c);
    if t.len() == 0 {
        assert(b =~= seq![(c, 1nat)]);
        assert forall|d: char| d != c implies freq_lookup(b, d) == freq_lookup(t, d) by {
            assert(freq_lookup(b, d) == freq_lookup(b.drop_first(), d));
            assert(b.drop_first().len() == 0);
        }
        assert(sum_counts(b) == 1 + sum_counts(b.drop_first()));
        assert(b.drop_first().len() == 0);
    } else if c == t[0].0 {
        assert(b =~= seq![(t[0].0, (t[0].1 + 1) as nat)] + t.drop_first());
        assert(b.drop_first() =~= t.drop_first());
        assert(forall|i: int| 1 <= i < t.len() ==> t.contains(#[trigger] t[i]));
        assert(freq_wf(b)) by {
            assert forall|i: int, j: int| 0 <= i < j < b.len() implies (
            #[trigger] b[i].0 as u32) < (#[trigger] b[j].0 as u32) by {
                assert(b[i].0 == t[i].0 && b[j].0 == t[j].0);
            }
        }
        assert forall|d: char| d != c implies freq_lookup(b, d) == freq_lookup(t, d) by {
            assert(freq_lookup(b, d) == freq_lookup(b.drop_first(), d));
            assert(freq_lookup(t, d) == freq_lookup(t.drop_first(), d));
        }
        assert(sum_counts(b) == b[0].1 + sum_counts(b.drop_first()));
        assert(sum_counts(t) == t[0].1 + sum_counts(t.drop_first()));
    } else if (c as u32) < (t[0].0 as u32) {
        assert(b =~= seq![(c, 1nat)] + t);
        assert(b.drop_first() =~= t);
        assert(freq_lookup(t, c) == 0) by {
            lemma_sorted_lookup_absent(t, c);
        }
        assert(forall|i: int| 0 <= i < t.len() ==> t.contains(#[trigger] t[i]));
        assert(freq_wf(b)) by {
            assert forall|i: int, j: int| 0 <= i < j < b.len() implies (
            #[trigger] b[i].0 as u32) < (#[trigger] b[j].0 as u32) by {
                if i > 0 {
                    assert(b[i].0 == t[i - 1].0 && b[j].0 == t[j - 1].0);
                } else {
                    assert(b[j].0 == t[j - 1].0);
                    if j > 1 {
                        assert((t[0].0 as u32) < (t[j - 1].0 as u32));
                    }
                }
            }
        }
        assert forall|d: char| d != c implies freq_lookup(b, d) == freq_lookup(t, d) by {
            assert(freq_lookup(b, d) == freq_lookup(b.drop_first(), d));
        }
        assert(sum_counts(b) == 1 + sum_counts(t));
    } else {
        let t1 = t.drop_first();
        let b1 = bump(t1, c);
        assert((t[0].0 as u32) < (c as u32)) by {
            vstd::utf8::char_u32_cast(c, c as u32);
            vstd::utf8::char_u32_cast(t[0].0, t[0].0 as u32);
        }
        assert(freq_wf(t1)) by {
            assert forall|i: int, j: int| 0 <= i < j < t1.len() implies (
            #[trigger] t1[i].0 as u32) < (#[trigger] t1[j].0 as u32) by {
                assert(t1[i] == t[i + 1] && t1[j] == t[j + 1]);
            }
        }
        lemma_bump_props(t1, c);
        assert(b =~= seq![t[0]] + b1);
        assert(b.drop_first() =~= b1);
        assert forall|i: int| 0 <= i < b.len() implies (#[trigger] b[i]).0 == c || t.contains(
            b[i],
        ) by {
            if i == 0 {
                assert(t.contains(t[0]));
            } else {
                assert(b[i] == b1[i - 1]);
                assert(b1[i - 1].0 == c || t1.contains(b1[i - 1]));
                if t1.contains(b1[i - 1]) {
                    let j = choose|j: int| 0 <= j < t1.len() && t1[j] == b1[i - 1];
                    assert(t[j + 1] == b1[i - 1]);
                    assert(t.contains(t[j + 1]));
                }
            }
        }
        assert(freq_wf(b)) by {
            assert forall|i: int, j: int| 0 <= i < j < b.len() implies (
            #[trigger] b[i].0 as u32) < (#[trigger] b[j].0 as u32) by {
                if i > 0 {
                    assert(b[i] == b1[i - 1] && b[j] == b1[j - 1]);
                } else {
                    assert(b[j] == b1[j - 1]);
                    assert(b1[j - 1].0 == c || t1.contains(b1[j - 1]));
                    if t1.contains(b1[j - 1]) {
                        let m = choose|m: int| 0 <= m < t1.len() && t1[m] == b1[j - 1];
                        assert(t1[m] == t[m + 1]);
                        assert((t[0].0 as u32) < (t[m + 1].0 as u32));
                    }
                }
            }
        }
        assert forall|d: char| d != c implies freq_lookup(b, d) == freq_lookup(t, d) by {
            if t[0].0 == d {
                assert(freq_lookup(b, d) == t[0].1);
            } else {
                assert(freq_lookup(b, d) == freq_lookup(b1, d));
                assert(freq_lookup(t, d) == freq_lookup(t1, d));
            }
        }
        assert(freq_lookup(b, c) == freq_lookup(b1, c));
        assert(freq_lookup(t, c) == freq_lookup(t1, c));
        assert(sum_counts(b) == t[0].1 + sum_counts(b1));
        assert(sum_counts(t) == t[0].1 + sum_counts(t1));
    }
}

/// In a sorted table, a symbol below the first entry has no entry.
proof fn lemma_sorted_lookup_absent(t: Seq<(char, nat)>, c: char)
    requires
        freq_wf(t),
        t.len() == 0 || (c as u32) < (t[0].0 as u32),
    ensures
        freq_lookup(t, c) == 0,
    decreases t.len(),
{
    if t.len() > 0 {
        let t1 = t.drop_first();
        assert(forall|i: int, j: int|
            0 <= i < j < t1.len() ==> (t1[i].0 as u32) < (t1[j].0 as u32));
        if t1.len() > 0 {
            assert((t[0].0 as u32) < (t1[0].0 as u32));
        }
        lemma_sorted_lookup_absent(t1, c);
    }
}

/// In a well-formed table, the entry at `k` records the lookup of its symbol.
pub proof fn lemma_lookup_at(t: Seq<(char, nat)>, k: int)
    requires
        freq_wf(t),
        0 <= k < t.len(),
    ensures
        freq_lookup(t, t[k].0) == t[k].1,
    decreases t.len(),
{
    if k > 0 {
        let t1 = t.drop_first();
        assert(freq_wf(t1)) by {
            assert(forall|i: int, j: int|
                0 <= i < j < t1.len() ==> (t1[i].0 as u32) < (t1[j].0 as u32));
        }
        assert((t[0].0 as u32) < (t[k].0 as u32));
        lemma_lookup_at(t1, k - 1);
    }
}

/// The frequency table of `s` is well formed, records exactly the occurrence
/// counts of `s`, and its counts total the length of `s`.
pub proof fn lemma_freq_seq_props(s: Seq<char>)
    ensures
        freq_wf(freq_seq(s)),
        forall|c: char| #[trigger] freq_lookup(freq_seq(s), c) == count_of(s, c),
        sum_counts(freq_seq(s)) == s.len(),
    decreases s.len(),
{
    if s.len() > 0 {
        lemma_freq_seq_props(s.drop_last());
        lemma_bump_props(freq_seq(s.drop_last()), s.last());
        assert forall|c: char| #[trigger] freq_lookup(freq_seq(s), c) == count_of(s, c) by {
            if c == s.last() {
                assert(freq_lookup(freq_seq(s), c) == freq_lookup(freq_seq(s.drop_last()), c)
                    + 1);
            } else {
                assert(freq_lookup(freq_seq(s), c) == freq_lookup(freq_seq(s.drop_last()), c));
            }
        }
    }
}

/// A symbol has an entry exactly when it occurs in the text.
pub proof fn lemma_freq_seq_contains(s: Seq<char>, c: char)
    ensures
        (exists|k: int| 0 <= k < freq_seq(s).len() && freq_seq(s)[k].0 == c) <==> s.contains(c),
{
    lemma_freq_seq_props(s);
    lemma_count_of_pos_iff_contains(s, c);
    let t = freq_seq(s);
    if exists|k: int| 0 <= k < t.len() && t[k].0 == c {
        let k = choose|k: int| 0 <= k < t.len() && t[k].0 == c;
        lemma_lookup_at(t, k);
    }
    if s.contains(c) {
        lemma_lookup_pos_gives_index(t, c);
    }
}

proof fn lemma_lookup_pos_gives_index(t: Seq<(char, nat)>, c: char)
    requires
        freq_lookup(t, c) >= 1,
    ensures
        exists|k: int| 0 <= k < t.len() && t[k].0 == c,
    decreases t.len(),
{
    if t.len() > 0 {
        if t[0].0 == c {
            assert(t[0].0 == c);
        } else {
            lemma_lookup_pos_gives_index(t.drop_first(), c);
            let k = choose|k: int|
                0 <= k < t.drop_first().len() && t.drop_first()[k].0 == c;
            assert(t[k + 1].0 == c);
        }
    }
}

/// Records one more occurrence of `c` in the executable frequency table.
pub fn bump_exec(t: &mut Vec<(char, u64)>, c: char)
    requires
        forall|m: int| 0 <= m < old(t)@.len() ==> old(t)@[m].1 < u64::MAX,
    ensures
        freq_view(final(t)@) == bump(freq_view(old(t)@), c),
{
    let ghost t0 = freq_view(old(t)@);
    let cu: u32 = c as u32;
    let mut p: usize = 0;
    while p < t.len() && (t[p].0 as u32) < cu
        invariant
            p <= t@.len(),
            t@ == old(t)@,
            forall|m: int| 0 <= m < p ==> (t@[m].0 as u32) < cu,
        decreases t@.len() - p,
    {
        p = p + 1;
    }
    if p < t.len() && t[p].0 == c {
        let e = t[p];
        t[p] = (e.0, e.1 + 1);
        proof {
            lemma_bump_found(t0, c, p as int);
            assert(freq_view(t@) =~= t0.update(p as int, (t0[p as int].0, (t0[p as int].1 + 1) as nat)));
        }
    } else {
        t.insert(p, (c, 1));
        proof {
            lemma_bump_insert(t0, c, p as int);
            assert(freq_view(t@) =~= t0.insert(p as int, (c, 1nat)));
        }
    }
}

/// Where the scan stops on an equal symbol, `bump` updates that entry.
proof fn lemma_bump_found(t: Seq<(char, nat)>, c: char, p: int)
    requires
        0 <= p < t.len(),
        forall|m: int| 0 <= m < p ==> (t[m].0 as u32) < (c as u32),
        t[p].0 == c,
    ensures
        bump(t, c) == t.update(p, (t[p].0, (t[p].1 + 1) as nat)),
    decreases p,
{
    if p == 0 {
        assert(bump(t, c) =~= t.update(0, (t[0].0, (t[0].1 + 1) as nat)));
    } else {
        let t1 = t.drop_first();
        lemma_bump_found(t1, c, p - 1);
        assert((t[0].0 as u32) < (c as u32));
        assert(bump(t, c) =~= t.update(p, (t[p].0, (t[p].1 + 1) as nat)));
    }
}

/// Where the scan stops short of an equal symbol, `bump` inserts a new entry.
proof fn lemma_bump_insert(t: Seq<(char, nat)>, c: char, p: int)
    requires
        0 <= p <= t.len(),
        forall|m: int| 0 <= m < p ==> (t[m].0 as u32) < (c as u32),
        p < t.len() ==> (c as u32) <= (t[p].0 as u32) && t[p].0 != c,
    ensures
        bump(t, c) == t.insert(p, (c, 1nat)),
    decreases p,
{
    if p == 0 {
        if t.len() == 0 {
            assert(bump(t, c) =~= t.insert(0, (c, 1nat)));
        } else {
            assert((c as u32) != (t[0].0 as u32)) by {
                vstd::utf8::char_u32_cast(c, c as u32);
                vstd::utf8::char_u32_cast(t[0].0, t[0].0 as u32);
            }
            assert(bump(t, c) =~= t.insert(0, (c, 1nat)));
        }
    } else {
        let t1 = t.drop_first();
        lemma_bump_insert(t1, c, p - 1);
        assert((t[0].0 as u32) < (c as u32));
        assert(bump(t, c) =~= t.insert(p, (c, 1nat)));
    }
}

/// Counts the occurrences of every symbol of `input`, in ascending codepoint
/// order.
pub fn calculate_frequency(input: &str) -> (t: Vec<(char, u64)>)
    ensures
        freq_view(t@) == freq_seq(input@),
        input@.len() <= usize::MAX,
{
    let n: usize = input.unicode_len();
    let mut t: Vec<(char, u64)> = Vec::new();
    let mut i: usize = 0;
    while i < n
        invariant
            n == input@.len(),
            i <= n,
            freq_view(t@) == freq_seq(input@.take(i as int)),
        decreases n - i,
    {
        let c = input.get_char(i);
        proof {
            lemma_freq_seq_props(input@.take(i as int));
            assert forall|m: int| 0 <= m < t@.len() implies t@[m].1 < u64::MAX by {
                lemma_lookup_at(freq_seq(input@.take(i as int)), m);
                lemma_count_of_le_len(input@.take(i as int), t@[m].0);
                assert(t@[m].1 as nat == freq_view(t@)[m].1);
            }
        }
        bump_exec(&mut t, c);
        i = i + 1;
        proof {
            assert(input@.take(i as int).drop_last() =~= input@.take(i as int - 1));
            assert(input@.take(i as int).last() == c);
        }
    }
    proof {
        assert(input@.take(n as int) =~= input@);
    }
    t
}


/// A structurally sound tree: a leaf carries a symbol and no children, an
/// internal node no symbol and both children.
pub open spec fn wf(n: HuffNode) -> bool
    decreases n,
{
    match (n.left, n.right) {
        (Option::None, Option::None) => n.value is Some,
        (Option::Some(l), Option::Some(r)) => n.value is None && wf(*l) && wf(*r),
        _ => false,
    }
}

/// The symbols at the leaves of `n`, left to right.
pub open spec fn leaves_of(n: HuffNode) -> Seq<char>
    decreases n,
{
    match (n.value, n.left, n.right) {
        (Option::Some(c), _, _) => seq![c],
        (Option::None, Option::Some(l), Option::Some(r)) => leaves_of(*l) + leaves_of(*r),
        _ => Seq::empty(),
    }
}

/// The height of `n`: a childless node has height zero.
pub open spec fn height(n: HuffNode) -> nat
    decreases n,
{
    match (n.left, n.right) {
        (Option::Some(l), Option::Some(r)) => 1 + (if height(*l) >= height(*r) {
            height(*l)
        } else {
            height(*r)
        }),
        _ => 0,
    }
}

/// A well-formed tree has a leaf, and its height stays below its leaf count.
pub proof fn lemma_height_le_leaves(t: HuffNode)
    requires
        wf(t),
    ensures
        leaves_of(t).len() >= 1,
        height(t) + 1 <= leaves_of(t).len(),
    decreases t,
{
    match (t.left, t.right) {
        (Option::Some(l), Option::Some(r)) => {
            lemma_height_le_leaves(*l);
            lemma_height_le_leaves(*r);
        },
        _ => {},
    }
}

/// Every tree in the queue is well formed.
pub open spec fn all_wf(q: Seq<HuffNode>) -> bool {
    forall|i: int| 0 <= i < q.len() ==> wf(#[trigger] q[i])
}

/// The total weight of the queue.
pub open spec fn sum_freqs(q: Seq<HuffNode>) -> nat
    decreases q.len(),
{
    if q.len() == 0 {
        0
    } else {
        (q[0].freq as nat) + sum_freqs(q.drop_first())
    }
}

/// The leaf symbols of all trees in the queue, in queue order.
pub open spec fn queue_leaves(q: Seq<HuffNode>) -> Seq<char>
    decreases q.len(),
{
    if q.len() == 0 {
        Seq::empty()
    } else {
        leaves_of(q[0]) + queue_leaves(q.drop_first())
    }
}

/// The first index of a lowest-weight tree in the queue.
pub open spec fn min_index(q: Seq<HuffNode>) -> int
    decreases q.len(),
{
    if q.len() <= 1 {
        0
    } else {
        let m = min_index(q.drop_last());
        if q.last().freq < q[m].freq {
            q.len() - 1
        } else {
            m
        }
    }
}

pub proof fn lemma_min_index_in_range(q: Seq<HuffNode>)
    requires
        q.len() >= 1,
    ensures
        0 <= min_index(q) < q.len(),
    decreases q.len(),
{
    if q.len() > 1 {
        lemma_min_index_in_range(q.drop_last());
    }
}

/// The merge of two trees: an internal node whose weight is their sum.
pub open spec fn merge_two(a: HuffNode, b: HuffNode) -> HuffNode {
    HuffNode {
        value: Option::None,
        freq: (a.freq + b.freq) as u64,
        left: Option::Some(Box::new(a)),
        right: Option::Some(Box::new(b)),
    }
}

/// One round of tree construction: take out the two lowest-weight trees
/// (ties resolved towards the front of the queue) and append their merge.
pub open spec fn merge_step(q: Seq<HuffNode>) -> Seq<HuffNode> {
    let i1 = min_index(q);
    let a = q[i1];
    let q1 = q.remove(i1);
    let i2 = min_index(q1);
    let b = q1[i2];
    let q2 = q1.remove(i2);
    q2.push(merge_two(a, b))
}

/// Repeats `merge_step` until one tree remains.
pub open spec fn build_tree_spec(q: Seq<HuffNode>) -> Seq<HuffNode>
    decreases q.len(),
    via build_tree_spec_decreases
{
    if q.len() <= 1 {
        q
    } else {
        build_tree_spec(merge_step(q))
    }
}

#[via_fn]
proof fn build_tree_spec_decreases(q: Seq<HuffNode>) {
    if q.len() > 1 {
        lemma_min_index_in_range(q);
        lemma_min_index_in_range(q.remove(min_index(q)));
    }
}

pub proof fn lemma_sum_freqs_remove(q: Seq<HuffNode>, i: int)
    requires
        0 <= i < q.len(),
    ensures
        sum_freqs(q) == sum_freqs(q.remove(i)) + q[i].freq,
    decreases i,
{
    if i == 0 {
        assert(q.remove(0) =~= q.drop_first());
    } else {
        assert(q.remove(i).drop_first() =~= q.drop_first().remove(i - 1));
        lemma_sum_freqs_remove(q.drop_first(), i - 1);
    }
}

pub proof fn lemma_queue_leaves_remove(q: Seq<HuffNode>, i: int)
    requires
        0 <= i < q.len(),
    ensures
        queue_leaves(q.remove(i)).len() + leaves_of(q[i]).len() == queue_leaves(q).len(),
        forall|c: char|
            #![trigger queue_leaves(q).contains(c)]
            queue_leaves(q).contains(c) <==> (leaves_of(q[i]).contains(c) || queue_leaves(
                q.remove(i),
            ).contains(c)),
    decreases i,
{
    if i == 0 {
        assert(q.remove(0) =~= q.drop_first());
        assert forall|c: char|
            queue_leaves(q).contains(c) <==> (leaves_of(q[0]).contains(c) || queue_leaves(
                q.drop_first(),
            ).contains(c)) by {
            lemma_concat_contains(leaves_of(q[0]), queue_leaves(q.drop_first()), c);
        }
    } else {
        assert(q.remove(i).drop_first() =~= q.drop_first().remove(i - 1));
        lemma_queue_leaves_remove(q.drop_first(), i - 1);
        assert(q.drop_first()[i - 1] == q[i]);
        assert forall|c: char|
            queue_leaves(q).contains(c) <==> (leaves_of(q[i]).contains(c) || queue_leaves(
                q.remove(i),
            ).contains(c)) by {
            lemma_concat_contains(leaves_of(q[0]), queue_leaves(q.drop_first()), c);
            lemma_concat_contains(leaves_of(q.remove(i)[0]), queue_leaves(q.remove(i).drop_first()), c);
            assert(q.remove(i)[0] == q[0]);
        }
    }
}

pub proof fn lemma_queue_leaves_push(q: Seq<HuffNode>, x: HuffNode)
    ensures
        queue_leaves(q.push(x)).len() == queue_leaves(q).len() + leaves_of(x).len(),
        forall|c: char|
            #![trigger queue_leaves(q.push(x)).contains(c)]
            queue_leaves(q.push(x)).contains(c) <==> (queue_leaves(q).contains(c) || leaves_of(
                x,
            ).contains(c)),
    decreases q.len(),
{
    if q.len() == 0 {
        assert(q.push(x).drop_first() =~= q);
        assert forall|c: char|
            queue_leaves(q.push(x)).contains(c) <==> (queue_leaves(q).contains(c) || leaves_of(
                x,
            ).contains(c)) by {
            lemma_concat_contains(leaves_of(x), queue_leaves(q), c);
        }
    } else {
        assert(q.push(x).drop_first() =~= q.drop_first().push(x));
        lemma_queue_leaves_push(q.drop_first(), x);
        assert forall|c: char|
            queue_leaves(q.push(x)).contains(c) <==> (queue_leaves(q).contains(c) || leaves_of(
                x,
            ).contains(c)) by {
            lemma_concat_contains(leaves_of(q[0]), queue_leaves(q.drop_first().push(x)), c);
            lemma_concat_contains(leaves_of(q[0]), queue_leaves(q.drop_first()), c);
        }
    }
}

/// Membership in a concatenation is membership in either part.
proof fn lemma_concat_contains(a: Seq<char>, b: Seq<char>, c: char)
    ensures
        (a + b).contains(c) <==> (a.contains(c) || b.contains(c)),
{
    if a.contains(c) {
        let i = choose|i: int| 0 <= i < a.len() && a[i] == c;
        assert((a + b)[i] == c);
    }
    if b.contains(c) {
        let i = choose|i: int| 0 <= i < b.len() && b[i] == c;
        assert((a + b)[a.len() + i] == c);
    }
    if (a + b).contains(c) {
        let i = choose|i: int| 0 <= i < (a + b).len() && (a + b)[i] == c;
        if i < a.len() {
            assert(a[i] == c);
        } else {
            assert(b[i - a.len()] == c);
        }
    }
}

pub proof fn lemma_merge_step_props(q: Seq<HuffNode>)
    requires
        q.len() >= 2,
        all_wf(q),
    ensures
        merge_step(q).len() == q.len() - 1,
        all_wf(merge_step(q)),
        sum_freqs(q) <= u64::MAX ==> sum_freqs(merge_step(q)) == sum_freqs(q),
        queue_leaves(merge_step(q)).len() == queue_leaves(q).len(),
        forall|c: char|
            #![trigger queue_leaves(merge_step(q)).contains(c)]
            queue_leaves(merge_step(q)).contains(c) <==> queue_leaves(q).contains(c),
        q.len() == 2 ==> merge_step(q)[0].value is None,
{
    let i1 = min_index(q);
    lemma_min_index_in_range(q);
    let a = q[i1];
    let q1 = q.remove(i1);
    let i2 = min_index(q1);
    lemma_min_index_in_range(q1);
    let b = q1[i2];
    let q2 = q1.remove(i2);
    let m = merge_two(a, b);
    assert(all_wf(q1)) by {
        assert forall|i: int| 0 <= i < q1.len() implies wf(#[trigger] q1[i]) by {
            if i < i1 {
                assert(q1[i] == q[i]);
            } else {
                assert(q1[i] == q[i + 1]);
            }
        }
    }
    assert(all_wf(q2)) by {
        assert forall|i: int| 0 <= i < q2.len() implies wf(#[trigger] q2[i]) by {
            if i < i2 {
                assert(q2[i] == q1[i]);
            } else {
                assert(q2[i] == q1[i + 1]);
            }
        }
    }
    assert(wf(m));
    assert(all_wf(merge_step(q))) by {
        assert forall|i: int| 0 <= i < q2.push(m).len() implies wf(#[trigger] q2.push(m)[i]) by {
            if i < q2.len() {
                assert(q2.push(m)[i] == q2[i]);
            } else {
                assert(q2.push(m)[i] == m);
            }
        }
    }
    lemma_sum_freqs_remove(q, i1);
    lemma_sum_freqs_remove(q1, i2);
    lemma_sum_freqs_push(q2, m);
    lemma_queue_leaves_remove(q, i1);
    lemma_queue_leaves_remove(q1, i2);
    lemma_queue_leaves_push(q2, m);
    assert(leaves_of(m) =~= leaves_of(a) + leaves_of(b));
    assert forall|c: char|
        queue_leaves(merge_step(q)).contains(c) <==> queue_leaves(q).contains(c) by {
        lemma_concat_contains(leaves_of(a), leaves_of(b), c);
    }
}

pub proof fn lemma_sum_freqs_push(q: Seq<HuffNode>, x: HuffNode)
    ensures
        sum_freqs(q.push(x)) == sum_freqs(q) + x.freq,
    decreases q.len(),
{
    if q.len() == 0 {
        assert(q.push(x).drop_first() =~= q);
    } else {
        assert(q.push(x).drop_first() =~= q.drop_first().push(x));
        lemma_sum_freqs_push(q.drop_first(), x);
    }
}

/// Repeated merging of a well-formed queue yields one well-formed tree that
/// carries exactly the queue's leaf symbols.
pub proof fn lemma_build_tree_props(q: Seq<HuffNode>)
    requires
        q.len() >= 1,
        all_wf(q),
    ensures
        build_tree_spec(q).len() == 1,
        wf(build_tree_spec(q)[0]),
        leaves_of(build_tree_spec(q)[0]).len() == queue_leaves(q).len(),
        forall|c: char|
            #![trigger leaves_of(build_tree_spec(q)[0]).contains(c)]
            leaves_of(build_tree_spec(q)[0]).contains(c) <==> queue_leaves(q).contains(c),
        q.len() >= 2 ==> build_tree_spec(q)[0].value is None,
    decreases q.len(),
{
    if q.len() == 1 {
        assert(queue_leaves(q) =~= leaves_of(q[0]) + queue_leaves(q.drop_first()));
        assert(queue_leaves(q.drop_first()).len() == 0);
        assert forall|c: char|
            leaves_of(build_tree_spec(q)[0]).contains(c) <==> queue_leaves(q).contains(c) by {
            lemma_concat_contains(leaves_of(q[0]), queue_leaves(q.drop_first()), c);
        }
    } else {
        lemma_merge_step_props(q);
        lemma_build_tree_props(merge_step(q));
        if q.len() == 2 {
            assert(build_tree_spec(merge_step(q)) == merge_step(q));
        }
    }
}


/// One leaf per frequency-table entry, in table order.
pub open spec fn leaves_of_table(t: Seq<(char, nat)>) -> Seq<HuffNode> {
    t.map_values(
        |e: (char, nat)|
            HuffNode {
                value: Option::Some(e.0),
                freq: e.1 as u64,
                left: Option::None,
                right: Option::None,
            },
    )
}

/// The leaf queue of a text's frequency table.
pub open spec fn spec_leaves(s: Seq<char>) -> Seq<HuffNode> {
    leaves_of_table(freq_seq(s))
}

/// The tree that construction yields for a non-empty text.
pub open spec fn spec_root(s: Seq<char>) -> HuffNode {
    build_tree_spec(spec_leaves(s))[0]
}

pub proof fn lemma_leaves_of_table_props(t: Seq<(char, nat)>)
    ensures
        all_wf(leaves_of_table(t)),
        (forall|i: int| 0 <= i < t.len() ==> (#[trigger] t[i]).1 <= u64::MAX) ==> sum_freqs(
            leaves_of_table(t),
        ) == sum_counts(t),
        queue_leaves(leaves_of_table(t)).len() == t.len(),
        forall|c: char|
            #![trigger queue_leaves(leaves_of_table(t)).contains(c)]
            queue_leaves(leaves_of_table(t)).contains(c) <==> (exists|k: int|
                0 <= k < t.len() && t[k].0 == c),
    decreases t.len(),
{
    let q = leaves_of_table(t);
    assert(all_wf(q)) by {
        assert forall|i: int| 0 <= i < q.len() implies wf(#[trigger] q[i]) by {
            assert(q[i].value is Some);
        }
    }
    if t.len() == 0 {
    } else {
        let t1 = t.drop_first();
        lemma_leaves_of_table_props(t1);
        if forall|i: int| 0 <= i < t.len() ==> (#[trigger] t[i]).1 <= u64::MAX {
            assert(forall|i: int| 0 <= i < t1.len() ==> (#[trigger] t1[i]).1 <= u64::MAX);
            assert(sum_freqs(leaves_of_table(t1)) == sum_counts(t1));
            assert(q[0].freq as nat == t[0].1);
        }
        assert(q.drop_first() =~= leaves_of_table(t1));
        assert(leaves_of(q[0]) =~= seq![t[0].0]);
        assert(sum_freqs(q) == (q[0].freq as nat) + sum_freqs(q.drop_first()));
        assert(sum_counts(t) == t[0].1 + sum_counts(t1));
        assert forall|c: char|
            queue_leaves(q).contains(c) <==> (exists|k: int| 0 <= k < t.len() && t[k].0 == c) by {
            lemma_concat_contains(leaves_of(q[0]), queue_leaves(q.drop_first()), c);
            assert(queue_leaves(q) == leaves_of(q[0]) + queue_leaves(q.drop_first()));
            assert(queue_leaves(q.drop_first()).contains(c) == queue_leaves(
                leaves_of_table(t1),
            ).contains(c));
            assert(leaves_of(q[0]).contains(c) <==> t[0].0 == c) by {
                if leaves_of(q[0]).contains(c) {
                    assert(leaves_of(q[0])[0] == t[0].0);
                }
                if t[0].0 == c {
                    assert(leaves_of(q[0])[0] == c);
                }
            }
            if t[0].0 == c {
                assert(t[0].0 == c && 0 < t.len());
            }
            if exists|k: int| 0 <= k < t1.len() && t1[k].0 == c {
                let k = choose|k: int| 0 <= k < t1.len() && t1[k].0 == c;
                assert(t[k + 1].0 == c);
            }
            if exists|k: int| 0 <= k < t.len() && t[k].0 == c {
                let k = choose|k: int| 0 <= k < t.len() && t[k].0 == c;
                if k > 0 {
                    assert(t1[k - 1].0 == c);
                }
            }
        }
    }
}

/// Seeds the tree builder: one leaf per frequency-table entry, kept in the
/// table's ascending codepoint order.
pub fn generate_queue(map: &Vec<(char, u64)>) -> (q: Vec<HuffNode>)
    ensures
        q@ == leaves_of_table(freq_view(map@)),
{
    let mut q: Vec<HuffNode> = Vec::new();
    let mut i: usize = 0;
    while i < map.len()
        invariant
            i <= map@.len(),
            q@ =~= leaves_of_table(freq_view(map@)).take(i as int),
        decreases map@.len() - i,
    {
        let e = map[i];
        q.push(
            HuffNode { value: Some(e.0), freq: e.1, left: None, right: None },
        );
        i = i + 1;
    }
    proof {
        assert(q@ =~= leaves_of_table(freq_view(map@)));
    }
    q
}

/// The first index of a lowest-weight tree.
fn find_min(nodes: &Vec<HuffNode>) -> (i: usize)
    requires
        nodes@.len() >= 1,
    ensures
        i == min_index(nodes@),
        0 <= i < nodes@.len(),
        forall|m: int| 0 <= m < nodes@.len() ==> nodes@[i as int].freq <= (#[trigger] nodes@[m]).freq,
{
    let mut best: usize = 0;
    let mut j: usize = 1;
    while j < nodes.len()
        invariant
            1 <= j <= nodes@.len(),
            best < j,
            best == min_index(nodes@.take(j as int)),
            forall|m: int| 0 <= m < j ==> nodes@[best as int].freq <= (#[trigger] nodes@[m]).freq,
        decreases nodes@.len() - j,
    {
        proof {
            assert(nodes@.take(j as int + 1).drop_last() =~= nodes@.take(j as int));
            assert(nodes@.take(j as int + 1).last() == nodes@[j as int]);
        }
        if nodes[j].freq < nodes[best].freq {
            best = j;
        }
        j = j + 1;
    }
    proof {
        assert(nodes@.take(nodes@.len() as int) =~= nodes@);
    }
    best
}

/// Merges the two lowest-weight trees until one remains, ties resolved by
/// position in the queue, and returns that root.
pub fn generate_tree(nodes: Vec<HuffNode>) -> (root: HuffNode)
    requires
        nodes@.len() >= 1,
        all_wf(nodes@),
        sum_freqs(nodes@) <= u64::MAX,
    ensures
        root == build_tree_spec(nodes@)[0],
{
    let mut nodes = nodes;
    let ghost orig = nodes@;
    let ghost total = sum_freqs(orig);
    while nodes.len() > 1
        invariant
            nodes@.len() >= 1,
            all_wf(nodes@),
            sum_freqs(nodes@) == total,
            total <= u64::MAX,
            build_tree_spec(nodes@) == build_tree_spec(orig),
        decreases nodes@.len(),
    {
        let ghost q0 = nodes@;
        let i1 = find_min(&nodes);
        let curr = nodes.remove(i1);
        let ghost q1 = nodes@;
        proof {
            lemma_sum_freqs_remove(q0, i1 as int);
        }
        let i2 = find_min(&nodes);
        let next = nodes.remove(i2);
        proof {
            lemma_sum_freqs_remove(q1, i2 as int);
        }
        let node = HuffNode {
            value: None,
            freq: curr.freq + next.freq,
            left: Some(Box::new(curr)),
            right: Some(Box::new(next)),
        };
        nodes.push(node);
        proof {
            assert(node == merge_two(q0[min_index(q0)], q1[min_index(q1)]));
            assert(nodes@ =~= merge_step(q0));
            lemma_merge_step_props(q0);
        }
    }
    let root = nodes.remove(0);
    proof {
        assert(build_tree_spec(nodes@.insert(0, root)) == build_tree_spec(orig));
    }
    root
}

/// Analyzes `input` and builds its Huffman tree; an empty text has none.
pub fn build(input: &str) -> (r: Option<HuffNode>)
    ensures
        r is Some <==> input@.len() > 0,
        r matches Some(root) ==> root == spec_root(input@),
{
    let freq_map = calculate_frequency(input);
    proof {
        lemma_freq_seq_props(input@);
        assert(input@.len() <= usize::MAX);
        assert(sum_counts(freq_seq(input@)) <= u64::MAX);
        assert forall|i: int|
            0 <= i < freq_seq(input@).len() implies (#[trigger] freq_seq(input@)[i]).1
            <= u64::MAX by {
            lemma_lookup_at(freq_seq(input@), i);
            lemma_count_of_le_len(input@, freq_seq(input@)[i].0);
        }
        lemma_leaves_of_table_props(freq_seq(input@));
    }
    if freq_map.len() == 0 {
        proof {
            assert(sum_counts(freq_seq(input@)) == 0);
        }
        None
    } else {
        proof {
            assert(freq_seq(input@)[0].1 >= 1);
            assert(sum_counts(freq_seq(input@)) >= freq_seq(input@)[0].1) by {
                assert(sum_counts(freq_seq(input@)) == freq_seq(input@)[0].1 + sum_counts(
                    freq_seq(input@).drop_first(),
                ));
            }
        }
        let queue = generate_queue(&freq_map);
        let root = generate_tree(queue);
        Some(root)
    }
}


/// The code table read off a tree by depth-first traversal: appending a zero
/// bit descending left and a one bit descending right, recording each leaf's
/// symbol with its accumulated path.
pub open spec fn table_of(n: HuffNode, prefix: Seq<bool>) -> Seq<(char, Seq<bool>)>
    decreases n,
{
    match (n.value, n.left, n.right) {
        (Option::Some(c), _, _) => seq![(c, prefix)],
        (Option::None, Option::Some(l), Option::Some(r)) => table_of(*l, prefix.push(false))
            + table_of(*r, prefix.push(true)),
        _ => Seq::empty(),
    }
}

/// The code table of a whole tree.  A tree that is a single leaf gets the
/// fixed one-entry table with the single-bit code `0`.
pub open spec fn coding_table(root: HuffNode) -> Seq<(char, Seq<bool>)> {
    match root.value {
        Option::Some(c) => seq![(c, seq![false])],
        Option::None => table_of(root, Seq::empty()),
    }
}

/// The mathematical table that an executable code table stands for.
pub open spec fn table_view(m: Seq<(char, Vec<bool>)>) -> Seq<(char, Seq<bool>)> {
    m.map_values(|e: (char, Vec<bool>)| (e.0, e.1@))
}

/// The code table of a text: empty for the empty text, else read off the
/// constructed tree.
pub open spec fn spec_table(s: Seq<char>) -> Seq<(char, Seq<bool>)> {
    if freq_seq(s).len() == 0 {
        Seq::empty()
    } else {
        coding_table(spec_root(s))
    }
}

/// Two sequences that differ at a shared position prefix neither way.
pub proof fn lemma_differ_not_prefix(a: Seq<bool>, b: Seq<bool>, k: int)
    requires
        0 <= k < a.len(),
        0 <= k < b.len(),
        a[k] != b[k],
    ensures
        !a.is_prefix_of(b),
        !b.is_prefix_of(a),
{
    if a.is_prefix_of(b) {
        assert(a =~= b.subrange(0, a.len() as int));
        assert(a[k] == b[k]);
    }
    if b.is_prefix_of(a) {
        assert(b =~= a.subrange(0, b.len() as int));
        assert(a[k] == b[k]);
    }
}

/// Depth-first traversal of a well-formed tree lists one prefix-extended
/// code per leaf, in leaf order, and no code is a prefix of another.
pub proof fn lemma_table_of_props(t: HuffNode, p: Seq<bool>)
    requires
        wf(t),
    ensures
        table_of(t, p).len() == leaves_of(t).len(),
        forall|i: int|
            0 <= i < table_of(t, p).len() ==> (#[trigger] table_of(t, p)[i]).0 == leaves_of(t)[i],
        forall|i: int|
            0 <= i < table_of(t, p).len() ==> p.is_prefix_of(#[trigger] table_of(t, p)[i].1),
        forall|i: int|
            0 <= i < table_of(t, p).len() ==> (#[trigger] table_of(t, p)[i]).1.len() <= p.len()
                + height(t),
        t.value is None ==> forall|i: int|
            0 <= i < table_of(t, p).len() ==> (#[trigger] table_of(t, p)[i]).1.len() > p.len(),
        forall|i: int, j: int|
            0 <= i < table_of(t, p).len() && 0 <= j < table_of(t, p).len() && i != j ==> !(
            #[trigger] table_of(t, p)[i].1).is_prefix_of(#[trigger] table_of(t, p)[j].1),
    decreases t,
{
    let tab = table_of(t, p);
    match (t.value, t.left, t.right) {
        (Option::Some(c), _, _) => {
            assert(tab =~= seq![(c, p)]);
            assert(leaves_of(t) =~= seq![c]);
            assert(p.is_prefix_of(p)) by {
                assert(p =~= p.subrange(0, p.len() as int));
            }
        },
        (Option::None, Option::Some(l), Option::Some(r)) => {
            let p0 = p.push(false);
            let p1 = p.push(true);
            let tl = table_of(*l, p0);
            let tr = table_of(*r, p1);
            lemma_table_of_props(*l, p0);
            lemma_table_of_props(*r, p1);
            assert(tab =~= tl + tr);
            assert(leaves_of(t) =~= leaves_of(*l) + leaves_of(*r));
            assert forall|i: int|
                0 <= i < tab.len() implies (#[trigger] tab[i]).0 == leaves_of(t)[i] by {
                if i < tl.len() {
                    assert(tab[i] == tl[i]);
                    assert(leaves_of(t)[i] == leaves_of(*l)[i]);
                } else {
                    assert(tab[i] == tr[i - tl.len()]);
                    assert(leaves_of(t)[i] == leaves_of(*r)[i - tl.len()]);
                }
            }
            assert forall|i: int|
                0 <= i < tab.len() implies p.is_prefix_of(#[trigger] tab[i].1) && tab[i].1.len()
                > p.len() && tab[i].1.len() <= p.len() + height(t) by {
                let q = if i < tl.len() {
                    p0
                } else {
                    p1
                };
                let code = tab[i].1;
                assert(q.is_prefix_of(code));
                assert(code.len() >= q.len());
                assert(q =~= code.subrange(0, q.len() as int));
                assert(p.is_prefix_of(code)) by {
                    assert(p =~= code.subrange(0, p.len() as int)) by {
                        assert forall|m: int| 0 <= m < p.len() implies p[m] == code[m] by {
                            assert(q[m] == code[m]);
                        }
                    }
                }
                if i < tl.len() {
                    assert(code.len() <= p0.len() + height(*l));
                } else {
                    assert(code.len() <= p1.len() + height(*r));
                }
            }
            assert forall|i: int, j: int|
                0 <= i < tab.len() && 0 <= j < tab.len() && i != j implies !(
            #[trigger] tab[i].1).is_prefix_of(#[trigger] tab[j].1) by {
                let ci = tab[i].1;
                let cj = tab[j].1;
                if i < tl.len() && j < tl.len() {
                    assert(ci == tl[i].1 && cj == tl[j].1);
                } else if i >= tl.len() && j >= tl.len() {
                    assert(ci == tr[i - tl.len()].1 && cj == tr[j - tl.len()].1);
                } else {
                    let (ki, kj) = if i < tl.len() {
                        (false, true)
                    } else {
                        (true, false)
                    };
                    assert(ci[p.len() as int] == ki) by {
                        if i < tl.len() {
                            assert(p0 =~= ci.subrange(0, p0.len() as int));
                            assert(ci[p.len() as int] == p0[p.len() as int]);
                        } else {
                            assert(p1 =~= ci.subrange(0, p1.len() as int));
                            assert(ci[p.len() as int] == p1[p.len() as int]);
                        }
                    }
                    assert(cj[p.len() as int] == kj) by {
                        if j < tl.len() {
                            assert(p0 =~= cj.subrange(0, p0.len() as int));
                            assert(cj[p.len() as int] == p0[p.len() as int]);
                        } else {
                            assert(p1 =~= cj.subrange(0, p1.len() as int));
                            assert(cj[p.len() as int] == p1[p.len() as int]);
                        }
                    }
                    lemma_differ_not_prefix(ci, cj, p.len() as int);
                }
            }
        },
        _ => {},
    }
}

/// Copies a bit string.
fn copy_bits(s: &Vec<bool>) -> (r: Vec<bool>)
    ensures
        r@ == s@,
{
    let mut r: Vec<bool> = Vec::new();
    let mut i: usize = 0;
    while i < s.len()
        invariant
            i <= s@.len(),
            r@ =~= s@.take(i as int),
        decreases s@.len() - i,
    {
        r.push(s[i]);
        i = i + 1;
    }
    proof {
        assert(r@ =~= s@);
    }
    r
}

/// The table read off an optional subtree.
pub open spec fn opt_table_of(p: Option<Box<HuffNode>>, prefix: Seq<bool>) -> Seq<
    (char, Seq<bool>),
> {
    match p {
        Option::None => Seq::empty(),
        Option::Some(b) => table_of(*b, prefix),
    }
}

pub open spec fn opt_wf(p: Option<Box<HuffNode>>) -> bool {
    match p {
        Option::None => true,
        Option::Some(b) => wf(*b),
    }
}

/// Depth-first traversal, recording each leaf's symbol under its path.
pub fn dfs(p: &Option<Box<HuffNode>>, s: &Vec<bool>, map: &mut Vec<(char, Vec<bool>)>)
    requires
        opt_wf(*p),
    ensures
        table_view(final(map)@) == table_view(old(map)@) + opt_table_of(*p, s@),
    decreases *p,
{
    match p {
        None => {
            proof {
                assert(table_view(map@) =~= table_view(map@) + opt_table_of(*p, s@));
            }
        },
        Some(n) => {
            if let Some(v) = n.value {
                let code = copy_bits(s);
                map.push((v, code));
                proof {
                    assert(table_view(map@) =~= table_view(old(map)@) + opt_table_of(*p, s@));
                }
            } else {
                let mut s0 = copy_bits(s);
                s0.push(false);
                let ghost mid0 = map@;
                dfs(&n.left, &s0, map);
                let mut s1 = copy_bits(s);
                s1.push(true);
                dfs(&n.right, &s1, map);
                proof {
                    assert(table_view(map@) =~= table_view(old(map)@) + opt_table_of(*p, s@));
                }
            }
        },
    }
}

/// Derives the code table of a tree: each symbol with its path bits, the
/// sole symbol of a single-leaf tree getting the one-bit code `0`.
pub fn generate_coding_map(head: HuffNode) -> (m: Vec<(char, Vec<bool>)>)
    requires
        wf(head),
    ensures
        table_view(m@) == coding_table(head),
{
    let mut m: Vec<(char, Vec<bool>)> = Vec::new();
    if let Some(v) = head.value {
        let mut code: Vec<bool> = Vec::new();
        code.push(false);
        m.push((v, code));
        proof {
            assert(table_view(m@) =~= coding_table(head));
        }
    } else {
        let prefix: Vec<bool> = Vec::new();
        let opt = Some(Box::new(head));
        dfs(&opt, &prefix, &mut m);
        proof {
            assert(table_view(m@) =~= coding_table(head));
        }
    }
    m
}


/// The generated code table has one entry per distinct symbol of the text,
/// a non-empty code of bounded length for each, and no code that is a
/// prefix of another.
pub proof fn lemma_spec_table_props(s: Seq<char>)
    ensures
        spec_table(s).len() == freq_seq(s).len(),
        forall|i: int|
            0 <= i < spec_table(s).len() ==> 1 <= (#[trigger] spec_table(s)[i]).1.len()
                <= freq_seq(s).len(),
        forall|c: char|
            s.contains(c) <==> exists|k: int|
                0 <= k < spec_table(s).len() && (#[trigger] spec_table(s)[k]).0 == c,
        forall|i: int, j: int|
            0 <= i < spec_table(s).len() && 0 <= j < spec_table(s).len() && i != j ==> !(
            #[trigger] spec_table(s)[i].1).is_prefix_of(#[trigger] spec_table(s)[j].1),
{
    let ft = freq_seq(s);
    let tab = spec_table(s);
    lemma_freq_seq_props(s);
    if ft.len() == 0 {
        assert(sum_counts(ft) == 0);
        assert(s.len() == 0);
        assert forall|c: char| !s.contains(c) by {}
    } else {
        lemma_leaves_of_table_props(ft);
        let q = spec_leaves(s);
        lemma_build_tree_props(q);
        let root = spec_root(s);
        assert(wf(root));
        assert(leaves_of(root).len() == ft.len());
        lemma_height_le_leaves(root);
        assert forall|c: char|
            s.contains(c) <==> leaves_of(root).contains(c) by {
            lemma_freq_seq_contains(s, c);
        }
        match root.value {
            Option::Some(c0) => {
                assert(leaves_of(root) =~= seq![c0]);
                assert(tab =~= seq![(c0, seq![false])]);
                assert(ft.len() == 1);
                assert forall|c: char|
                    s.contains(c) <==> exists|k: int|
                        0 <= k < tab.len() && (#[trigger] tab[k]).0 == c by {
                    if s.contains(c) {
                        assert(leaves_of(root)[0] == c);
                        assert(tab[0].0 == c);
                    }
                    if exists|k: int| 0 <= k < tab.len() && (#[trigger] tab[k]).0 == c {
                        assert(tab[0].0 == c);
                        assert(leaves_of(root).contains(c)) by {
                            assert(leaves_of(root)[0] == c);
                        }
                    }
                }
            },
            Option::None => {
                lemma_table_of_props(root, Seq::empty());
                assert(tab == table_of(root, Seq::empty()));
                assert(tab.len() == leaves_of(root).len());
                assert forall|i: int|
                    0 <= i < tab.len() implies 1 <= (#[trigger] tab[i]).1.len() <= ft.len() by {
                    assert(tab[i].1.len() > 0);
                    assert(tab[i].1.len() <= height(root));
                    assert(height(root) + 1 <= leaves_of(root).len());
                }
                assert forall|c: char|
                    s.contains(c) <==> exists|k: int|
                        0 <= k < tab.len() && (#[trigger] tab[k]).0 == c by {
                    if s.contains(c) {
                        let k = choose|k: int|
                            0 <= k < leaves_of(root).len() && leaves_of(root)[k] == c;
                        assert(tab[k].0 == c);
                    }
                    if exists|k: int| 0 <= k < tab.len() && (#[trigger] tab[k]).0 == c {
                        let k = choose|k: int| 0 <= k < tab.len() && (#[trigger] tab[k]).0 == c;
                        assert(leaves_of(root)[k] == c);
                        assert(leaves_of(root).contains(c));
                    }
                }
            },
        }
    }
}

} // verus!
