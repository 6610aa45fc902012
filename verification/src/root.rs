//! The decisions of a distributed root search: which splits to search, how
//! the partial hits of the leaves are merged and paged, and which documents
//! to fetch. Sending the requests and awaiting the answers is left to the
//! caller.

use vstd::multiset::Multiset;
use vstd::prelude::*;

use crate::vec_util::{clone_strings, reversed};

verus! {

/// A hit of a leaf search, located by split, segment and document.
#[derive(Debug, PartialEq, Eq)]
pub struct PartialHit {
    pub sorting_field_value: u64,
    pub split: String,
    pub segment_ord: u32,
    pub doc_id: u32,
}

impl Clone for PartialHit {
    fn clone(&self) -> (r: PartialHit)
        ensures
            r == *self,
    {
        PartialHit {
            sorting_field_value: self.sorting_field_value,
            split: self.split.clone(),
            segment_ord: self.segment_ord,
            doc_id: self.doc_id,
        }
    }
}

/// Hits in descending order of their sorting value.
pub open spec fn sorted_descending(s: Seq<PartialHit>) -> bool {
    forall|i: int, j: int|
        0 <= i < j < s.len() ==> s[i].sorting_field_value >= s[j].sorting_field_value
}

/// The merge of two hit lists, taking the hit with the greater sorting value
/// first; on a tie, the hit of the first list goes first, immediately followed
/// by the hit of the second list.
pub open spec fn merged_hits(a: Seq<PartialHit>, b: Seq<PartialHit>) -> Seq<PartialHit>
    decreases a.len() + b.len(),
{
    if a.len() == 0 {
        b
    } else if b.len() == 0 {
        a
    } else if a[0].sorting_field_value > b[0].sorting_field_value {
        seq![a[0]] + merged_hits(a.drop_first(), b)
    } else if a[0].sorting_field_value < b[0].sorting_field_value {
        seq![b[0]] + merged_hits(a, b.drop_first())
    } else {
        seq![a[0], b[0]] + merged_hits(a.drop_first(), b.drop_first())
    }
}

/// Merging keeps every hit of both lists, and nothing else.
pub proof fn lemma_merged_hits_multiset(a: Seq<PartialHit>, b: Seq<PartialHit>)
    ensures
        merged_hits(a, b).to_multiset() == a.to_multiset().add(b.to_multiset()),
        merged_hits(a, b).len() == a.len() + b.len(),
    decreases a.len() + b.len(),
{
    broadcast use vstd::seq_lib::lemma_multiset_commutative;
    broadcast use vstd::multiset::group_multiset_axioms;

    if a.len() == 0 {
        assert(a + b == b);
        assert((a + b).to_multiset() == a.to_multiset().add(b.to_multiset()));
    } else if b.len() == 0 {
        assert(a + b == a);
        assert((a + b).to_multiset() == a.to_multiset().add(b.to_multiset()));
    } else if a[0].sorting_field_value > b[0].sorting_field_value {
        lemma_merged_hits_multiset(a.drop_first(), b);
        assert(a == seq![a[0]] + a.drop_first());
        assert(merged_hits(a, b).to_multiset() =~= a.to_multiset().add(b.to_multiset()));
    } else if a[0].sorting_field_value < b[0].sorting_field_value {
        lemma_merged_hits_multiset(a, b.drop_first());
        assert(b == seq![b[0]] + b.drop_first());
        assert(merged_hits(a, b).to_multiset() =~= a.to_multiset().add(b.to_multiset()));
    } else {
        lemma_merged_hits_multiset(a.drop_first(), b.drop_first());
        assert(a == seq![a[0]] + a.drop_first());
        assert(b == seq![b[0]] + b.drop_first());
        assert(seq![a[0], b[0]] == seq![a[0]] + seq![b[0]]);
        assert(merged_hits(a, b).to_multiset() =~= a.to_multiset().add(b.to_multiset()));
    }
}

/// Merging two lists sorted in descending order gives a list sorted in
/// descending order, whose first hit is the first of one of the two lists.
pub proof fn lemma_merged_hits_sorted(a: Seq<PartialHit>, b: Seq<PartialHit>)
    requires
        sorted_descending(a),
        sorted_descending(b),
    ensures
        sorted_descending(merged_hits(a, b)),
        merged_hits(a, b).len() > 0 ==> (a.len() > 0 && merged_hits(a, b)[0] == a[0]) || (b.len()
            > 0 && merged_hits(a, b)[0] == b[0]),
    decreases a.len() + b.len(),
{
    if a.len() == 0 || b.len() == 0 {
    } else {
        let m = merged_hits(a, b);
        if a[0].sorting_field_value > b[0].sorting_field_value {
            let t = a.drop_first();
            lemma_merged_hits_sorted(t, b);
            let r = merged_hits(t, b);
            assert forall|i: int, j: int| 0 <= i < j < m.len() implies m[i].sorting_field_value
                >= m[j].sorting_field_value by {
                if i == 0 {
                    assert(m[j] == r[j - 1]);
                    if j - 1 > 0 {
                        assert(r[0].sorting_field_value >= r[j - 1].sorting_field_value);
                    }
                    if t.len() > 0 {
                        assert(a[0].sorting_field_value >= t[0].sorting_field_value);
                    }
                } else {
                    assert(m[i] == r[i - 1] && m[j] == r[j - 1]);
                }
            }
        } else if a[0].sorting_field_value < b[0].sorting_field_value {
            let t = b.drop_first();
            lemma_merged_hits_sorted(a, t);
            let r = merged_hits(a, t);
            assert forall|i: int, j: int| 0 <= i < j < m.len() implies m[i].sorting_field_value
                >= m[j].sorting_field_value by {
                if i == 0 {
                    assert(m[j] == r[j - 1]);
                    if j - 1 > 0 {
                        assert(r[0].sorting_field_value >= r[j - 1].sorting_field_value);
                    }
                    if t.len() > 0 {
                        assert(b[0].sorting_field_value >= t[0].sorting_field_value);
                    }
                } else {
                    assert(m[i] == r[i - 1] && m[j] == r[j - 1]);
                }
            }
        } else {
            let ta = a.drop_first();
            let tb = b.drop_first();
            lemma_merged_hits_sorted(ta, tb);
            let r = merged_hits(ta, tb);
            assert forall|i: int, j: int| 0 <= i < j < m.len() implies m[i].sorting_field_value
                >= m[j].sorting_field_value by {
                if i <= 1 {
                    if j >= 2 {
                        assert(m[j] == r[j - 2]);
                        if j - 2 > 0 {
                            assert(r[0].sorting_field_value >= r[j - 2].sorting_field_value);
                        }
                        if ta.len() > 0 {
                            assert(a[0].sorting_field_value >= ta[0].sorting_field_value);
                        }
                        if tb.len() > 0 {
                            assert(b[0].sorting_field_value >= tb[0].sorting_field_value);
                        }
                    }
                } else {
                    assert(m[i] == r[i - 2] && m[j] == r[j - 2]);
                }
            }
        }
    }
}

/// Wherever the merge has come to, when the next hits of the two lists have
/// the same sorting value, the hit of the first list is placed first,
/// immediately followed by the hit of the second list.
pub proof fn lemma_merged_hits_tie(a: Seq<PartialHit>, b: Seq<PartialHit>, i: int, j: int)
    requires
        0 <= i < a.len(),
        0 <= j < b.len(),
        a[i].sorting_field_value == b[j].sorting_field_value,
    ensures
        merged_hits(a.skip(i), b.skip(j)) == seq![a[i], b[j]] + merged_hits(
            a.skip(i + 1),
            b.skip(j + 1),
        ),
{
    assert(a.skip(i)[0] == a[i]);
    assert(b.skip(j)[0] == b[j]);
    assert(a.skip(i).drop_first() == a.skip(i + 1));
    assert(b.skip(j).drop_first() == b.skip(j + 1));
}

/// The number of `true`s in the mask.
pub open spec fn count_true(mask: Seq<bool>) -> nat
    decreases mask.len(),
{
    if mask.len() == 0 {
        0
    } else {
        count_true(mask.drop_first()) + if mask[0] {
            1nat
        } else {
            0nat
        }
    }
}

/// The interleaving of `a` and `b` that the mask picks: `true` takes the next
/// hit of `a`, `false` the next hit of `b`.
pub open spec fn interleave(a: Seq<PartialHit>, b: Seq<PartialHit>, mask: Seq<bool>) -> Seq<
    PartialHit,
>
    decreases mask.len(),
{
    if mask.len() == 0 {
        Seq::empty()
    } else if mask[0] {
        seq![a[0]] + interleave(a.drop_first(), b, mask.drop_first())
    } else {
        seq![b[0]] + interleave(a, b.drop_first(), mask.drop_first())
    }
}

/// `m` is an interleaving of `a` and `b`: it takes every hit of each, in the
/// order of each, and nothing else.
pub open spec fn is_interleaving(m: Seq<PartialHit>, a: Seq<PartialHit>, b: Seq<PartialHit>) -> bool {
    exists|mask: Seq<bool>|
        mask.len() == a.len() + b.len() && #[trigger] count_true(mask) == a.len() && interleave(
            a,
            b,
            mask,
        ) == m
}

/// The merge takes every hit of both lists, each list in its own order,
/// whether or not the lists are sorted.
pub proof fn lemma_merged_hits_interleaving(a: Seq<PartialHit>, b: Seq<PartialHit>)
    ensures
        is_interleaving(merged_hits(a, b), a, b),
    decreases a.len() + b.len(),
{
    let m = merged_hits(a, b);
    if a.len() == 0 {
        let mask = Seq::new(b.len(), |i: int| false);
        lemma_interleave_only(a, b, mask, false);
        assert(count_true(mask) == a.len());
        assert(interleave(a, b, mask) == m);
    } else if b.len() == 0 {
        let mask = Seq::new(a.len(), |i: int| true);
        lemma_interleave_only(a, b, mask, true);
        assert(count_true(mask) == a.len());
        assert(interleave(a, b, mask) == m);
    } else if a[0].sorting_field_value > b[0].sorting_field_value {
        lemma_merged_hits_interleaving(a.drop_first(), b);
        let mask0 = choose|mask: Seq<bool>|
            mask.len() == a.len() - 1 + b.len() && #[trigger] count_true(mask) == a.len() - 1
                && interleave(a.drop_first(), b, mask) == merged_hits(a.drop_first(), b);
        let mask = seq![true] + mask0;
        assert(mask.drop_first() == mask0);
        assert(count_true(mask) == a.len());
    } else if a[0].sorting_field_value < b[0].sorting_field_value {
        lemma_merged_hits_interleaving(a, b.drop_first());
        let mask0 = choose|mask: Seq<bool>|
            mask.len() == a.len() + (b.len() - 1) && #[trigger] count_true(mask) == a.len()
                && interleave(a, b.drop_first(), mask) == merged_hits(a, b.drop_first());
        let mask = seq![false] + mask0;
        assert(mask.drop_first() == mask0);
        assert(count_true(mask) == a.len());
    } else {
        lemma_merged_hits_interleaving(a.drop_first(), b.drop_first());
        let mask0 = choose|mask: Seq<bool>|
            mask.len() == a.len() - 1 + (b.len() - 1) && #[trigger] count_true(mask) == a.len() - 1
                && interleave(a.drop_first(), b.drop_first(), mask) == merged_hits(
                a.drop_first(),
                b.drop_first(),
            );
        let mask = seq![true, false] + mask0;
        assert(mask.drop_first() == seq![false] + mask0);
        assert(mask.drop_first().drop_first() == mask0);
        assert(count_true(mask.drop_first()) == a.len() - 1);
        assert(count_true(mask) == a.len());
        assert(interleave(a, b, mask) == seq![a[0]] + interleave(
            a.drop_first(),
            b,
            seq![false] + mask0,
        ));
        assert(interleave(a.drop_first(), b, seq![false] + mask0) == seq![b[0]] + interleave(
            a.drop_first(),
            b.drop_first(),
            mask0,
        ));
        assert(seq![a[0]] + (seq![b[0]] + merged_hits(a.drop_first(), b.drop_first())) == seq![
            a[0],
            b[0],
        ] + merged_hits(a.drop_first(), b.drop_first()));
    }
}

/// A mask that takes only from one list reads that list.
proof fn lemma_interleave_only(a: Seq<PartialHit>, b: Seq<PartialHit>, mask: Seq<bool>, from_a: bool)
    requires
        forall|i: int| 0 <= i < mask.len() ==> mask[i] == from_a,
        from_a ==> mask.len() == a.len(),
        !from_a ==> mask.len() == b.len(),
    ensures
        from_a ==> interleave(a, b, mask) == a && count_true(mask) == mask.len(),
        !from_a ==> interleave(a, b, mask) == b && count_true(mask) == 0,
    decreases mask.len(),
{
    if mask.len() > 0 {
        if from_a {
            lemma_interleave_only(a.drop_first(), b, mask.drop_first(), from_a);
            assert(a == seq![a[0]] + a.drop_first());
        } else {
            lemma_interleave_only(a, b.drop_first(), mask.drop_first(), from_a);
            assert(b == seq![b[0]] + b.drop_first());
        }
    } else {
        assert(a.len() == 0 ==> a == Seq::<PartialHit>::empty());
        assert(b.len() == 0 ==> b == Seq::<PartialHit>::empty());
    }
}

/// Merges two lists of partial hits that are sorted in descending order of
/// their sorting value.
pub fn merge_partial_hits(partial_hits1: Vec<PartialHit>, partial_hits2: Vec<PartialHit>) -> (r:
    Vec<PartialHit>)
    ensures
        r@ == merged_hits(partial_hits1@, partial_hits2@),
        r@.to_multiset() == partial_hits1@.to_multiset().add(partial_hits2@.to_multiset()),
        is_interleaving(r@, partial_hits1@, partial_hits2@),
        sorted_descending(partial_hits1@) && sorted_descending(partial_hits2@) ==> sorted_descending(
            r@,
        ),
{
    let ghost a = partial_hits1@;
    let ghost b = partial_hits2@;
    proof {
        lemma_merged_hits_multiset(a, b);
        lemma_merged_hits_interleaving(a, b);
        if sorted_descending(a) && sorted_descending(b) {
            lemma_merged_hits_sorted(a, b);
        }
    }
    let mut rest1 = reversed(partial_hits1);
    let mut rest2 = reversed(partial_hits2);
    let mut merged: Vec<PartialHit> = Vec::new();
    let ghost mut index1: int = 0;
    let ghost mut index2: int = 0;
    assert(a.skip(0) == a && b.skip(0) == b);
    while rest1.len() > 0 && rest2.len() > 0
        invariant
            0 <= index1 <= a.len(),
            0 <= index2 <= b.len(),
            rest1@ == a.skip(index1).reverse(),
            rest2@ == b.skip(index2).reverse(),
            merged@ + merged_hits(a.skip(index1), b.skip(index2)) == merged_hits(a, b),
        decreases rest1.len() + rest2.len(),
    {
        let ghost sa = a.skip(index1);
        let ghost sb = b.skip(index2);
        assert(rest1@.last() == sa[0]);
        assert(rest2@.last() == sb[0]);
        let value1 = rest1[rest1.len() - 1].sorting_field_value;
        let value2 = rest2[rest2.len() - 1].sorting_field_value;
        // Sort by descending order.
        if value1 > value2 {
            let hit = rest1.pop().unwrap();
            merged.push(hit);
            assert(sa.drop_first() == a.skip(index1 + 1));
            proof { index1 = index1 + 1; }
            assert(rest1@ =~= a.skip(index1).reverse());
            assert(merged@ + merged_hits(a.skip(index1), b.skip(index2)) =~= merged_hits(a, b));
        } else if value1 < value2 {
            let hit = rest2.pop().unwrap();
            merged.push(hit);
            assert(sb.drop_first() == b.skip(index2 + 1));
            proof { index2 = index2 + 1; }
            assert(rest2@ =~= b.skip(index2).reverse());
            assert(merged@ + merged_hits(a.skip(index1), b.skip(index2)) =~= merged_hits(a, b));
        } else {
            let hit1 = rest1.pop().unwrap();
            merged.push(hit1);
            let hit2 = rest2.pop().unwrap();
            merged.push(hit2);
            assert(sa.drop_first() == a.skip(index1 + 1));
            assert(sb.drop_first() == b.skip(index2 + 1));
            proof {
                index1 = index1 + 1;
                index2 = index2 + 1;
            }
            assert(rest1@ =~= a.skip(index1).reverse());
            assert(rest2@ =~= b.skip(index2).reverse());
            assert(merged@ + merged_hits(a.skip(index1), b.skip(index2)) =~= merged_hits(a, b));
        }
    }
    // One of the lists is exhausted: the rest of the other follows in order.
    while rest1.len() > 0
        invariant
            0 <= index1 <= a.len(),
            rest1@ == a.skip(index1).reverse(),
            b.skip(index2).len() == 0 || a.skip(index1).len() == 0,
            0 <= index2 <= b.len(),
            merged@ + merged_hits(a.skip(index1), b.skip(index2)) == merged_hits(a, b),
        decreases rest1.len(),
    {
        let ghost sa = a.skip(index1);
        assert(rest1@.last() == sa[0]);
        let hit = rest1.pop().unwrap();
        merged.push(hit);
        assert(sa.drop_first() == a.skip(index1 + 1));
        proof { index1 = index1 + 1; }
        assert(rest1@ =~= a.skip(index1).reverse());
        assert(merged@ + merged_hits(a.skip(index1), b.skip(index2)) =~= merged_hits(a, b));
    }
    while rest2.len() > 0
        invariant
            0 <= index2 <= b.len(),
            rest2@ == b.skip(index2).reverse(),
            a.skip(index1).len() == 0,
            0 <= index1 <= a.len(),
            merged@ + merged_hits(a.skip(index1), b.skip(index2)) == merged_hits(a, b),
        decreases rest2.len(),
    {
        let ghost sb = b.skip(index2);
        assert(rest2@.last() == sb[0]);
        let hit = rest2.pop().unwrap();
        merged.push(hit);
        assert(sb.drop_first() == b.skip(index2 + 1));
        proof { index2 = index2 + 1; }
        assert(rest2@ =~= b.skip(index2).reverse());
        assert(merged@ + merged_hits(a.skip(index1), b.skip(index2)) =~= merged_hits(a, b));
    }
    assert(merged@ =~= merged_hits(a, b));
    merged
}

/// The metadata of a split of an index.
#[derive(Debug, PartialEq, Eq)]
pub struct SplitMetadata {
    pub split_id: String,
}

/// A unit of work for a search node: a split, and what searching it costs.
#[derive(Debug, PartialEq, Eq)]
pub struct Job {
    pub split: String,
    pub cost: u32,
}

/// A search request on an index.
#[derive(Debug, PartialEq, Eq)]
pub struct SearchRequest {
    pub index_id: String,
    pub query: String,
    pub search_fields: Vec<String>,
    pub start_timestamp: Option<i64>,
    pub end_timestamp: Option<i64>,
    pub max_hits: u64,
    pub start_offset: u64,
}

/// The request sent to a leaf node: the search request and the splits to
/// search.
#[derive(Debug, PartialEq, Eq)]
pub struct LeafSearchRequest {
    pub search_request: Option<SearchRequest>,
    pub split_uris: Vec<String>,
}

/// What a leaf node found.
#[derive(Debug, PartialEq, Eq)]
pub struct LeafSearchResult {
    pub num_hits: u64,
    pub partial_hits: Vec<PartialHit>,
}

/// The request for the documents of some partial hits.
#[derive(Debug, PartialEq, Eq)]
pub struct FetchDocsRequest {
    pub partial_hits: Vec<PartialHit>,
    pub index_id: String,
}

/// A document, as JSON, with the partial hit that located it.
#[derive(Debug, PartialEq, Eq)]
pub struct Hit {
    pub json: String,
    pub partial_hit: Option<PartialHit>,
}

/// The documents fetched by a leaf node.
#[derive(Debug, PartialEq, Eq)]
pub struct FetchDocsResult {
    pub hits: Vec<Hit>,
}

/// The answer to a search request.
#[derive(Debug, PartialEq, Eq)]
pub struct SearchResult {
    pub num_hits: u64,
    pub hits: Vec<Hit>,
    pub elapsed_time_micros: u64,
}

/// The hits of the partial hits of one split, in order.
#[derive(Debug, PartialEq, Eq)]
pub struct SplitHits {
    pub split: String,
    pub partial_hits: Vec<PartialHit>,
}

/// The cost of searching a split: one per split.
pub fn compute_split_cost(_split_metadata: &SplitMetadata) -> (r: u32)
    ensures
        r == 1,
{
    1
}

/// The elements of `s`, each once, in the order of their first occurrence.
pub open spec fn distinct_in_order(s: Seq<Seq<char>>) -> Seq<Seq<char>>
    decreases s.len(),
{
    if s.len() == 0 {
        s
    } else if s.drop_last().contains(s.last()) {
        distinct_in_order(s.drop_last())
    } else {
        distinct_in_order(s.drop_last()).push(s.last())
    }
}

pub proof fn lemma_distinct_in_order(s: Seq<Seq<char>>)
    ensures
        forall|x: Seq<char>| #[trigger] distinct_in_order(s).contains(x) <==> s.contains(x),
        forall|i: int, j: int|
            0 <= i < j < distinct_in_order(s).len() ==> distinct_in_order(s)[i]
                != distinct_in_order(s)[j],
    decreases s.len(),
{
    if s.len() > 0 {
        let init = s.drop_last();
        let last = s.last();
        let d0 = distinct_in_order(init);
        let d = distinct_in_order(s);
        lemma_distinct_in_order(init);
        assert forall|x: Seq<char>| s.contains(x) <==> init.contains(x) || x == last by {
            if s.contains(x) {
                let k = choose|k: int| 0 <= k < s.len() && s[k] == x;
                if k < init.len() {
                    assert(init[k] == x);
                }
            }
            if init.contains(x) {
                let k = choose|k: int| 0 <= k < init.len() && init[k] == x;
                assert(s[k] == x);
            }
            if x == last {
                assert(s[s.len() - 1] == x);
            }
        }
        if init.contains(last) {
            assert(d == d0);
        } else {
            assert(d == d0.push(last));
            assert(!d0.contains(last));
            assert forall|x: Seq<char>| #[trigger] d.contains(x) <==> d0.contains(x) || x == last by {
                if d.contains(x) {
                    let k = choose|k: int| 0 <= k < d.len() && d[k] == x;
                    if k < d0.len() {
                        assert(d0[k] == x);
                    }
                }
                if d0.contains(x) {
                    let k = choose|k: int| 0 <= k < d0.len() && d0[k] == x;
                    assert(d[k] == x);
                }
                if x == last {
                    assert(d[d.len() - 1] == x);
                }
            }
            assert forall|i: int, j: int| 0 <= i < j < d.len() implies d[i] != d[j] by {
                if j == d.len() - 1 {
                    assert(d[i] == d0[i]);
                    if d[i] == d[j] {
                        assert(d0.contains(last));
                    }
                } else {
                    assert(d[i] == d0[i] && d[j] == d0[j]);
                }
            }
        }
    }
}

pub open spec fn split_ids(ms: Seq<SplitMetadata>) -> Seq<Seq<char>> {
    ms.map_values(|m: SplitMetadata| m.split_id@)
}

pub open spec fn job_splits(jobs: Seq<Job>) -> Seq<Seq<char>> {
    jobs.map_values(|j: Job| j.split@)
}

pub open spec fn unit_costs(jobs: Seq<Job>) -> bool {
    forall|i: int| 0 <= i < jobs.len() ==> #[trigger] jobs[i].cost == 1
}

fn has_job_for(jobs: &Vec<Job>, split: &String) -> (r: bool)
    ensures
        r == job_splits(jobs@).contains(split@),
{
    let mut i: usize = 0;
    while i < jobs.len()
        invariant
            0 <= i <= jobs.len(),
            forall|k: int| 0 <= k < i ==> job_splits(jobs@)[k] != split@,
        decreases jobs.len() - i,
    {
        if jobs[i].split == *split {
            assert(job_splits(jobs@)[i as int] == split@);
            return true;
        }
        i = i + 1;
    }
    false
}

/// The jobs of a leaf search: one per distinct split, in the order in which
/// the splits first occur.
pub fn leaf_search_jobs(split_metadata_list: &Vec<SplitMetadata>) -> (jobs: Vec<Job>)
    ensures
        job_splits(jobs@) == distinct_in_order(split_ids(split_metadata_list@)),
        unit_costs(jobs@),
{
    let ghost ids = split_ids(split_metadata_list@);
    let mut jobs: Vec<Job> = Vec::new();
    let mut i: usize = 0;
    while i < split_metadata_list.len()
        invariant
            0 <= i <= split_metadata_list.len(),
            ids == split_ids(split_metadata_list@),
            job_splits(jobs@) == distinct_in_order(ids.take(i as int)),
            unit_costs(jobs@),
        decreases split_metadata_list.len() - i,
    {
        let metadata = &split_metadata_list[i];
        assert(ids.take(i + 1).drop_last() == ids.take(i as int));
        assert(ids.take(i + 1).last() == metadata.split_id@);
        proof { lemma_distinct_in_order(ids.take(i as int)); }
        if !has_job_for(&jobs, &metadata.split_id) {
            let job = Job { split: metadata.split_id.clone(), cost: compute_split_cost(metadata) };
            let ghost before = jobs@;
            jobs.push(job);
            assert(job_splits(jobs@) =~= job_splits(before).push(metadata.split_id@));
        }
        i = i + 1;
    }
    assert(ids.take(split_metadata_list.len() as int) == ids);
    jobs
}

/// The request that leaf nodes run: from the first hit, for as many hits as
/// the page needs, so that the root can cut the page out of the merged hits.
pub fn search_request_with_offset_0(search_request: &SearchRequest) -> (r: SearchRequest)
    requires
        search_request.max_hits + search_request.start_offset <= u64::MAX,
    ensures
        r.index_id == search_request.index_id,
        r.query == search_request.query,
        r.search_fields@ == search_request.search_fields@,
        r.start_timestamp == search_request.start_timestamp,
        r.end_timestamp == search_request.end_timestamp,
        r.start_offset == 0,
        r.max_hits == search_request.max_hits + search_request.start_offset,
{
    SearchRequest {
        index_id: search_request.index_id.clone(),
        query: search_request.query.clone(),
        search_fields: clone_strings(&search_request.search_fields),
        start_timestamp: search_request.start_timestamp,
        end_timestamp: search_request.end_timestamp,
        max_hits: search_request.max_hits + search_request.start_offset,
        start_offset: 0,
    }
}

/// The request for a leaf node that is to search the splits of `jobs`.
pub fn leaf_search_request(search_request: &SearchRequest, jobs: &Vec<Job>) -> (r:
    LeafSearchRequest)
    ensures
        r.search_request matches Some(req) && req.index_id == search_request.index_id
            && req.query == search_request.query && req.search_fields@
            == search_request.search_fields@ && req.start_timestamp
            == search_request.start_timestamp && req.end_timestamp == search_request.end_timestamp
            && req.max_hits == search_request.max_hits && req.start_offset
            == search_request.start_offset,
        r.split_uris@.map_values(|s: String| s@) == job_splits(jobs@),
{
    let copy = SearchRequest {
        index_id: search_request.index_id.clone(),
        query: search_request.query.clone(),
        search_fields: clone_strings(&search_request.search_fields),
        start_timestamp: search_request.start_timestamp,
        end_timestamp: search_request.end_timestamp,
        max_hits: search_request.max_hits,
        start_offset: search_request.start_offset,
    };
    let mut split_uris: Vec<String> = Vec::new();
    let mut i: usize = 0;
    while i < jobs.len()
        invariant
            0 <= i <= jobs.len(),
            split_uris@.map_values(|s: String| s@) == job_splits(jobs@).take(i as int),
        decreases jobs.len() - i,
    {
        let ghost before = split_uris@;
        let uri = jobs[i].split.clone();
        split_uris.push(uri);
        assert(split_uris@ == before.push(uri));
        assert(job_splits(jobs@).take(i + 1) == job_splits(jobs@).take(i as int).push(
            jobs@[i as int].split@,
        ));
        assert(split_uris@.map_values(|s: String| s@) =~= job_splits(jobs@).take(i + 1));
        i = i + 1;
    }
    assert(job_splits(jobs@).take(jobs.len() as int) == job_splits(jobs@));
    LeafSearchRequest { search_request: Some(copy), split_uris }
}

/// The total number of hits of the leaves that answered.
pub open spec fn total_num_hits(responses: Seq<Result<LeafSearchResult, String>>) -> int
    decreases responses.len(),
{
    if responses.len() == 0 {
        0
    } else {
        total_num_hits(responses.drop_last()) + match responses.last() {
            Ok(result) => result.num_hits as int,
            Err(_) => 0,
        }
    }
}

/// The partial hits of the leaves that answered, merged one leaf after the
/// other into the hits merged so far.
pub open spec fn merged_leaf_hits(responses: Seq<Result<LeafSearchResult, String>>) -> Seq<
    PartialHit,
>
    decreases responses.len(),
{
    if responses.len() == 0 {
        Seq::empty()
    } else {
        match responses.last() {
            Ok(result) => merged_hits(merged_leaf_hits(responses.drop_last()), result.partial_hits@),
            Err(_) => merged_leaf_hits(responses.drop_last()),
        }
    }
}

/// Sums the hit counts of the leaves that answered and merges their partial
/// hits; the leaves that failed are skipped.
pub fn merge_leaf_search_results(responses: Vec<Result<LeafSearchResult, String>>) -> (r:
    LeafSearchResult)
    requires
        total_num_hits(responses@) <= u64::MAX,
    ensures
        r.num_hits == total_num_hits(responses@),
        r.partial_hits@ == merged_leaf_hits(responses@),
{
    let ghost v0 = responses@;
    let n = responses.len();
    let mut stack = reversed(responses);
    let mut num_hits: u64 = 0;
    let mut partial_hits: Vec<PartialHit> = Vec::new();
    let mut i: usize = 0;
    assert(v0.take(0) =~= Seq::<Result<LeafSearchResult, String>>::empty());
    while i < n
        invariant
            n == v0.len(),
            0 <= i <= n,
            total_num_hits(v0) <= u64::MAX,
            stack@ == v0.skip(i as int).reverse(),
            num_hits == total_num_hits(v0.take(i as int)),
            partial_hits@ == merged_leaf_hits(v0.take(i as int)),
        decreases n - i,
    {
        assert(stack@.len() == n - i);
        assert(stack@.last() == v0[i as int]);
        let response = stack.pop().unwrap();
        assert(stack@ =~= v0.skip(i + 1).reverse());
        assert(v0.take(i + 1).drop_last() == v0.take(i as int));
        assert(v0.take(i + 1).last() == response);
        proof { lemma_total_num_hits_prefix(v0, i + 1); }
        match response {
            Ok(leaf_search_result) => {
                num_hits = num_hits + leaf_search_result.num_hits;
                partial_hits = merge_partial_hits(partial_hits, leaf_search_result.partial_hits);
            },
            Err(_) => {},
        }
        i = i + 1;
    }
    assert(v0.take(n as int) == v0);
    LeafSearchResult { num_hits, partial_hits }
}

proof fn lemma_total_num_hits_prefix(v: Seq<Result<LeafSearchResult, String>>, k: int)
    requires
        0 <= k <= v.len(),
    ensures
        0 <= total_num_hits(v.take(k)) <= total_num_hits(v),
    decreases v.len(),
{
    if v.len() > 0 {
        if k < v.len() {
            lemma_total_num_hits_prefix(v.drop_last(), k);
            assert(v.drop_last().take(k) == v.take(k));
        } else {
            assert(v.take(k) == v);
            lemma_total_num_hits_prefix(v.drop_last(), k - 1);
            assert(v.drop_last().take(k - 1) == v.drop_last());
        }
    }
}

/// Counting hits adds up over consecutive runs of leaf responses.
pub proof fn lemma_total_num_hits_concat(
    a: Seq<Result<LeafSearchResult, String>>,
    b: Seq<Result<LeafSearchResult, String>>,
)
    ensures
        total_num_hits(a + b) == total_num_hits(a) + total_num_hits(b),
    decreases b.len(),
{
    if b.len() == 0 {
        assert(a + b == a);
    } else {
        lemma_total_num_hits_concat(a, b.drop_last());
        assert((a + b).drop_last() == a + b.drop_last());
        assert((a + b).last() == b.last());
    }
}

/// One leaf response counts the hits it reports when it succeeded, whatever
/// partial hits it returned, and nothing when it failed.
pub proof fn lemma_total_num_hits_single(response: Result<LeafSearchResult, String>)
    ensures
        response matches Ok(result) ==> total_num_hits(seq![response]) == result.num_hits,
        response is Err ==> total_num_hits(seq![response]) == 0,
{
    assert(seq![response].drop_last() =~= Seq::<Result<LeafSearchResult, String>>::empty());
    assert(seq![response].last() == response);
    assert(total_num_hits(seq![response].drop_last()) == 0);
}

/// The total hit count is the sum of the counts of the leaves that
/// succeeded: two lists of responses that agree on which leaves succeeded
/// and on their counts have the same total, whatever partial hits they hold.
pub proof fn lemma_total_num_hits_ignores_partial_hits(
    a: Seq<Result<LeafSearchResult, String>>,
    b: Seq<Result<LeafSearchResult, String>>,
)
    requires
        a.len() == b.len(),
        forall|i: int|
            0 <= i < a.len() ==> (#[trigger] a[i] is Err && b[i] is Err) || (a[i] is Ok && b[i] is Ok
                && a[i]->Ok_0.num_hits == b[i]->Ok_0.num_hits),
    ensures
        total_num_hits(a) == total_num_hits(b),
    decreases a.len(),
{
    if a.len() > 0 {
        assert forall|i: int| 0 <= i < a.drop_last().len() implies (#[trigger] a.drop_last()[i] is Err
            && b.drop_last()[i] is Err) || (a.drop_last()[i] is Ok && b.drop_last()[i] is Ok
            && a.drop_last()[i]->Ok_0.num_hits == b.drop_last()[i]->Ok_0.num_hits) by {
            assert(a[i] is Err && b[i] is Err || a[i] is Ok && b[i] is Ok && a[i]->Ok_0.num_hits
                == b[i]->Ok_0.num_hits);
        }
        lemma_total_num_hits_ignores_partial_hits(a.drop_last(), b.drop_last());
        assert(a[a.len() - 1] is Err && b[a.len() - 1] is Err || a[a.len() - 1] is Ok && b[a.len()
            - 1] is Ok && a[a.len() - 1]->Ok_0.num_hits == b[a.len() - 1]->Ok_0.num_hits);
    }
}

/// The hits returned by the leaves that succeeded, all together.
pub open spec fn leaf_hits_multiset(responses: Seq<Result<LeafSearchResult, String>>) -> Multiset<
    PartialHit,
>
    decreases responses.len(),
{
    if responses.len() == 0 {
        Multiset::empty()
    } else {
        leaf_hits_multiset(responses.drop_last()).add(
            match responses.last() {
                Ok(result) => result.partial_hits@.to_multiset(),
                Err(_) => Multiset::empty(),
            },
        )
    }
}

/// Merging the leaf responses keeps every partial hit of every leaf that
/// succeeded, and nothing else; when each leaf's hits are sorted in
/// descending order, so are the merged hits.
pub proof fn lemma_merged_leaf_hits(responses: Seq<Result<LeafSearchResult, String>>)
    ensures
        merged_leaf_hits(responses).to_multiset() == leaf_hits_multiset(responses),
        (forall|i: int|
            0 <= i < responses.len() && #[trigger] responses[i] is Ok ==> sorted_descending(
                responses[i]->Ok_0.partial_hits@,
            )) ==> sorted_descending(merged_leaf_hits(responses)),
    decreases responses.len(),
{
    broadcast use vstd::multiset::group_multiset_axioms;
    broadcast use vstd::seq_lib::lemma_multiset_commutative;

    if responses.len() == 0 {
        broadcast use vstd::seq_lib::group_to_multiset_ensures;

        assert(merged_leaf_hits(responses).to_multiset().len() == 0);
        assert(merged_leaf_hits(responses).to_multiset() =~= Multiset::empty());
    } else {
        let init = responses.drop_last();
        lemma_merged_leaf_hits(init);
        let m0 = merged_leaf_hits(init);
        if (forall|i: int|
            0 <= i < responses.len() && #[trigger] responses[i] is Ok ==> sorted_descending(
                responses[i]->Ok_0.partial_hits@,
            )) {
            assert forall|i: int|
                0 <= i < init.len() && #[trigger] init[i] is Ok implies sorted_descending(
                init[i]->Ok_0.partial_hits@,
            ) by {
                assert(init[i] == responses[i]);
            }
            assert(responses[responses.len() - 1] == responses.last());
        }
        match responses.last() {
            Ok(result) => {
                lemma_merged_hits_multiset(m0, result.partial_hits@);
                if sorted_descending(m0) && sorted_descending(result.partial_hits@) {
                    lemma_merged_hits_sorted(m0, result.partial_hits@);
                }
            },
            Err(_) => {
                assert(leaf_hits_multiset(responses) =~= leaf_hits_multiset(init));
            },
        }
    }
}

/// The documents fetched add up over consecutive runs of fetch responses.
pub proof fn lemma_fetched_hits_concat(
    a: Seq<Result<FetchDocsResult, String>>,
    b: Seq<Result<FetchDocsResult, String>>,
)
    ensures
        fetched_hits(a + b) == fetched_hits(a) + fetched_hits(b),
    decreases b.len(),
{
    if b.len() == 0 {
        assert(a + b == a);
        assert(fetched_hits(a) + fetched_hits(b) == fetched_hits(a));
    } else {
        lemma_fetched_hits_concat(a, b.drop_last());
        assert((a + b).drop_last() == a + b.drop_last());
        assert((a + b).last() == b.last());
    }
}

/// One fetch response gives its documents when it succeeded, and none when
/// it failed.
pub proof fn lemma_fetched_hits_single(response: Result<FetchDocsResult, String>)
    ensures
        response matches Ok(result) ==> fetched_hits(seq![response]) == result.hits@,
        response is Err ==> fetched_hits(seq![response]).len() == 0,
{
    assert(seq![response].drop_last() =~= Seq::<Result<FetchDocsResult, String>>::empty());
    assert(seq![response].last() == response);
    assert(fetched_hits(seq![response].drop_last()) == Seq::<Hit>::empty());
}

/// The page holds the hits from position `start_offset` on, as many as there
/// are up to `max_hits`, and none when `start_offset` is past the end.
pub proof fn lemma_page(hits: Seq<PartialHit>, start_offset: u64, max_hits: u64)
    ensures
        ({
            let page = hits.subrange(
                page_start(hits.len() as int, start_offset),
                page_end(hits.len() as int, start_offset, max_hits),
            );
            &&& page.len() == if start_offset >= hits.len() {
                0
            } else if max_hits <= hits.len() - start_offset {
                max_hits as int
            } else {
                hits.len() - start_offset
            }
            &&& forall|k: int| 0 <= k < page.len() ==> #[trigger] page[k] == hits[start_offset + k]
        }),
{
}

/// Where the page starts in `len` merged hits.
pub open spec fn page_start(len: int, start_offset: u64) -> int {
    if start_offset > len {
        len
    } else {
        start_offset as int
    }
}

/// Where the page ends in `len` merged hits.
pub open spec fn page_end(len: int, start_offset: u64, max_hits: u64) -> int {
    if page_start(len, start_offset) + max_hits > len {
        len
    } else {
        page_start(len, start_offset) + max_hits
    }
}

/// The page of the merged hits that the original request asks for: from
/// `start_offset`, at most `max_hits` hits, both cut to what there is.
pub fn extract_page(partial_hits: Vec<PartialHit>, start_offset: u64, max_hits: u64) -> (r: Vec<
    PartialHit,
>)
    requires
        page_start(partial_hits@.len() as int, start_offset) + max_hits <= u64::MAX,
    ensures
        r@ == partial_hits@.subrange(
            page_start(partial_hits@.len() as int, start_offset),
            page_end(partial_hits@.len() as int, start_offset, max_hits),
        ),
{
    let len = partial_hits.len() as u64;
    let start = if start_offset > len {
        len
    } else {
        start_offset
    };
    let end = if start + max_hits > len {
        len
    } else {
        start + max_hits
    };
    let mut hits = partial_hits;
    hits.truncate(end as usize);
    let page = hits.split_off(start as usize);
    page
}

/// The hits of one split, in order.
pub open spec fn hits_of_split(hits: Seq<PartialHit>, split: Seq<char>) -> Seq<PartialHit>
    decreases hits.len(),
{
    if hits.len() == 0 {
        hits
    } else if hits.last().split@ == split {
        hits_of_split(hits.drop_last(), split).push(hits.last())
    } else {
        hits_of_split(hits.drop_last(), split)
    }
}

pub open spec fn hit_splits(hits: Seq<PartialHit>) -> Seq<Seq<char>> {
    hits.map_values(|h: PartialHit| h.split@)
}

pub open spec fn group_splits(groups: Seq<SplitHits>) -> Seq<Seq<char>> {
    groups.map_values(|g: SplitHits| g.split@)
}

fn has_group_for(groups: &Vec<SplitHits>, split: &String) -> (r: Option<usize>)
    ensures
        r is None <==> !group_splits(groups@).contains(split@),
        r matches Some(i) ==> i < groups.len() && groups@[i as int].split@ == split@ && forall|
            k: int,
        |
            0 <= k < i ==> group_splits(groups@)[k] != split@,
{
    let mut i: usize = 0;
    while i < groups.len()
        invariant
            0 <= i <= groups.len(),
            forall|k: int| 0 <= k < i ==> group_splits(groups@)[k] != split@,
        decreases groups.len() - i,
    {
        if groups[i].split == *split {
            assert(group_splits(groups@)[i as int] == split@);
            return Some(i);
        }
        i = i + 1;
    }
    None
}

fn select_hits_of_split(hits: &Vec<PartialHit>, split: &String) -> (r: Vec<PartialHit>)
    ensures
        r@ == hits_of_split(hits@, split@),
{
    let mut r: Vec<PartialHit> = Vec::new();
    let mut i: usize = 0;
    while i < hits.len()
        invariant
            0 <= i <= hits.len(),
            r@ == hits_of_split(hits@.take(i as int), split@),
        decreases hits.len() - i,
    {
        assert(hits@.take(i + 1).drop_last() == hits@.take(i as int));
        assert(hits@.take(i + 1).last() == hits@[i as int]);
        if hits[i].split == *split {
            r.push(hits[i].clone());
        }
        i = i + 1;
    }
    assert(hits@.take(hits.len() as int) == hits@);
    r
}

/// The partial hits grouped by split: one group per distinct split, in the
/// order in which the splits first occur, each holding the hits of its split
/// in order.
pub fn group_partial_hits_by_split(partial_hits: &Vec<PartialHit>) -> (groups: Vec<SplitHits>)
    ensures
        group_splits(groups@) == distinct_in_order(hit_splits(partial_hits@)),
        forall|i: int|
            0 <= i < groups.len() ==> (#[trigger] groups@[i]).partial_hits@ == hits_of_split(
                partial_hits@,
                groups@[i].split@,
            ),
        group_sizes(groups@) == partial_hits.len(),
{
    let ghost ids = hit_splits(partial_hits@);
    let mut groups: Vec<SplitHits> = Vec::new();
    let mut i: usize = 0;
    while i < partial_hits.len()
        invariant
            0 <= i <= partial_hits.len(),
            ids == hit_splits(partial_hits@),
            group_splits(groups@) == distinct_in_order(ids.take(i as int)),
            forall|k: int|
                0 <= k < groups.len() ==> (#[trigger] groups@[k]).partial_hits@ == hits_of_split(
                    partial_hits@,
                    groups@[k].split@,
                ),
        decreases partial_hits.len() - i,
    {
        let split = &partial_hits[i].split;
        assert(ids.take(i + 1).drop_last() == ids.take(i as int));
        assert(ids.take(i + 1).last() == split@);
        proof { lemma_distinct_in_order(ids.take(i as int)); }
        if has_group_for(&groups, split).is_none() {
            let group = SplitHits {
                split: split.clone(),
                partial_hits: select_hits_of_split(partial_hits, split),
            };
            let ghost before = groups@;
            groups.push(group);
            assert(group_splits(groups@) =~= group_splits(before).push(split@));
        }
        i = i + 1;
    }
    assert(ids.take(partial_hits.len() as int) == ids);
    proof {
        lemma_group_sizes(groups@, partial_hits@);
        lemma_split_hit_count_total(partial_hits@);
    }
    groups
}

/// The hits of one split are the hits whose split it is, in order: no hit of
/// the split is left out, whatever its segment or document id.
pub proof fn lemma_hits_of_split_filter(hits: Seq<PartialHit>, split: Seq<char>)
    ensures
        hits_of_split(hits, split) == hits.filter(|h: PartialHit| h.split@ == split),
    decreases hits.len(),
{
    let pred = |h: PartialHit| h.split@ == split;
    reveal(Seq::filter);
    if hits.len() == 0 {
        assert(hits.filter(pred) == hits);
    } else {
        lemma_hits_of_split_filter(hits.drop_last(), split);
        let sub = hits.drop_last().filter(pred);
        assert(hits_of_split(hits.drop_last(), split) == sub);
        if pred(hits.last()) {
            assert(hits.filter(pred) == sub.push(hits.last()));
        } else {
            assert(hits.filter(pred) == sub);
        }
    }
}

/// The number of hits in the groups of the splits `splits`.
pub open spec fn split_hit_count(hits: Seq<PartialHit>, splits: Seq<Seq<char>>) -> int
    decreases splits.len(),
{
    if splits.len() == 0 {
        0
    } else {
        split_hit_count(hits, splits.drop_last()) + hits_of_split(hits, splits.last()).len()
    }
}

/// The number of hits in the groups.
pub open spec fn group_sizes(groups: Seq<SplitHits>) -> int
    decreases groups.len(),
{
    if groups.len() == 0 {
        0
    } else {
        group_sizes(groups.drop_last()) + groups.last().partial_hits@.len()
    }
}

/// How many times `x` occurs in `s`.
pub open spec fn occurrences(s: Seq<Seq<char>>, x: Seq<char>) -> int
    decreases s.len(),
{
    if s.len() == 0 {
        0
    } else {
        occurrences(s.drop_last(), x) + if s.last() == x {
            1int
        } else {
            0int
        }
    }
}

proof fn lemma_occurrences_distinct(s: Seq<Seq<char>>, x: Seq<char>)
    requires
        forall|i: int, j: int| 0 <= i < j < s.len() ==> s[i] != s[j],
    ensures
        occurrences(s, x) == if s.contains(x) {
            1int
        } else {
            0int
        },
    decreases s.len(),
{
    if s.len() > 0 {
        let init = s.drop_last();
        assert forall|i: int, j: int| 0 <= i < j < init.len() implies init[i] != init[j] by {
            assert(init[i] == s[i] && init[j] == s[j]);
        }
        lemma_occurrences_distinct(init, x);
        if init.contains(x) {
            let k = choose|k: int| 0 <= k < init.len() && init[k] == x;
            assert(s[k] == x);
            assert(s.last() != x) by {
                assert(s[k] != s[s.len() - 1]);
            }
        }
        if s.contains(x) && !init.contains(x) {
            let k = choose|k: int| 0 <= k < s.len() && s[k] == x;
            if k < init.len() {
                assert(init[k] == x);
            }
        }
        if !s.contains(x) && s.last() == x {
            assert(s[s.len() - 1] == x);
        }
    }
}

proof fn lemma_split_hit_count_push(hits: Seq<PartialHit>, splits: Seq<Seq<char>>)
    requires
        hits.len() > 0,
    ensures
        split_hit_count(hits, splits) == split_hit_count(hits.drop_last(), splits) + occurrences(
            splits,
            hits.last().split@,
        ),
    decreases splits.len(),
{
    if splits.len() > 0 {
        lemma_split_hit_count_push(hits, splits.drop_last());
    }
}

proof fn lemma_hits_of_absent_split(hits: Seq<PartialHit>, split: Seq<char>)
    requires
        !hit_splits(hits).contains(split),
    ensures
        hits_of_split(hits, split).len() == 0,
    decreases hits.len(),
{
    if hits.len() > 0 {
        assert(hit_splits(hits.drop_last()) =~= hit_splits(hits).drop_last());
        if hit_splits(hits.drop_last()).contains(split) {
            let k = choose|k: int|
                0 <= k < hits.drop_last().len() && hit_splits(hits.drop_last())[k] == split;
            assert(hit_splits(hits)[k] == split);
        }
        lemma_hits_of_absent_split(hits.drop_last(), split);
        assert(hit_splits(hits)[hits.len() - 1] == hits.last().split@);
    }
}

/// Grouping by split keeps every hit: the groups of the distinct splits hold
/// as many hits together as there are hits.
pub proof fn lemma_split_hit_count_total(hits: Seq<PartialHit>)
    ensures
        split_hit_count(hits, distinct_in_order(hit_splits(hits))) == hits.len(),
    decreases hits.len(),
{
    if hits.len() > 0 {
        let h = hits.drop_last();
        let sp = hits.last().split@;
        let ids = hit_splits(hits);
        assert(ids.drop_last() =~= hit_splits(h));
        assert(ids.last() == sp);
        lemma_split_hit_count_total(h);
        let d0 = distinct_in_order(hit_splits(h));
        lemma_distinct_in_order(hit_splits(h));
        lemma_split_hit_count_push(hits, d0);
        lemma_occurrences_distinct(d0, sp);
        if hit_splits(h).contains(sp) {
            assert(distinct_in_order(ids) == d0);
        } else {
            assert(distinct_in_order(ids) == d0.push(sp));
            assert(d0.push(sp).drop_last() == d0);
            lemma_hits_of_absent_split(h, sp);
        }
    }
}

proof fn lemma_group_sizes(groups: Seq<SplitHits>, hits: Seq<PartialHit>)
    requires
        forall|i: int|
            0 <= i < groups.len() ==> (#[trigger] groups[i]).partial_hits@ == hits_of_split(
                hits,
                groups[i].split@,
            ),
    ensures
        group_sizes(groups) == split_hit_count(hits, group_splits(groups)),
    decreases groups.len(),
{
    if groups.len() > 0 {
        let init = groups.drop_last();
        assert forall|i: int| 0 <= i < init.len() implies (#[trigger] init[i]).partial_hits@
            == hits_of_split(hits, init[i].split@) by {
            assert(init[i] == groups[i]);
        }
        lemma_group_sizes(init, hits);
        assert(group_splits(groups).drop_last() =~= group_splits(init));
        assert(groups[groups.len() - 1] == groups.last());
    }
}

fn find_split_metadata(split_metadata_list: &Vec<SplitMetadata>, split: &String) -> (r: usize)
    requires
        split_ids(split_metadata_list@).contains(split@),
    ensures
        r < split_metadata_list.len(),
        split_metadata_list@[r as int].split_id@ == split@,
{
    let mut i: usize = 0;
    while i < split_metadata_list.len()
        invariant
            0 <= i <= split_metadata_list.len(),
            split_ids(split_metadata_list@).contains(split@),
            forall|k: int| 0 <= k < i ==> split_ids(split_metadata_list@)[k] != split@,
        decreases split_metadata_list.len() - i,
    {
        if split_metadata_list[i].split_id == *split {
            return i;
        }
        assert(split_ids(split_metadata_list@)[i as int] == split_metadata_list@[i as int].split_id@);
        i = i + 1;
    }
    proof {
        let k = choose|k: int| 0 <= k < split_ids(split_metadata_list@).len() && split_ids(
            split_metadata_list@,
        )[k] == split@;
        assert(false);
    }
    0
}

/// The jobs of the fetch phase: one per group of hits, in order. Every split
/// must be one of the searched splits.
pub fn fetch_docs_jobs(groups: &Vec<SplitHits>, split_metadata_list: &Vec<SplitMetadata>) -> (jobs:
    Vec<Job>)
    requires
        forall|i: int|
            0 <= i < groups.len() ==> split_ids(split_metadata_list@).contains(
                #[trigger] groups@[i].split@,
            ),
    ensures
        job_splits(jobs@) == group_splits(groups@),
        unit_costs(jobs@),
{
    let mut jobs: Vec<Job> = Vec::new();
    let mut i: usize = 0;
    while i < groups.len()
        invariant
            0 <= i <= groups.len(),
            job_splits(jobs@) == group_splits(groups@).take(i as int),
            unit_costs(jobs@),
            forall|i: int|
                0 <= i < groups.len() ==> split_ids(split_metadata_list@).contains(
                    #[trigger] groups@[i].split@,
                ),
        decreases groups.len() - i,
    {
        assert(split_ids(split_metadata_list@).contains(groups@[i as int].split@));
        let m = find_split_metadata(split_metadata_list, &groups[i].split);
        let cost = compute_split_cost(&split_metadata_list[m]);
        let job = Job { split: groups[i].split.clone(), cost };
        let ghost before = jobs@;
        jobs.push(job);
        assert(jobs@ == before.push(job));
        assert(group_splits(groups@).take(i + 1) == group_splits(groups@).take(i as int).push(
            groups@[i as int].split@,
        ));
        assert(job_splits(jobs@) =~= group_splits(groups@).take(i + 1));
        i = i + 1;
    }
    assert(group_splits(groups@).take(groups.len() as int) == group_splits(groups@));
    jobs
}

/// The request for the documents of the hits of `split`, or `None` when no
/// group holds that split.
pub fn fetch_docs_request(groups: &Vec<SplitHits>, split: &String, index_id: &String) -> (r:
    Option<FetchDocsRequest>)
    ensures
        r is None <==> !group_splits(groups@).contains(split@),
        r matches Some(req) ==> req.index_id == *index_id && exists|i: int|
            0 <= i < groups.len() && groups@[i].split@ == split@ && req.partial_hits@
                == groups@[i].partial_hits@ && forall|k: int|
                0 <= k < i ==> group_splits(groups@)[k] != split@,
{
    match has_group_for(groups, split) {
        None => None,
        Some(i) => {
            let hits = &groups[i].partial_hits;
            let mut copy: Vec<PartialHit> = Vec::new();
            let mut k: usize = 0;
            while k < hits.len()
                invariant
                    0 <= k <= hits.len(),
                    copy@ == hits@.take(k as int),
                decreases hits.len() - k,
            {
                copy.push(hits[k].clone());
                assert(copy@ =~= hits@.take(k + 1));
                k = k + 1;
            }
            assert(hits@.take(hits.len() as int) == hits@);
            Some(FetchDocsRequest { partial_hits: copy, index_id: index_id.clone() })
        },
    }
}

/// The hits fetched by the leaves that answered, one leaf after the other.
pub open spec fn fetched_hits(responses: Seq<Result<FetchDocsResult, String>>) -> Seq<Hit>
    decreases responses.len(),
{
    if responses.len() == 0 {
        Seq::empty()
    } else {
        fetched_hits(responses.drop_last()) + match responses.last() {
            Ok(result) => result.hits@,
            Err(_) => Seq::empty(),
        }
    }
}

/// Gathers the documents fetched by the leaves that answered; the leaves
/// that failed are skipped.
pub fn collect_hits(responses: Vec<Result<FetchDocsResult, String>>) -> (hits: Vec<Hit>)
    ensures
        hits@ == fetched_hits(responses@),
{
    let ghost v0 = responses@;
    let n = responses.len();
    let mut stack = reversed(responses);
    let mut hits: Vec<Hit> = Vec::new();
    let mut i: usize = 0;
    assert(v0.take(0) =~= Seq::<Result<FetchDocsResult, String>>::empty());
    while i < n
        invariant
            n == v0.len(),
            0 <= i <= n,
            stack@ == v0.skip(i as int).reverse(),
            hits@ == fetched_hits(v0.take(i as int)),
        decreases n - i,
    {
        assert(stack@.len() == n - i);
        assert(stack@.last() == v0[i as int]);
        let response = stack.pop().unwrap();
        assert(stack@ =~= v0.skip(i + 1).reverse());
        assert(v0.take(i + 1).drop_last() == v0.take(i as int));
        assert(v0.take(i + 1).last() == response);
        match response {
            Ok(mut fetch_docs_result) => {
                hits.append(&mut fetch_docs_result.hits);
            },
            Err(_) => {
                assert(hits@ =~= hits@ + Seq::<Hit>::empty());
            },
        }
        i = i + 1;
    }
    assert(v0.take(n as int) == v0);
    hits
}

} // verus!
