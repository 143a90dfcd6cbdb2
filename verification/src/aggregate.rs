//! The finding aggregator: deduplicates classified matches, orders them
//! deterministically, and renders them into findings.
//!
//! Two classified matches collapse when they cover the identical byte range,
//! whichever rules produced them; the collapsed entry keeps the first
//! match's rule metadata and the tightest scope class among the duplicates
//! (direct before nested before result-flow), the most actionable one.
//! Findings are ordered by byte offset, then rule id, then range end, so the
//! output is reproducible run over run.

use vstd::prelude::*;
use crate::rules::{Category, Confidence, ScopeClass};

verus! {

/// A raw match with its classification and everything the aggregator needs
/// from its rule.
#[derive(Clone, Copy, PartialEq, Eq, Structural, Debug)]
pub struct ClassifiedMatch {
    pub rule_id: u64,
    pub severity: u32,
    pub category: Category,
    pub class: ScopeClass,
    pub confidence: Confidence,
    pub start: usize,
    pub end: usize,
}

/// A deduplicated, classified, reportable occurrence of a rule match.
pub struct Finding {
    pub path: Vec<u8>,
    /// 1-based line of the match's first byte.
    pub line: usize,
    /// 1-based column of the match's first byte.
    pub col: usize,
    pub rule_id: u64,
    pub severity: u32,
    pub category: Category,
    pub class: ScopeClass,
    /// Confidence of a result-flow classification.
    pub confidence: Confidence,
    pub start: usize,
    pub end: usize,
    /// The matched bytes, copied out of the text.
    pub snippet: Vec<u8>,
}

/// Deduplication key: the byte range alone. Matches on one range collapse
/// whichever rules produced them; the first one's rule metadata is kept.
pub open spec fn same_key(a: ClassifiedMatch, b: ClassifiedMatch) -> bool {
    a.start == b.start && a.end == b.end
}

/// Keeps `a`, tightening its scope class by `b`'s if that one is more
/// direct.
pub open spec fn merge_class(a: ClassifiedMatch, b: ClassifiedMatch) -> ClassifiedMatch {
    if b.class.rank_spec() < a.class.rank_spec() {
        ClassifiedMatch { class: b.class, confidence: b.confidence, ..a }
    } else {
        a
    }
}

/// Merges `x` into the first entry with its key, or appends it.
pub open spec fn insert_merged(acc: Seq<ClassifiedMatch>, x: ClassifiedMatch) -> Seq<
    ClassifiedMatch,
>
    decreases acc.len(),
{
    if acc.len() == 0 {
        seq![x]
    } else if same_key(acc[0], x) {
        seq![merge_class(acc[0], x)] + acc.drop_first()
    } else {
        seq![acc[0]] + insert_merged(acc.drop_first(), x)
    }
}

/// The deduplicated sequence: every element merged in, in order.
pub open spec fn dedup_spec(ms: Seq<ClassifiedMatch>) -> Seq<ClassifiedMatch>
    decreases ms.len(),
{
    if ms.len() == 0 {
        Seq::empty()
    } else {
        insert_merged(dedup_spec(ms.drop_last()), ms.last())
    }
}

/// Output order: byte offset, then rule id, then range end.
pub open spec fn key_le(a: ClassifiedMatch, b: ClassifiedMatch) -> bool {
    ||| a.start < b.start
    ||| (a.start == b.start && a.rule_id < b.rule_id)
    ||| (a.start == b.start && a.rule_id == b.rule_id && a.end <= b.end)
}

/// Inserts `x` before the first entry it precedes or equals.
pub open spec fn insert_sorted(s: Seq<ClassifiedMatch>, x: ClassifiedMatch) -> Seq<ClassifiedMatch>
    decreases s.len(),
{
    if s.len() == 0 {
        seq![x]
    } else if key_le(x, s[0]) {
        seq![x] + s
    } else {
        seq![s[0]] + insert_sorted(s.drop_first(), x)
    }
}

/// Insertion sort, element by element.
pub open spec fn sort_spec(s: Seq<ClassifiedMatch>) -> Seq<ClassifiedMatch>
    decreases s.len(),
{
    if s.len() == 0 {
        Seq::empty()
    } else {
        insert_sorted(sort_spec(s.drop_last()), s.last())
    }
}

/// Number of line feeds in the first `e` bytes of the text.
pub open spec fn count_nl(text: Seq<u8>, e: int) -> int
    decreases e,
{
    if e <= 0 {
        0
    } else {
        count_nl(text, e - 1) + if text[e - 1] == 10 {
            1int
        } else {
            0int
        }
    }
}

/// Byte offset where the line holding offset `e` begins.
pub open spec fn line_start(text: Seq<u8>, e: int) -> int
    decreases e,
{
    if e <= 0 {
        0
    } else if text[e - 1] == 10 {
        e
    } else {
        line_start(text, e - 1)
    }
}

/// A finding renders a classified match: every field is pinned by the match,
/// the path, and the text.
pub open spec fn renders(
    f: Finding,
    cm: ClassifiedMatch,
    path: Seq<u8>,
    text: Seq<u8>,
) -> bool {
    &&& f.path@ == path
    &&& f.line == count_nl(text, cm.start as int) + 1
    &&& f.col == cm.start - line_start(text, cm.start as int) + 1
    &&& f.rule_id == cm.rule_id
    &&& f.severity == cm.severity
    &&& f.category == cm.category
    &&& f.class == cm.class
    &&& f.confidence == cm.confidence
    &&& f.start == cm.start
    &&& f.end == cm.end
    &&& f.snippet@ == text.subrange(cm.start as int, cm.end as int)
}

/// Every byte range of the sequence lies within a text of length `tl`.
pub open spec fn ranges_ok(s: Seq<ClassifiedMatch>, tl: int) -> bool {
    forall|m: int| 0 <= m < s.len() ==> (#[trigger] s[m]).start <= s[m].end && s[m].end <= tl
}

proof fn lemma_insert_merged_ranges(acc: Seq<ClassifiedMatch>, x: ClassifiedMatch, tl: int)
    requires
        ranges_ok(acc, tl),
        x.start <= x.end <= tl,
    ensures
        ranges_ok(insert_merged(acc, x), tl),
    decreases acc.len(),
{
    if acc.len() == 0 {
    } else if same_key(acc[0], x) {
    } else {
        lemma_insert_merged_ranges(acc.drop_first(), x, tl);
    }
}

proof fn lemma_dedup_ranges(ms: Seq<ClassifiedMatch>, tl: int)
    requires
        ranges_ok(ms, tl),
    ensures
        ranges_ok(dedup_spec(ms), tl),
    decreases ms.len(),
{
    if ms.len() > 0 {
        lemma_dedup_ranges(ms.drop_last(), tl);
        lemma_insert_merged_ranges(dedup_spec(ms.drop_last()), ms.last(), tl);
    }
}

proof fn lemma_insert_sorted_ranges(s: Seq<ClassifiedMatch>, x: ClassifiedMatch, tl: int)
    requires
        ranges_ok(s, tl),
        x.start <= x.end <= tl,
    ensures
        ranges_ok(insert_sorted(s, x), tl),
    decreases s.len(),
{
    if s.len() == 0 {
    } else if key_le(x, s[0]) {
    } else {
        lemma_insert_sorted_ranges(s.drop_first(), x, tl);
    }
}

proof fn lemma_sort_ranges(s: Seq<ClassifiedMatch>, tl: int)
    requires
        ranges_ok(s, tl),
    ensures
        ranges_ok(sort_spec(s), tl),
    decreases s.len(),
{
    if s.len() > 0 {
        lemma_sort_ranges(s.drop_last(), tl);
        lemma_insert_sorted_ranges(sort_spec(s.drop_last()), s.last(), tl);
    }
}

proof fn lemma_insert_merged_hit(acc: Seq<ClassifiedMatch>, x: ClassifiedMatch, j: int)
    requires
        0 <= j < acc.len(),
        same_key(acc[j], x),
        forall|jj: int| 0 <= jj < j ==> !same_key(acc[jj], x),
    ensures
        insert_merged(acc, x) =~= acc.update(j, merge_class(acc[j], x)),
    decreases acc.len(),
{
    if j == 0 {
    } else {
        assert forall|jj: int| 0 <= jj < j - 1 implies !same_key(acc.drop_first()[jj], x) by {
            assert(acc.drop_first()[jj] == acc[jj + 1]);
        }
        lemma_insert_merged_hit(acc.drop_first(), x, j - 1);
    }
}

proof fn lemma_insert_merged_miss(acc: Seq<ClassifiedMatch>, x: ClassifiedMatch)
    requires
        forall|jj: int| 0 <= jj < acc.len() ==> !same_key(acc[jj], x),
    ensures
        insert_merged(acc, x) =~= acc.push(x),
    decreases acc.len(),
{
    if acc.len() > 0 {
        lemma_insert_merged_miss(acc.drop_first(), x);
    }
}

proof fn lemma_insert_sorted_at(s: Seq<ClassifiedMatch>, x: ClassifiedMatch, j: int)
    requires
        0 <= j <= s.len(),
        forall|jj: int| 0 <= jj < j ==> !key_le(x, s[jj]),
        j < s.len() ==> key_le(x, s[j]),
    ensures
        insert_sorted(s, x) =~= s.subrange(0, j) + seq![x] + s.subrange(j, s.len() as int),
    decreases s.len(),
{
    if s.len() == 0 {
    } else if key_le(x, s[0]) {
        assert(j == 0);
    } else {
        assert(j >= 1);
        assert forall|jj: int| 0 <= jj < j - 1 implies !key_le(x, s.drop_first()[jj]) by {
            assert(s.drop_first()[jj] == s[jj + 1]);
        }
        lemma_insert_sorted_at(s.drop_first(), x, j - 1);
        assert(s.drop_first().subrange(0, j - 1) =~= s.subrange(1, j));
        assert(s.drop_first().subrange(j - 1, s.drop_first().len() as int) =~= s.subrange(
            j,
            s.len() as int,
        ));
    }
}

/// No two entries share a deduplication key.
pub open spec fn keys_unique(s: Seq<ClassifiedMatch>) -> bool {
    forall|i: int, j: int| 0 <= i < j < s.len() ==> !same_key(s[i], s[j])
}

proof fn lemma_insert_merged_origin(acc: Seq<ClassifiedMatch>, x: ClassifiedMatch)
    ensures
        forall|q: int|
            0 <= q < insert_merged(acc, x).len() ==> (#[trigger] insert_merged(acc, x)[q]) == x
                || exists|p: int|
                0 <= p < acc.len() && same_key(insert_merged(acc, x)[q], #[trigger] acc[p]),
    decreases acc.len(),
{
    let res = insert_merged(acc, x);
    if acc.len() == 0 {
    } else if same_key(acc[0], x) {
        assert forall|q: int| 0 <= q < res.len() implies (#[trigger] res[q]) == x || exists|p: int|
            0 <= p < acc.len() && same_key(res[q], #[trigger] acc[p]) by {
            if q == 0 {
                assert(same_key(res[0], acc[0]));
            } else {
                assert(res[q] == acc[q]);
                assert(same_key(res[q], acc[q]));
            }
        }
    } else {
        lemma_insert_merged_origin(acc.drop_first(), x);
        let rec = insert_merged(acc.drop_first(), x);
        assert forall|q: int| 0 <= q < res.len() implies (#[trigger] res[q]) == x || exists|p: int|
            0 <= p < acc.len() && same_key(res[q], #[trigger] acc[p]) by {
            if q == 0 {
                assert(same_key(res[0], acc[0]));
            } else {
                assert(res[q] == rec[q - 1]);
                if rec[q - 1] == x {
                } else {
                    let p = choose|p: int|
                        0 <= p < acc.drop_first().len() && same_key(
                            rec[q - 1],
                            #[trigger] acc.drop_first()[p],
                        );
                    assert(acc.drop_first()[p] == acc[p + 1]);
                    assert(same_key(res[q], acc[p + 1]));
                }
            }
        }
    }
}

proof fn lemma_insert_merged_unique(acc: Seq<ClassifiedMatch>, x: ClassifiedMatch)
    requires
        keys_unique(acc),
    ensures
        keys_unique(insert_merged(acc, x)),
    decreases acc.len(),
{
    let res = insert_merged(acc, x);
    if acc.len() == 0 {
    } else if same_key(acc[0], x) {
        assert forall|i: int, j: int| 0 <= i < j < res.len() implies !same_key(
            res[i],
            res[j],
        ) by {
            if i == 0 {
                assert(res[j] == acc[j]);
                assert(!same_key(acc[0], acc[j]));
            } else {
                assert(res[i] == acc[i] && res[j] == acc[j]);
            }
        }
    } else {
        assert(keys_unique(acc.drop_first())) by {
            assert forall|i: int, j: int|
                0 <= i < j < acc.drop_first().len() implies !same_key(
                acc.drop_first()[i],
                acc.drop_first()[j],
            ) by {
                assert(acc.drop_first()[i] == acc[i + 1]);
                assert(acc.drop_first()[j] == acc[j + 1]);
            }
        }
        lemma_insert_merged_unique(acc.drop_first(), x);
        lemma_insert_merged_origin(acc.drop_first(), x);
        let rec = insert_merged(acc.drop_first(), x);
        assert forall|i: int, j: int| 0 <= i < j < res.len() implies !same_key(
            res[i],
            res[j],
        ) by {
            if i == 0 {
                assert(res[j] == rec[j - 1]);
                if rec[j - 1] == x {
                } else {
                    let p = choose|p: int|
                        0 <= p < acc.drop_first().len() && same_key(
                            rec[j - 1],
                            #[trigger] acc.drop_first()[p],
                        );
                    assert(acc.drop_first()[p] == acc[p + 1]);
                    assert(!same_key(acc[0], acc[p + 1]));
                }
            } else {
                assert(res[i] == rec[i - 1] && res[j] == rec[j - 1]);
            }
        }
    }
}

/// Law: deduplication never leaves two findings on the identical byte
/// range; every range appears at most once afterwards.
pub proof fn lemma_dedup_keys_unique(ms: Seq<ClassifiedMatch>)
    ensures
        keys_unique(dedup_spec(ms)),
    decreases ms.len(),
{
    if ms.len() > 0 {
        lemma_dedup_keys_unique(ms.drop_last());
        lemma_insert_merged_unique(dedup_spec(ms.drop_last()), ms.last());
    }
}

/// Law: two matches on the identical byte range collapse to a single
/// entry that keeps the more direct scope class of the two.
pub proof fn lemma_duplicate_pair_collapses(a: ClassifiedMatch, b: ClassifiedMatch)
    requires
        same_key(a, b),
    ensures
        dedup_spec(seq![a, b]) =~= seq![merge_class(a, b)],
        merge_class(a, b).class.rank_spec() <= a.class.rank_spec(),
        merge_class(a, b).class.rank_spec() <= b.class.rank_spec(),
        merge_class(a, b).class == a.class || merge_class(a, b).class == b.class,
        merge_class(a, b).rule_id == a.rule_id,
        same_key(merge_class(a, b), a),
{
    let two = seq![a, b];
    assert(two.drop_last() =~= seq![a]);
    assert(two.last() == b);
    let one = seq![a];
    assert(one.drop_last() =~= Seq::<ClassifiedMatch>::empty());
    assert(one.last() == a);
    assert(dedup_spec(Seq::<ClassifiedMatch>::empty()) =~= Seq::<ClassifiedMatch>::empty());
    assert(insert_merged(Seq::<ClassifiedMatch>::empty(), a) =~= seq![a]);
    assert(dedup_spec(one) =~= seq![a]);
    assert(insert_merged(seq![a], b) =~= seq![merge_class(a, b)] + seq![a].drop_first());
    assert(seq![merge_class(a, b)] + seq![a].drop_first() =~= seq![merge_class(a, b)]);
}

proof fn lemma_insert_merged_keeps(acc: Seq<ClassifiedMatch>, x: ClassifiedMatch, p: int)
    requires
        0 <= p < acc.len(),
    ensures
        exists|q: int|
            0 <= q < insert_merged(acc, x).len() && same_key(
                #[trigger] insert_merged(acc, x)[q],
                acc[p],
            ) && insert_merged(acc, x)[q].class.rank_spec() <= acc[p].class.rank_spec(),
    decreases acc.len(),
{
    let res = insert_merged(acc, x);
    if same_key(acc[0], x) {
        if p == 0 {
            assert(same_key(res[0], acc[0]) && res[0].class.rank_spec()
                <= acc[0].class.rank_spec());
        } else {
            assert(res[p] == acc[p]);
            assert(same_key(res[p], acc[p]) && res[p].class.rank_spec()
                <= acc[p].class.rank_spec());
        }
    } else {
        if p == 0 {
            assert(res[0] == acc[0]);
            assert(same_key(res[0], acc[0]) && res[0].class.rank_spec()
                <= acc[0].class.rank_spec());
        } else {
            lemma_insert_merged_keeps(acc.drop_first(), x, p - 1);
            let rec = insert_merged(acc.drop_first(), x);
            let q = choose|q: int|
                0 <= q < rec.len() && same_key(#[trigger] rec[q], acc.drop_first()[p - 1])
                    && rec[q].class.rank_spec() <= acc.drop_first()[p - 1].class.rank_spec();
            assert(acc.drop_first()[p - 1] == acc[p]);
            assert(res[q + 1] == rec[q]);
            assert(same_key(res[q + 1], acc[p]) && res[q + 1].class.rank_spec()
                <= acc[p].class.rank_spec());
        }
    }
}

proof fn lemma_insert_merged_takes(acc: Seq<ClassifiedMatch>, x: ClassifiedMatch)
    ensures
        exists|q: int|
            0 <= q < insert_merged(acc, x).len() && same_key(
                #[trigger] insert_merged(acc, x)[q],
                x,
            ) && insert_merged(acc, x)[q].class.rank_spec() <= x.class.rank_spec(),
    decreases acc.len(),
{
    let res = insert_merged(acc, x);
    if acc.len() == 0 {
        assert(same_key(res[0], x) && res[0].class.rank_spec() <= x.class.rank_spec());
    } else if same_key(acc[0], x) {
        assert(same_key(res[0], x) && res[0].class.rank_spec() <= x.class.rank_spec());
    } else {
        lemma_insert_merged_takes(acc.drop_first(), x);
        let rec = insert_merged(acc.drop_first(), x);
        let q = choose|q: int|
            0 <= q < rec.len() && same_key(#[trigger] rec[q], x) && rec[q].class.rank_spec()
                <= x.class.rank_spec();
        assert(res[q + 1] == rec[q]);
        assert(same_key(res[q + 1], x) && res[q + 1].class.rank_spec() <= x.class.rank_spec());
    }
}

/// Law: deduplication loses no match and never loosens a classification.
/// For every input entry there is an output entry on the same rule and byte
/// range whose scope class is at least as direct.
pub proof fn lemma_dedup_retains_tightest(ms: Seq<ClassifiedMatch>, p: int)
    requires
        0 <= p < ms.len(),
    ensures
        exists|q: int|
            0 <= q < dedup_spec(ms).len() && same_key(#[trigger] dedup_spec(ms)[q], ms[p])
                && dedup_spec(ms)[q].class.rank_spec() <= ms[p].class.rank_spec(),
    decreases ms.len(),
{
    let prev = dedup_spec(ms.drop_last());
    let res = dedup_spec(ms);
    if p == ms.len() - 1 {
        lemma_insert_merged_takes(prev, ms.last());
    } else {
        assert(ms.drop_last()[p] == ms[p]);
        lemma_dedup_retains_tightest(ms.drop_last(), p);
        let q = choose|q: int|
            0 <= q < prev.len() && same_key(#[trigger] prev[q], ms.drop_last()[p])
                && prev[q].class.rank_spec() <= ms.drop_last()[p].class.rank_spec();
        lemma_insert_merged_keeps(prev, ms.last(), q);
    }
}

proof fn lemma_insert_sorted_split(s: Seq<ClassifiedMatch>, x: ClassifiedMatch)
    ensures
        exists|j: int|
            0 <= j <= s.len() && insert_sorted(s, x) == s.subrange(0, j) + seq![x] + s.subrange(
                j,
                s.len() as int,
            ),
    decreases s.len(),
{
    if s.len() == 0 {
        assert(insert_sorted(s, x) =~= s.subrange(0, 0) + seq![x] + s.subrange(0, 0));
    } else if key_le(x, s[0]) {
        assert(insert_sorted(s, x) =~= s.subrange(0, 0) + seq![x] + s.subrange(
            0,
            s.len() as int,
        ));
    } else {
        lemma_insert_sorted_split(s.drop_first(), x);
        let d = s.drop_first();
        let j = choose|j: int|
            0 <= j <= d.len() && insert_sorted(d, x) == d.subrange(0, j) + seq![x] + d.subrange(
                j,
                d.len() as int,
            );
        assert(d.subrange(0, j) =~= s.subrange(1, j + 1));
        assert(d.subrange(j, d.len() as int) =~= s.subrange(j + 1, s.len() as int));
        assert(insert_sorted(s, x) =~= s.subrange(0, j + 1) + seq![x] + s.subrange(
            j + 1,
            s.len() as int,
        ));
    }
}

proof fn lemma_insert_sorted_origin(s: Seq<ClassifiedMatch>, x: ClassifiedMatch)
    ensures
        forall|q: int|
            0 <= q < insert_sorted(s, x).len() ==> (#[trigger] insert_sorted(s, x)[q]) == x
                || s.contains(insert_sorted(s, x)[q]),
    decreases s.len(),
{
    let res = insert_sorted(s, x);
    if s.len() == 0 {
    } else if key_le(x, s[0]) {
        assert forall|q: int| 0 <= q < res.len() implies (#[trigger] res[q]) == x || s.contains(
            res[q],
        ) by {
            if q >= 1 {
                assert(res[q] == s[q - 1]);
            }
        }
    } else {
        lemma_insert_sorted_origin(s.drop_first(), x);
        let rec = insert_sorted(s.drop_first(), x);
        assert forall|q: int| 0 <= q < res.len() implies (#[trigger] res[q]) == x || s.contains(
            res[q],
        ) by {
            if q == 0 {
                assert(s[0] == res[0]);
            } else {
                assert(res[q] == rec[q - 1]);
                if rec[q - 1] == x {
                } else {
                    let p = choose|p: int|
                        0 <= p < s.drop_first().len() && s.drop_first()[p] == rec[q - 1];
                    assert(s[p + 1] == res[q]);
                }
            }
        }
    }
}

proof fn lemma_sort_origin(s: Seq<ClassifiedMatch>)
    ensures
        forall|q: int|
            0 <= q < sort_spec(s).len() ==> s.contains(#[trigger] sort_spec(s)[q]),
    decreases s.len(),
{
    if s.len() > 0 {
        lemma_sort_origin(s.drop_last());
        lemma_insert_sorted_origin(sort_spec(s.drop_last()), s.last());
        let res = sort_spec(s);
        assert forall|q: int| 0 <= q < res.len() implies s.contains(#[trigger] res[q]) by {
            if res[q] == s.last() {
                assert(s[s.len() - 1] == res[q]);
            } else {
                assert(sort_spec(s.drop_last()).contains(res[q]));
                let p = choose|p: int|
                    0 <= p < s.drop_last().len() && s.drop_last()[p] == res[q];
                assert(s[p] == res[q]);
            }
        }
    }
}

proof fn lemma_sort_keys_unique(s: Seq<ClassifiedMatch>)
    requires
        keys_unique(s),
    ensures
        keys_unique(sort_spec(s)),
    decreases s.len(),
{
    if s.len() > 0 {
        let d = s.drop_last();
        assert(keys_unique(d)) by {
            assert forall|i: int, j: int| 0 <= i < j < d.len() implies !same_key(
                d[i],
                d[j],
            ) by {
                assert(d[i] == s[i] && d[j] == s[j]);
            }
        }
        lemma_sort_keys_unique(d);
        lemma_sort_origin(d);
        let sd = sort_spec(d);
        lemma_insert_sorted_split(sd, s.last());
        let j = choose|j: int|
            0 <= j <= sd.len() && insert_sorted(sd, s.last()) == sd.subrange(0, j) + seq![
                s.last(),
            ] + sd.subrange(j, sd.len() as int);
        let res = sort_spec(s);
        assert forall|i1: int, i2: int| 0 <= i1 < i2 < res.len() implies !same_key(
            res[i1],
            res[i2],
        ) by {
            // Map result positions back to positions of the sorted prefix or
            // to the inserted last element.
            if i1 != j && i2 != j {
                let p1: int = if i1 < j {
                    i1
                } else {
                    i1 - 1
                };
                let p2: int = if i2 < j {
                    i2
                } else {
                    i2 - 1
                };
                assert(res[i1] == sd[p1] && res[i2] == sd[p2]);
                assert(!same_key(sd[p1], sd[p2]));
            } else {
                let io: int = if i1 == j {
                    i2
                } else {
                    i1
                };
                let po: int = if io < j {
                    io
                } else {
                    io - 1
                };
                assert(res[io] == sd[po]);
                assert(d.contains(sd[po]));
                let p = choose|p: int| 0 <= p < d.len() && d[p] == sd[po];
                assert(s[p] == sd[po] && s[s.len() - 1] == s.last());
                assert(!same_key(s[p], s[s.len() - 1]));
            }
        }
    }
}

/// Law: the aggregated findings of one source unit never repeat a byte
/// range; all matches on one range were collapsed to exactly one entry.
pub proof fn lemma_aggregate_keys_unique(ms: Seq<ClassifiedMatch>)
    ensures
        keys_unique(aggregate_spec(ms)),
{
    lemma_dedup_keys_unique(ms);
    lemma_sort_keys_unique(dedup_spec(ms));
}

proof fn lemma_insert_sorted_membership(s: Seq<ClassifiedMatch>, x: ClassifiedMatch)
    ensures
        insert_sorted(s, x).contains(x),
        forall|e: ClassifiedMatch| s.contains(e) ==> insert_sorted(s, x).contains(e),
    decreases s.len(),
{
    let res = insert_sorted(s, x);
    if s.len() == 0 {
        assert(res[0] == x);
    } else if key_le(x, s[0]) {
        assert(res[0] == x);
        assert forall|e: ClassifiedMatch| s.contains(e) implies res.contains(e) by {
            let q = choose|q: int| 0 <= q < s.len() && s[q] == e;
            assert(res[q + 1] == e);
        }
    } else {
        lemma_insert_sorted_membership(s.drop_first(), x);
        let rec = insert_sorted(s.drop_first(), x);
        let qx = choose|q: int| 0 <= q < rec.len() && rec[q] == x;
        assert(res[qx + 1] == x);
        assert forall|e: ClassifiedMatch| s.contains(e) implies res.contains(e) by {
            let q = choose|q: int| 0 <= q < s.len() && s[q] == e;
            if q == 0 {
                assert(res[0] == e);
            } else {
                assert(s.drop_first()[q - 1] == e);
                assert(s.drop_first().contains(e));
                let q2 = choose|q2: int| 0 <= q2 < rec.len() && rec[q2] == e;
                assert(res[q2 + 1] == e);
            }
        }
    }
}

proof fn lemma_sort_membership(s: Seq<ClassifiedMatch>, p: int)
    requires
        0 <= p < s.len(),
    ensures
        sort_spec(s).contains(s[p]),
    decreases s.len(),
{
    lemma_insert_sorted_membership(sort_spec(s.drop_last()), s.last());
    if p == s.len() - 1 {
    } else {
        assert(s.drop_last()[p] == s[p]);
        lemma_sort_membership(s.drop_last(), p);
    }
}

/// Law: aggregation loses no match and never loosens a classification. For
/// every classified match there is an aggregated entry on the same rule and
/// byte range whose scope class is at least as direct; together with
/// `lemma_dedup_keys_unique`, matches on one rule and range collapse to
/// exactly one entry keeping the most actionable class.
pub proof fn lemma_aggregate_retains_tightest(ms: Seq<ClassifiedMatch>, p: int)
    requires
        0 <= p < ms.len(),
    ensures
        exists|q: int|
            0 <= q < aggregate_spec(ms).len() && same_key(#[trigger] aggregate_spec(ms)[q], ms[p])
                && aggregate_spec(ms)[q].class.rank_spec() <= ms[p].class.rank_spec(),
{
    lemma_dedup_retains_tightest(ms, p);
    let d = dedup_spec(ms);
    let q1 = choose|q: int|
        0 <= q < d.len() && same_key(#[trigger] d[q], ms[p]) && d[q].class.rank_spec()
            <= ms[p].class.rank_spec();
    lemma_sort_membership(d, q1);
    let q2 = choose|q: int| 0 <= q < sort_spec(d).len() && sort_spec(d)[q] == d[q1];
    assert(same_key(aggregate_spec(ms)[q2], ms[p]) && aggregate_spec(ms)[q2].class.rank_spec()
        <= ms[p].class.rank_spec());
}

/// Executable deduplication, mirroring `dedup_spec`.
fn dedup(ms: &Vec<ClassifiedMatch>) -> (r: Vec<ClassifiedMatch>)
    ensures
        r@ == dedup_spec(ms@),
{
    let mut r: Vec<ClassifiedMatch> = Vec::new();
    let mut i: usize = 0;
    while i < ms.len()
        invariant
            i <= ms.len(),
            r@ == dedup_spec(ms@.subrange(0, i as int)),
        decreases ms.len() - i,
    {
        let x = ms[i];
        let ghost pre = r@;
        let mut j: usize = 0;
        let mut hit = false;
        while j < r.len() && !hit
            invariant
                j <= r.len(),
                !hit ==> forall|jj: int| 0 <= jj < j ==> !same_key(pre[jj], x),
                !hit ==> r@ == pre,
                hit ==> (j < pre.len() && same_key(pre[j as int], x) && (forall|jj: int|
                    0 <= jj < j ==> !same_key(pre[jj], x)) && r@ == pre.update(
                    j as int,
                    merge_class(pre[j as int], x),
                )),
            decreases r.len() - j, (if hit {
                0int
            } else {
                1int
            }),
        {
            if r[j].start == x.start && r[j].end == x.end {
                if x.class.rank() < r[j].class.rank() {
                    let merged = ClassifiedMatch { class: x.class, confidence: x.confidence, ..r[j] };
                    r[j] = merged;
                } else {
                    let keep = r[j];
                    r[j] = keep;
                }
                proof {
                    assert(r@ =~= pre.update(j as int, merge_class(pre[j as int], x)));
                }
                hit = true;
            } else {
                j = j + 1;
            }
        }
        if hit {
            proof {
                lemma_insert_merged_hit(pre, x, j as int);
                assert(ms@.subrange(0, i + 1).drop_last() =~= ms@.subrange(0, i as int));
                assert(ms@.subrange(0, i + 1).last() == x);
                assert(r@ =~= insert_merged(dedup_spec(ms@.subrange(0, i as int)), x));
            }
        } else {
            r.push(x);
            proof {
                lemma_insert_merged_miss(pre, x);
                assert(ms@.subrange(0, i + 1).drop_last() =~= ms@.subrange(0, i as int));
                assert(ms@.subrange(0, i + 1).last() == x);
                assert(r@ =~= insert_merged(dedup_spec(ms@.subrange(0, i as int)), x));
            }
        }
        i = i + 1;
    }
    proof {
        assert(ms@.subrange(0, ms.len() as int) =~= ms@);
    }
    r
}

fn key_le_ex(a: &ClassifiedMatch, b: &ClassifiedMatch) -> (r: bool)
    ensures
        r == key_le(*a, *b),
{
    a.start < b.start || (a.start == b.start && a.rule_id < b.rule_id) || (a.start == b.start
        && a.rule_id == b.rule_id && a.end <= b.end)
}

/// Executable insertion sort, mirroring `sort_spec`.
fn sort(ms: &Vec<ClassifiedMatch>) -> (r: Vec<ClassifiedMatch>)
    ensures
        r@ == sort_spec(ms@),
{
    let mut r: Vec<ClassifiedMatch> = Vec::new();
    let mut i: usize = 0;
    while i < ms.len()
        invariant
            i <= ms.len(),
            r@ == sort_spec(ms@.subrange(0, i as int)),
        decreases ms.len() - i,
    {
        let x = ms[i];
        let ghost pre = r@;
        let mut j: usize = 0;
        while j < r.len() && !key_le_ex(&x, &r[j])
            invariant
                j <= r.len(),
                r@ == pre,
                forall|jj: int| 0 <= jj < j ==> !key_le(x, pre[jj]),
            decreases r.len() - j,
        {
            j = j + 1;
        }
        r.insert(j, x);
        proof {
            lemma_insert_sorted_at(pre, x, j as int);
            assert(r@ =~= pre.subrange(0, j as int) + seq![x] + pre.subrange(
                j as int,
                pre.len() as int,
            ));
            assert(ms@.subrange(0, i + 1).drop_last() =~= ms@.subrange(0, i as int));
            assert(ms@.subrange(0, i + 1).last() == x);
            assert(r@ =~= insert_sorted(sort_spec(ms@.subrange(0, i as int)), x));
        }
        i = i + 1;
    }
    proof {
        assert(ms@.subrange(0, ms.len() as int) =~= ms@);
    }
    r
}

/// 1-based line and column of a byte offset.
fn line_col(text: &Vec<u8>, off: usize) -> (lc: (usize, usize))
    requires
        off <= text.len(),
        text.len() < usize::MAX,
    ensures
        lc.0 == count_nl(text@, off as int) + 1,
        lc.1 == off - line_start(text@, off as int) + 1,
{
    let mut cnt: usize = 0;
    let mut ls: usize = 0;
    let mut i: usize = 0;
    while i < off
        invariant
            i <= off <= text.len(),
            text.len() < usize::MAX,
            cnt == count_nl(text@, i as int),
            ls == line_start(text@, i as int),
            cnt <= i,
            ls <= i,
        decreases off - i,
    {
        if text[i] == 10 {
            cnt = cnt + 1;
            ls = i + 1;
        }
        i = i + 1;
    }
    (cnt + 1, off - ls + 1)
}

/// The aggregated classified matches of one source unit: deduplicated, then
/// deterministically ordered.
pub open spec fn aggregate_spec(ms: Seq<ClassifiedMatch>) -> Seq<ClassifiedMatch> {
    sort_spec(dedup_spec(ms))
}

/// Deduplicates, orders, and renders the classified matches of one source
/// unit into findings. The output is pinned element for element: running the
/// aggregation twice on the same input gives identical findings.
pub fn aggregate(path: &Vec<u8>, text: &Vec<u8>, ms: &Vec<ClassifiedMatch>) -> (fs: Vec<Finding>)
    requires
        ranges_ok(ms@, text.len() as int),
        text.len() < usize::MAX,
    ensures
        fs@.len() == aggregate_spec(ms@).len(),
        forall|i: int|
            0 <= i < fs@.len() ==> renders(#[trigger] fs@[i], aggregate_spec(ms@)[i], path@, text@),
{
    proof {
        lemma_dedup_ranges(ms@, text.len() as int);
        lemma_sort_ranges(dedup_spec(ms@), text.len() as int);
    }
    let d = dedup(ms);
    let s = sort(&d);
    let mut fs: Vec<Finding> = Vec::new();
    let mut i: usize = 0;
    while i < s.len()
        invariant
            i <= s.len(),
            s@ == aggregate_spec(ms@),
            ranges_ok(s@, text.len() as int),
            fs@.len() == i,
            forall|k: int|
                0 <= k < i ==> renders(#[trigger] fs@[k], s@[k], path@, text@),
        decreases s.len() - i,
    {
        let cm = s[i];
        let (line, col) = line_col(text, cm.start);
        let snippet = crate::syntax::span_text(text, cm.start, cm.end);
        let f = Finding {
            path: crate::lexer::dup_bytes(path),
            line,
            col,
            rule_id: cm.rule_id,
            severity: cm.severity,
            category: cm.category,
            class: cm.class,
            confidence: cm.confidence,
            start: cm.start,
            end: cm.end,
            snippet,
        };
        fs.push(f);
        i = i + 1;
    }
    fs
}

} // verus!
