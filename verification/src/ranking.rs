//! Ranked entries: the order in which a top-K view lists its items, and the
//! selection of the first `k` of a set of candidates under that order.
//!
//! An entry ranks before another if its count is greater, or if the counts
//! are equal and its item does not come after the other's in the
//! lexicographic order of their UTF-8 bytes.

use vstd::prelude::*;
use vstd::string::StringSliceAdditionalSpecFns;
use vstd::utf8::{encode_utf8, encode_utf8_decode_utf8};

verus! {

/// Model of a ranked entry: an item and its aggregate count.
pub struct EntryModel {
    pub item: Seq<char>,
    pub count: u32,
}

/// One line of a top-K view.
pub struct TopKItem {
    pub item: String,
    pub count: u32,
}

impl View for TopKItem {
    type V = EntryModel;

    open spec fn view(&self) -> EntryModel {
        EntryModel { item: self.item@, count: self.count }
    }
}

impl TopKItem {
    /// An entry for `item` with the given count.
    pub fn new(item: String, count: u32) -> (entry: TopKItem)
        ensures
            entry@ == (EntryModel { item: item@, count }),
    {
        TopKItem { item, count }
    }

    /// The entry's item.
    pub fn item(&self) -> (item: String)
        ensures
            item@ == self@.item,
    {
        self.item.clone()
    }

    /// The entry's aggregate count.
    pub fn count(&self) -> (count: u32)
        ensures
            count == self@.count,
    {
        self.count
    }

    /// A copy of the entry.
    pub fn duplicate(&self) -> (copy: TopKItem)
        ensures
            copy@ == self@,
    {
        TopKItem { item: self.item.clone(), count: self.count }
    }

    /// Whether this entry ranks before `other`.
    pub fn goes_before(&self, other: &TopKItem) -> (first: bool)
        ensures
            first == ranks_before(self@, other@),
    {
        if self.count != other.count {
            self.count > other.count
        } else {
            !bytes_less(other.item.as_str().as_bytes(), self.item.as_str().as_bytes())
        }
    }
}

/// Strict lexicographic order on byte strings.
pub open spec fn lex_lt(a: Seq<u8>, b: Seq<u8>) -> bool
    decreases a.len(),
{
    if b.len() == 0 {
        false
    } else if a.len() == 0 {
        true
    } else if a[0] != b[0] {
        a[0] < b[0]
    } else {
        lex_lt(a.drop_first(), b.drop_first())
    }
}

/// The order of a top-K view: greater count first, ties by item.
pub open spec fn ranks_before(a: EntryModel, b: EntryModel) -> bool {
    a.count > b.count || (a.count == b.count && !lex_lt(
        encode_utf8(b.item),
        encode_utf8(a.item),
    ))
}

/// The models of a vector of entries.
pub open spec fn models(entries: Seq<TopKItem>) -> Seq<EntryModel> {
    entries.map_values(|e: TopKItem| e@)
}

/// Every entry ranks before each entry behind it.
pub open spec fn ranked(s: Seq<EntryModel>) -> bool {
    forall|a: int, b: int| 0 <= a < b < s.len() ==> ranks_before(s[a], s[b])
}

/// Every entry of `s` ranks before `e`.
pub open spec fn all_before(s: Seq<EntryModel>, e: EntryModel) -> bool {
    forall|t: int| 0 <= t < s.len() ==> ranks_before(#[trigger] s[t], e)
}

/// No item occurs in two entries.
pub open spec fn distinct_items(s: Seq<EntryModel>) -> bool {
    forall|a: int, b: int| 0 <= a < b < s.len() ==> s[a].item != s[b].item
}

/// `e` is one of the first `upto` entries of `s`.
pub open spec fn among(s: Seq<EntryModel>, upto: int, e: EntryModel) -> bool {
    exists|i: int| 0 <= i < upto && i < s.len() && s[i] == e
}

/// `best` lists, in rank order, the first `k` of the first `upto`
/// candidates: each candidate is listed, or the list is full and all of it
/// ranks before the candidate.
pub open spec fn selects(
    candidates: Seq<EntryModel>,
    upto: int,
    best: Seq<EntryModel>,
    k: nat,
) -> bool {
    &&& best.len() <= k
    &&& ranked(best)
    &&& distinct_items(best)
    &&& forall|t: int| 0 <= t < best.len() ==> among(candidates, upto, #[trigger] best[t])
    &&& forall|s: int|
        0 <= s < upto && s < candidates.len() ==> among(best, best.len() as int, #[trigger] candidates[s])
            || (best.len() == k && all_before(best, candidates[s]))
}

/// The strict order is asymmetric.
pub proof fn lemma_lex_asymmetric(a: Seq<u8>, b: Seq<u8>)
    requires
        lex_lt(a, b),
    ensures
        !lex_lt(b, a),
    decreases a.len(),
{
    if a.len() > 0 && b.len() > 0 && a[0] == b[0] {
        lemma_lex_asymmetric(a.drop_first(), b.drop_first());
    }
}

/// "Not after" is transitive.
pub proof fn lemma_lex_not_after(a: Seq<u8>, b: Seq<u8>, c: Seq<u8>)
    requires
        !lex_lt(b, a),
        !lex_lt(c, b),
    ensures
        !lex_lt(c, a),
    decreases a.len(),
{
    if a.len() > 0 && b.len() > 0 && c.len() > 0 && a[0] == b[0] && b[0] == c[0] {
        lemma_lex_not_after(a.drop_first(), b.drop_first(), c.drop_first());
    }
}

/// Byte strings of which neither comes before the other are equal.
pub proof fn lemma_lex_equal(a: Seq<u8>, b: Seq<u8>)
    requires
        !lex_lt(a, b),
        !lex_lt(b, a),
    ensures
        a == b,
    decreases a.len(),
{
    if a.len() > 0 && b.len() > 0 {
        lemma_lex_equal(a.drop_first(), b.drop_first());
        assert(a =~= seq![a[0]] + a.drop_first());
        assert(b =~= seq![b[0]] + b.drop_first());
    } else {
        assert(a =~= b);
    }
}

/// Entries that rank before each other are the same entry.
pub proof fn lemma_ranks_antisymmetric(a: EntryModel, b: EntryModel)
    requires
        ranks_before(a, b),
        ranks_before(b, a),
    ensures
        a == b,
{
    lemma_lex_equal(encode_utf8(a.item), encode_utf8(b.item));
    encode_utf8_decode_utf8(a.item);
    encode_utf8_decode_utf8(b.item);
}

/// Of two entries one ranks before the other.
pub proof fn lemma_ranks_total(a: EntryModel, b: EntryModel)
    ensures
        ranks_before(a, b) || ranks_before(b, a),
{
    if lex_lt(encode_utf8(b.item), encode_utf8(a.item)) {
        lemma_lex_asymmetric(encode_utf8(b.item), encode_utf8(a.item));
    }
}

/// The rank order is transitive.
pub proof fn lemma_ranks_transitive(a: EntryModel, b: EntryModel, c: EntryModel)
    requires
        ranks_before(a, b),
        ranks_before(b, c),
    ensures
        ranks_before(a, c),
{
    if a.count == b.count && b.count == c.count {
        lemma_lex_not_after(encode_utf8(a.item), encode_utf8(b.item), encode_utf8(c.item));
    }
}

/// Whether `a` comes strictly before `b` in lexicographic order.
pub fn bytes_less(a: &[u8], b: &[u8]) -> (less: bool)
    ensures
        less == lex_lt(a@, b@),
{
    let mut i: usize = 0;
    assert(a@.skip(0) =~= a@ && b@.skip(0) =~= b@);
    loop
        invariant
            i <= a@.len(),
            i <= b@.len(),
            lex_lt(a@, b@) == lex_lt(a@.skip(i as int), b@.skip(i as int)),
        decreases a@.len() - i,
    {
        if i == b.len() {
            return false;
        }
        if i == a.len() {
            return true;
        }
        assert(a@.skip(i as int)[0] == a@[i as int]);
        assert(b@.skip(i as int)[0] == b@[i as int]);
        if a[i] != b[i] {
            return a[i] < b[i];
        }
        assert(a@.skip(i as int).drop_first() =~= a@.skip(i + 1));
        assert(b@.skip(i as int).drop_first() =~= b@.skip(i + 1));
        i += 1;
    }
}

/// Picks the first `k` of `candidates` in rank order.
pub fn select_top(candidates: &Vec<TopKItem>, k: usize) -> (best: Vec<TopKItem>)
    requires
        distinct_items(models(candidates@)),
    ensures
        selects(models(candidates@), candidates@.len() as int, models(best@), k as nat),
{
    let ghost cm = models(candidates@);
    let mut best: Vec<TopKItem> = Vec::new();
    let mut n: usize = 0;
    while n < candidates.len()
        invariant
            n <= candidates@.len(),
            cm == models(candidates@),
            distinct_items(cm),
            selects(cm, n as int, models(best@), k as nat),
        decreases candidates@.len() - n,
    {
        let ghost bm = models(best@);
        let c = &candidates[n];
        assert(cm[n as int] == c@);
        let mut p: usize = 0;
        let mut scanning = true;
        while scanning && p < best.len()
            invariant
                p <= best@.len(),
                bm == models(best@),
                forall|t: int| 0 <= t < p ==> ranks_before(#[trigger] bm[t], c@),
                !scanning ==> p < best@.len() && ranks_before(c@, bm[p as int]),
            decreases best@.len() - p + (if scanning { 1int } else { 0int }),
        {
            if c.goes_before(&best[p]) {
                scanning = false;
            } else {
                proof {
                    lemma_ranks_total(c@, bm[p as int]);
                }
                p += 1;
            }
        }
        if p < k {
            best.insert(p, c.duplicate());
            let ghost b1 = models(best@);
            proof {
                assert(b1 =~= bm.insert(p as int, c@));
                assert forall|a: int, b: int| 0 <= a < b < b1.len() implies ranks_before(
                    b1[a],
                    b1[b],
                ) by {
                    if a == p && b > p + 1 {
                        lemma_ranks_transitive(c@, bm[p as int], bm[b - 1]);
                    }
                }
                assert forall|a: int, b: int| 0 <= a < b < b1.len() implies b1[a].item
                    != b1[b].item by {
                    if a == p || b == p {
                        let o = if a == p { b } else { a };
                        let other = b1[o];
                        let t = if o < p { o } else { o - 1 };
                        assert(other == bm[t]);
                        assert(among(cm, n as int, bm[t]));
                    }
                }
            }
            if best.len() > k {
                best.pop();
            }
            proof {
                let b2 = models(best@);
                assert(b2 =~= b1.take(b2.len() as int));
                assert(b2[p as int] == c@);
                assert forall|t: int| 0 <= t < b2.len() implies among(
                    cm,
                    n + 1,
                    #[trigger] b2[t],
                ) by {
                    if t == p {
                        assert(cm[n as int] == b2[t]);
                    } else {
                        let u = if t < p { t } else { t - 1 };
                        assert(b2[t] == bm[u]);
                        assert(among(cm, n as int, bm[u]));
                        let w = choose|w: int| 0 <= w < n && w < cm.len() && cm[w] == bm[u];
                        assert(cm[w] == b2[t]);
                    }
                }
                assert forall|s: int| 0 <= s < n + 1 && s < cm.len() implies among(
                    b2,
                    b2.len() as int,
                    #[trigger] cm[s],
                ) || (b2.len() == k && all_before(b2, cm[s])) by {
                    if s == n {
                        assert(b2[p as int] == cm[s]);
                    } else if among(bm, bm.len() as int, cm[s]) {
                        let t = choose|t: int| 0 <= t < bm.len() && bm[t] == cm[s];
                        let u = if t < p { t } else { t + 1 };
                        assert(b1[u] == cm[s]);
                        if u < b2.len() {
                            assert(b2[u] == cm[s]);
                        } else {
                            assert forall|v: int| 0 <= v < b2.len() implies ranks_before(
                                #[trigger] b2[v],
                                cm[s],
                            ) by {
                                assert(ranks_before(b1[v], b1[u]));
                            }
                        }
                    } else {
                        assert(bm.len() == k);
                        assert(all_before(bm, cm[s]));
                        assert forall|v: int| 0 <= v < b2.len() implies ranks_before(
                            #[trigger] b2[v],
                            cm[s],
                        ) by {
                            if v == p {
                                assert(ranks_before(b1[p as int], b1[k as int]));
                                assert(b1[k as int] == bm[k - 1]);
                                lemma_ranks_transitive(c@, bm[k - 1], cm[s]);
                            } else {
                                let u = if v < p { v } else { v - 1 };
                                assert(b2[v] == bm[u]);
                            }
                        }
                    }
                }
                assert(ranked(b2));
                assert(distinct_items(b2));
            }
        } else {
            proof {
                assert forall|s: int| 0 <= s < n + 1 && s < cm.len() implies among(
                    bm,
                    bm.len() as int,
                    #[trigger] cm[s],
                ) || (bm.len() == k && all_before(bm, cm[s])) by {}
                assert forall|t: int| 0 <= t < bm.len() implies among(cm, n + 1, #[trigger] bm[t]) by {
                    assert(among(cm, n as int, bm[t]));
                    let w = choose|w: int| 0 <= w < n && w < cm.len() && cm[w] == bm[t];
                    assert(cm[w] == bm[t]);
                }
            }
        }
        n += 1;
    }
    best
}

} // verus!
