//! Choosing the memories and summaries that make up a context: pools of
//! candidates, each with a character budget, under one total limit. The
//! candidates come from the store; this is the choice among them.
use vstd::prelude::*;

verus! {

/// A raw memory that may join the context: its sequence number and length in
/// characters.
#[derive(Clone, Copy, Debug, PartialEq, Eq, Structural)]
pub struct RawCandidate {
    pub seq: u64,
    pub chars: usize,
}

/// A summary that may join the context: the raw sequences it covers, both
/// inclusive, and its length in characters.
#[derive(Clone, Copy, Debug, PartialEq, Eq, Structural)]
pub struct SummaryCandidate {
    pub lo: u64,
    pub hi: u64,
    pub chars: usize,
}

/// A chosen item: the raw sequences it covers (both inclusive; one for a raw
/// memory), whether it is a summary, and its length.
#[derive(Clone, Copy, Debug, PartialEq, Eq, Structural)]
pub struct ContextItem {
    pub lo: u64,
    pub hi: u64,
    pub summary: bool,
    pub chars: usize,
}

/// Whether an item shares a raw sequence with `[lo, hi]`.
pub open spec fn overlaps(a: ContextItem, lo: u64, hi: u64) -> bool {
    a.lo <= hi && lo <= a.hi
}

/// Whether a raw memory is already chosen.
pub open spec fn raw_taken(items: Seq<ContextItem>, seq: u64) -> bool {
    exists|i: int| 0 <= i < items.len() && !items[i].summary && #[trigger] items[i].lo == seq
}

/// Whether a range shares a raw sequence with a chosen item.
pub open spec fn overlaps_any(items: Seq<ContextItem>, lo: u64, hi: u64) -> bool {
    exists|i: int| 0 <= i < items.len() && #[trigger] overlaps(items[i], lo, hi)
}

/// The characters of the items.
pub open spec fn chars_sum(items: Seq<ContextItem>) -> nat
    decreases items.len(),
{
    if items.len() == 0 {
        0
    } else {
        chars_sum(items.drop_last()) + items.last().chars as nat
    }
}

/// No two items share a raw sequence.
pub open spec fn disjoint(items: Seq<ContextItem>) -> bool {
    forall|i: int, j: int|
        0 <= i < items.len() && 0 <= j < items.len() && i != j ==> !overlaps(
            #[trigger] items[i],
            #[trigger] items[j].lo,
            items[j].hi,
        )
}

/// Every item covers a nonempty range.
pub open spec fn well_bounded(items: Seq<ContextItem>) -> bool {
    forall|i: int| 0 <= i < items.len() ==> (#[trigger] items[i]).lo <= items[i].hi
}

/// Every item is a raw memory.
pub open spec fn all_raw(items: Seq<ContextItem>) -> bool {
    forall|i: int| 0 <= i < items.len() ==> !(#[trigger] items[i]).summary && items[i].lo == items[i].hi
}

/// A pool of raw memories taken in order after `start` (chosen items and the
/// characters they use): a memory joins unless it is already chosen or would
/// exceed the pool's budget or the total. Returns the items, the characters
/// used in all, and those used by this pool.
pub open spec fn raw_pass(
    start: (Seq<ContextItem>, nat),
    cands: Seq<RawCandidate>,
    budget: nat,
    total: nat,
) -> (Seq<ContextItem>, nat, nat)
    decreases cands.len(),
{
    if cands.len() == 0 {
        (start.0, start.1, 0)
    } else {
        let p = raw_pass(start, cands.drop_last(), budget, total);
        let c = cands.last();
        if raw_taken(p.0, c.seq) || p.2 + c.chars > budget || p.1 + c.chars > total {
            p
        } else {
            (p.0.push(ContextItem { lo: c.seq, hi: c.seq, summary: false, chars: c.chars }), p.1 + c.chars as nat, p.2 + c.chars as nat)
        }
    }
}

/// A pool of summaries taken in order: a summary joins unless it shares a raw
/// sequence with a chosen item or would exceed the pool's budget or the total.
pub open spec fn summary_pass(
    start: (Seq<ContextItem>, nat),
    cands: Seq<SummaryCandidate>,
    budget: nat,
    total: nat,
) -> (Seq<ContextItem>, nat, nat)
    decreases cands.len(),
{
    if cands.len() == 0 {
        (start.0, start.1, 0)
    } else {
        let p = summary_pass(start, cands.drop_last(), budget, total);
        let c = cands.last();
        if overlaps_any(p.0, c.lo, c.hi) || p.2 + c.chars > budget || p.1 + c.chars > total {
            p
        } else {
            (p.0.push(ContextItem { lo: c.lo, hi: c.hi, summary: true, chars: c.chars }), p.1 + c.chars as nat, p.2 + c.chars as nat)
        }
    }
}

/// The items a context chooses, in the order chosen. Without search words,
/// 60% of the total goes to recent raw memories and the rest to summaries;
/// with them, 40% to raw memories that match, 30% to recent ones and the
/// rest to matching summaries.
pub open spec fn chosen(
    total: nat,
    matching_raw: Seq<RawCandidate>,
    recent_raw: Seq<RawCandidate>,
    summaries: Seq<SummaryCandidate>,
    searched: bool,
) -> Seq<ContextItem> {
    if !searched {
        let raw_budget = total * 60 / 100;
        let a = raw_pass((Seq::empty(), 0), recent_raw, raw_budget, total);
        summary_pass((a.0, a.1), summaries, (total - raw_budget) as nat, total).0
    } else {
        let matching_budget = total * 40 / 100;
        let recent_budget = total * 30 / 100;
        let a = raw_pass((Seq::empty(), 0), matching_raw, matching_budget, total);
        let b = raw_pass((a.0, a.1), recent_raw, recent_budget, total);
        summary_pass((b.0, b.1), summaries, (total - matching_budget - recent_budget) as nat, total).0
    }
}

/// Takes a pool of raw memories into `selected`, which holds `used`
/// characters; returns the characters used in all.
pub fn select_raw(
    candidates: &[RawCandidate],
    budget: usize,
    total: usize,
    used: usize,
    selected: &mut Vec<ContextItem>,
) -> (r: usize)
    requires
        used <= total,
        used == chars_sum(old(selected)@),
        all_raw(old(selected)@),
        disjoint(old(selected)@),
    ensures
        ({
            let p = raw_pass((old(selected)@, used as nat), candidates@, budget as nat, total as nat);
            &&& final(selected)@ == p.0
            &&& r == p.1
        }),
        r <= total,
        r == chars_sum(final(selected)@),
        all_raw(final(selected)@),
        disjoint(final(selected)@),
{
    let ghost start = (selected@, used as nat);
    let mut total_used = used;
    let mut pool_used: usize = 0;
    let mut k: usize = 0;
    proof {
        assert(candidates@.subrange(0, 0) =~= Seq::<RawCandidate>::empty());
    }
    while k < candidates.len()
        invariant
            k <= candidates@.len(),
            start == (old(selected)@, used as nat),
            raw_pass(start, candidates@.subrange(0, k as int), budget as nat, total as nat) == (
                selected@,
                total_used as nat,
                pool_used as nat,
            ),
            total_used <= total,
            pool_used <= budget,
            total_used == chars_sum(selected@),
            all_raw(selected@),
            disjoint(selected@),
        decreases candidates@.len() - k,
    {
        let c = candidates[k];
        proof {
            assert(candidates@.subrange(0, k + 1).drop_last() =~= candidates@.subrange(0, k as int));
            assert(candidates@.subrange(0, k + 1).last() == c);
        }
        let mut taken = false;
        let mut i: usize = 0;
        while i < selected.len()
            invariant
                i <= selected@.len(),
                all_raw(selected@),
                taken == exists|j: int| 0 <= j < i && !selected@[j].summary && #[trigger] selected@[j].lo == c.seq,
            decreases selected@.len() - i,
        {
            if selected[i].lo == c.seq && !selected[i].summary {
                taken = true;
            }
            i += 1;
        }
        if !taken && c.chars <= budget - pool_used && c.chars <= total - total_used {
            let item = ContextItem { lo: c.seq, hi: c.seq, summary: false, chars: c.chars };
            let ghost before = selected@;
            selected.push(item);
            proof {
                assert(selected@.drop_last() =~= before);
                assert forall|a: int, b: int|
                    0 <= a < selected@.len() && 0 <= b < selected@.len() && a != b implies !overlaps(
                    #[trigger] selected@[a],
                    #[trigger] selected@[b].lo,
                    selected@[b].hi,
                ) by {
                    if a == before.len() as int {
                        assert(!(!before[b].summary && before[b].lo == c.seq));
                    } else if b == before.len() as int {
                        assert(!(!before[a].summary && before[a].lo == c.seq));
                    }
                }
            }
            pool_used = pool_used + c.chars;
            total_used = total_used + c.chars;
        }
        k += 1;
    }
    proof {
        assert(candidates@.subrange(0, candidates@.len() as int) =~= candidates@);
    }
    total_used
}

/// Takes a pool of summaries into `selected`, which holds `used` characters;
/// returns the characters used in all.
pub fn select_summaries(
    candidates: &[SummaryCandidate],
    budget: usize,
    total: usize,
    used: usize,
    selected: &mut Vec<ContextItem>,
) -> (r: usize)
    requires
        used <= total,
        used == chars_sum(old(selected)@),
        well_bounded(old(selected)@),
        disjoint(old(selected)@),
        forall|i: int| 0 <= i < candidates@.len() ==> (#[trigger] candidates@[i]).lo <= candidates@[i].hi,
    ensures
        ({
            let p = summary_pass((old(selected)@, used as nat), candidates@, budget as nat, total as nat);
            &&& final(selected)@ == p.0
            &&& r == p.1
        }),
        r <= total,
        r == chars_sum(final(selected)@),
        well_bounded(final(selected)@),
        disjoint(final(selected)@),
{
    let ghost start = (selected@, used as nat);
    let mut total_used = used;
    let mut pool_used: usize = 0;
    let mut k: usize = 0;
    proof {
        assert(candidates@.subrange(0, 0) =~= Seq::<SummaryCandidate>::empty());
    }
    while k < candidates.len()
        invariant
            k <= candidates@.len(),
            start == (old(selected)@, used as nat),
            forall|i: int| 0 <= i < candidates@.len() ==> (#[trigger] candidates@[i]).lo <= candidates@[i].hi,
            summary_pass(start, candidates@.subrange(0, k as int), budget as nat, total as nat) == (
                selected@,
                total_used as nat,
                pool_used as nat,
            ),
            total_used <= total,
            pool_used <= budget,
            total_used == chars_sum(selected@),
            well_bounded(selected@),
            disjoint(selected@),
        decreases candidates@.len() - k,
    {
        let c = candidates[k];
        proof {
            assert(candidates@.subrange(0, k + 1).drop_last() =~= candidates@.subrange(0, k as int));
            assert(candidates@.subrange(0, k + 1).last() == c);
            assert(c.lo <= c.hi);
        }
        let mut overlapping = false;
        let mut i: usize = 0;
        while i < selected.len()
            invariant
                i <= selected@.len(),
                overlapping == exists|j: int| 0 <= j < i && #[trigger] overlaps(selected@[j], c.lo, c.hi),
            decreases selected@.len() - i,
        {
            if selected[i].lo <= c.hi && c.lo <= selected[i].hi {
                overlapping = true;
            }
            assert(overlaps(selected@[i as int], c.lo, c.hi) == (selected@[i as int].lo <= c.hi && c.lo
                <= selected@[i as int].hi));
            i += 1;
        }
        if !overlapping && c.chars <= budget - pool_used && c.chars <= total - total_used {
            let item = ContextItem { lo: c.lo, hi: c.hi, summary: true, chars: c.chars };
            let ghost before = selected@;
            selected.push(item);
            proof {
                assert(selected@.drop_last() =~= before);
                assert forall|a: int, b: int|
                    0 <= a < selected@.len() && 0 <= b < selected@.len() && a != b implies !overlaps(
                    #[trigger] selected@[a],
                    #[trigger] selected@[b].lo,
                    selected@[b].hi,
                ) by {
                    if a == before.len() as int {
                        assert(!overlaps(before[b], c.lo, c.hi));
                    } else if b == before.len() as int {
                        assert(!overlaps(before[a], c.lo, c.hi));
                    }
                }
            }
            pool_used = pool_used + c.chars;
            total_used = total_used + c.chars;
        }
        k += 1;
    }
    proof {
        assert(candidates@.subrange(0, candidates@.len() as int) =~= candidates@);
    }
    total_used
}

proof fn lemma_sum_insert(s: Seq<ContextItem>, pos: int, e: ContextItem)
    requires
        0 <= pos <= s.len(),
    ensures
        chars_sum(s.insert(pos, e)) == chars_sum(s) + e.chars,
    decreases s.len(),
{
    if pos == s.len() {
        assert(s.insert(pos, e) =~= s.push(e));
        assert(s.push(e).drop_last() =~= s);
    } else {
        lemma_sum_insert(s.drop_last(), pos, e);
        assert(s.insert(pos, e).drop_last() =~= s.drop_last().insert(pos, e));
        assert(s.insert(pos, e).last() == s.last());
    }
}

proof fn lemma_insert_contains(s: Seq<ContextItem>, pos: int, e: ContextItem)
    requires
        0 <= pos <= s.len(),
    ensures
        forall|x: ContextItem| s.insert(pos, e).contains(x) <==> (s.contains(x) || x == e),
{
    s.insert_ensures(pos, e);
    let t = s.insert(pos, e);
    assert forall|x: ContextItem| t.contains(x) <==> (s.contains(x) || x == e) by {
        if t.contains(x) {
            let i = choose|i: int| 0 <= i < t.len() && t[i] == x;
            if i < pos {
                assert(s[i] == x);
            } else if i > pos {
                assert(s[i - 1] == x);
            }
        }
        if s.contains(x) {
            let j = choose|j: int| 0 <= j < s.len() && s[j] == x;
            if j < pos {
                assert(t[j] == x);
            } else {
                assert(t[j + 1] == x);
            }
        }
        if x == e {
            assert(t[pos] == x);
        }
    }
}

/// Items in increasing order of their first raw sequence.
pub open spec fn ordered(items: Seq<ContextItem>) -> bool {
    forall|i: int, j: int| 0 <= i < j < items.len() ==> (#[trigger] items[i]).lo < (#[trigger] items[j]).lo
}

/// The items ordered by their first raw sequence (items that share no raw
/// sequence never share a first one).
fn ordered_by_start(items: &Vec<ContextItem>) -> (r: Vec<ContextItem>)
    requires
        disjoint(items@),
        well_bounded(items@),
    ensures
        r@.len() == items@.len(),
        forall|x: ContextItem| r@.contains(x) <==> items@.contains(x),
        ordered(r@),
        chars_sum(r@) == chars_sum(items@),
{
    let mut out: Vec<ContextItem> = Vec::new();
    let mut k: usize = 0;
    proof {
        assert(items@.subrange(0, 0) =~= Seq::<ContextItem>::empty());
    }
    while k < items.len()
        invariant
            k <= items@.len(),
            disjoint(items@),
            well_bounded(items@),
            out@.len() == k,
            forall|x: ContextItem| out@.contains(x) <==> items@.subrange(0, k as int).contains(x),
            ordered(out@),
            chars_sum(out@) == chars_sum(items@.subrange(0, k as int)),
        decreases items@.len() - k,
    {
        let e = items[k];
        let mut p: usize = 0;
        while p < out.len() && out[p].lo < e.lo
            invariant
                p <= out@.len(),
                forall|i: int| 0 <= i < p ==> (#[trigger] out@[i]).lo < e.lo,
            decreases out@.len() - p,
        {
            p += 1;
        }
        proof {
            assert forall|i: int| 0 <= i < out@.len() implies (#[trigger] out@[i]).lo != e.lo by {
                assert(out@.contains(out@[i]));
                assert(items@.subrange(0, k as int).contains(out@[i]));
                let j = choose|j: int| 0 <= j < k && items@.subrange(0, k as int)[j] == out@[i];
                assert(items@[j] == out@[i]);
                assert(j != k as int);
                assert(!overlaps(items@[j], items@[k as int].lo, items@[k as int].hi));
            }
            if p < out@.len() {
                assert(out@[p as int].lo > e.lo);
            }
        }
        let ghost before = out@;
        out.insert(p, e);
        proof {
            before.insert_ensures(p as int, e);
            lemma_insert_contains(before, p as int, e);
            lemma_sum_insert(before, p as int, e);
            let sub = items@.subrange(0, k + 1);
            assert(sub.drop_last() =~= items@.subrange(0, k as int));
            assert(sub.last() == e);
            assert(sub =~= items@.subrange(0, k as int).push(e));
            assert forall|x: ContextItem| sub.contains(x) <==> (items@.subrange(0, k as int).contains(x) || x == e) by {
                if sub.contains(x) {
                    let i = choose|i: int| 0 <= i < sub.len() && sub[i] == x;
                    if i < k {
                        assert(items@.subrange(0, k as int)[i] == x);
                    }
                }
                if items@.subrange(0, k as int).contains(x) {
                    let i = choose|i: int| 0 <= i < k && items@.subrange(0, k as int)[i] == x;
                    assert(sub[i] == x);
                }
                if x == e {
                    assert(sub[k as int] == x);
                }
            }
            let subk = items@.subrange(0, k as int);
            assert(out@ == before.insert(p as int, e));
            assert forall|x: ContextItem| out@.contains(x) <==> sub.contains(x) by {
                if out@.contains(x) {
                    assert(before.insert(p as int, e).contains(x));
                    assert(before.contains(x) || x == e);
                    if before.contains(x) {
                        assert(subk.contains(x));
                    }
                    assert(sub.contains(x));
                }
                if sub.contains(x) {
                    assert(subk.contains(x) || x == e);
                    if subk.contains(x) {
                        assert(before.contains(x));
                    }
                    assert(before.insert(p as int, e).contains(x));
                }
            }
            assert forall|i: int, j: int| 0 <= i < j < out@.len() implies (#[trigger] out@[i]).lo < (#[trigger] out@[j]).lo by {
                if j < p {
                } else if j == p {
                } else if i < p {
                    assert(out@[j] == before[j - 1]);
                } else if i == p {
                    assert(out@[j] == before[j - 1]);
                    assert(before[p as int].lo > e.lo || j - 1 == p as int);
                    if j - 1 > p as int {
                        assert(before[p as int].lo < before[j - 1].lo);
                    }
                } else {
                    assert(out@[i] == before[i - 1]);
                    assert(out@[j] == before[j - 1]);
                }
            }
        }
        k += 1;
    }
    proof {
        assert(items@.subrange(0, items@.len() as int) =~= items@);
    }
    out
}

/// `part` percent of `total`, rounded down.
fn percent_of(total: usize, part: usize) -> (r: usize)
    requires
        part <= 100,
    ensures
        r == total * part / 100,
{
    let t = total as u128;
    let q = part as u128;
    assert(t * q <= 0xffff_ffff_ffff_ffff * 100) by (nonlinear_arith)
        requires
            t <= 0xffff_ffff_ffff_ffff,
            q <= 100,
    ;
    let wide = t * q / 100;
    proof {
        assert(total * part <= total * 100) by (nonlinear_arith)
            requires
                part <= 100,
        ;
        assert(total * part / 100 <= total) by (nonlinear_arith)
            requires
                total * part <= total * 100,
        ;
    }
    wide as usize
}

/// Chooses the items of a context within `total` characters, from raw
/// memories that match the search words (when `searched`), recent raw
/// memories, and summaries, then orders them by the raw sequences they cover.
pub fn select_context(
    total: usize,
    matching_raw: &[RawCandidate],
    recent_raw: &[RawCandidate],
    summaries: &[SummaryCandidate],
    searched: bool,
) -> (r: Vec<ContextItem>)
    requires
        forall|i: int| 0 <= i < summaries@.len() ==> (#[trigger] summaries@[i]).lo <= summaries@[i].hi,
    ensures
        r@ == context_of(total as nat, matching_raw@, recent_raw@, summaries@, searched),
        r@.len() == chosen(total as nat, matching_raw@, recent_raw@, summaries@, searched).len(),
        forall|x: ContextItem| #[trigger] r@.contains(x) <==> chosen(
            total as nat,
            matching_raw@,
            recent_raw@,
            summaries@,
            searched,
        ).contains(x),
        ordered(r@),
        disjoint(r@),
        chars_sum(r@) <= total,
{
    let mut selected: Vec<ContextItem> = Vec::new();
    let used;
    if !searched {
        let raw_budget = percent_of(total, 60);
        let u = select_raw(recent_raw, raw_budget, total, 0, &mut selected);
        used = select_summaries(summaries, total - raw_budget, total, u, &mut selected);
    } else {
        let matching_budget = percent_of(total, 40);
        let recent_budget = percent_of(total, 30);
        let u = select_raw(matching_raw, matching_budget, total, 0, &mut selected);
        let u = select_raw(recent_raw, recent_budget, total, u, &mut selected);
        used = select_summaries(summaries, total - matching_budget - recent_budget, total, u, &mut selected);
    }
    let out = ordered_by_start(&selected);
    proof {
        assert forall|i: int, j: int|
            0 <= i < out@.len() && 0 <= j < out@.len() && i != j implies !overlaps(
            #[trigger] out@[i],
            #[trigger] out@[j].lo,
            out@[j].hi,
        ) by {
            assert(selected@.contains(out@[i]));
            assert(selected@.contains(out@[j]));
            let a = choose|a: int| 0 <= a < selected@.len() && selected@[a] == out@[i];
            let b = choose|b: int| 0 <= b < selected@.len() && selected@[b] == out@[j];
            if i < j {
                assert(out@[i].lo < out@[j].lo);
            } else {
                assert(out@[j].lo < out@[i].lo);
            }
            assert(a != b);
        }
        let c = chosen(total as nat, matching_raw@, recent_raw@, summaries@, searched);
        assert(holds_in_order(out@, c));
        let o = context_of(total as nat, matching_raw@, recent_raw@, summaries@, searched);
        assert(holds_in_order(o, c));
        law_context_fixed_by_its_items(out@, o);
    }
    out
}

/// `o` holds the items of `c`, each once, in increasing order of their first
/// raw sequence.
pub open spec fn holds_in_order(o: Seq<ContextItem>, c: Seq<ContextItem>) -> bool {
    &&& ordered(o)
    &&& o.len() == c.len()
    &&& forall|x: ContextItem| #[trigger] o.contains(x) <==> c.contains(x)
}

/// The context chosen from the candidates, in increasing order of the first
/// raw sequence of each item.
pub open spec fn context_of(
    total: nat,
    matching_raw: Seq<RawCandidate>,
    recent_raw: Seq<RawCandidate>,
    summaries: Seq<SummaryCandidate>,
    searched: bool,
) -> Seq<ContextItem> {
    let c = chosen(total, matching_raw, recent_raw, summaries, searched);
    choose|o: Seq<ContextItem>| holds_in_order(o, c)
}

proof fn lemma_ordered_prefix_equal(a: Seq<ContextItem>, b: Seq<ContextItem>, i: int)
    requires
        ordered(a),
        ordered(b),
        a.len() == b.len(),
        forall|x: ContextItem| #[trigger] a.contains(x) <==> b.contains(x),
        0 <= i <= a.len(),
    ensures
        forall|k: int| 0 <= k < i ==> a[k] == b[k],
    decreases i,
{
    if i > 0 {
        let n = i - 1;
        lemma_ordered_prefix_equal(a, b, n);
        assert(a[n] == a[n] && a.contains(a[n]));
        assert(b.contains(a[n]));
        let j = choose|j: int| 0 <= j < b.len() && b[j] == a[n];
        assert(b.contains(b[n]));
        assert(a.contains(b[n]));
        let k = choose|k: int| 0 <= k < a.len() && a[k] == b[n];
        if j < n {
            assert(a[j] == b[j]);
            assert(a[j].lo < a[n].lo);
        }
        if k < n {
            assert(a[k] == b[k]);
            assert(b[k].lo < b[n].lo);
        }
        if j > n {
            assert(b[n].lo < b[j].lo);
            if k > n {
                assert(a[n].lo < a[k].lo);
            }
        }
    }
}

/// A context is fixed by the items it holds: two lists of the same items,
/// each in increasing order of first raw sequence, are the same list. So two
/// selections from the same candidates give the same context.
pub proof fn law_context_fixed_by_its_items(a: Seq<ContextItem>, b: Seq<ContextItem>)
    requires
        ordered(a),
        ordered(b),
        a.len() == b.len(),
        forall|x: ContextItem| #[trigger] a.contains(x) <==> b.contains(x),
    ensures
        a == b,
{
    lemma_ordered_prefix_equal(a, b, a.len() as int);
    assert(a =~= b);
}

} // verus!
