//! Aligned binary ranges over the raw memory history, and the "wake" cover
//! that describes the whole history with a bounded number of entries.
use vstd::prelude::*;

use crate::error::{NtError, Result};
use crate::text::{
    all_digits, append_str, chars_all_digits, chars_of, decimal, digits_value, find_char,
    first_index_from, lemma_first_index_from, owned, parse_digits, push_char, slice_chars,
    u64_to_string,
};

verus! {

pub const I64_MAX: u64 = 9223372036854775807;

/// How many nodes a wake cover may hold.
pub const WAKE_ENTRIES: usize = 128;

// ---------------------------------------------------------------------------
// Powers of two
// ---------------------------------------------------------------------------

pub open spec fn is_pow2(n: nat) -> bool
    decreases n,
{
    if n == 0 {
        false
    } else if n == 1 {
        true
    } else {
        n % 2 == 0 && is_pow2(n / 2)
    }
}

pub proof fn lemma_pow2_half(n: nat)
    requires
        is_pow2(n),
        n >= 2,
    ensures
        is_pow2(n / 2),
        n % 2 == 0,
        n / 2 >= 1,
{
}

pub proof fn lemma_pow2_double(n: nat)
    requires
        is_pow2(n),
    ensures
        is_pow2(2 * n),
{
    assert((2 * n) / 2 == n);
}

/// Of two powers of two, a smaller one is at most half the larger one.
pub proof fn lemma_pow2_smaller_is_at_most_half(a: nat, b: nat)
    requires
        is_pow2(a),
        is_pow2(b),
        b < a,
    ensures
        b <= a / 2,
    decreases a,
{
    if b >= 2 {
        lemma_pow2_smaller_is_at_most_half(a / 2, b / 2);
    }
}

/// A power of two at least 2 divides any multiple of twice its half.
proof fn lemma_mod_halving(lo: nat, b: nat)
    requires
        b >= 1,
        lo % (2 * b) == 0,
    ensures
        lo % b == 0,
        (lo + b) % b == 0,
{
    let q = lo as int / (2 * b as int);
    vstd::arithmetic::div_mod::lemma_fundamental_div_mod(lo as int, 2 * b as int);
    assert(lo == b * (2 * q)) by (nonlinear_arith)
        requires
            lo == (2 * b) * q + 0,
    ;
    vstd::arithmetic::div_mod::lemma_mod_multiples_vanish(2 * q, 0, b as int);
    vstd::arithmetic::div_mod::lemma_mod_multiples_vanish(2 * q + 1, 0, b as int);
    assert(lo + b == b * (2 * q + 1)) by (nonlinear_arith)
        requires
            lo == b * (2 * q),
    ;
}

fn is_power_of_two(n: u64) -> (r: bool)
    ensures
        r == is_pow2(n as nat),
{
    let mut m: u64 = n;
    while m >= 2 && m % 2 == 0
        invariant
            is_pow2(n as nat) == is_pow2(m as nat),
        decreases m,
    {
        m = m / 2;
    }
    m == 1
}

/// The only multiple of `n` in `(x - n, x]` is `x - x % n`.
proof fn lemma_aligned_floor(x: nat, n: nat, p: nat)
    requires
        n > 0,
        p % n == 0,
        p <= x < p + n,
    ensures
        p == x - x % n,
{
    let q = x as int / n as int;
    let t = p as int / n as int;
    let r = x as int % n as int;
    vstd::arithmetic::div_mod::lemma_fundamental_div_mod(x as int, n as int);
    vstd::arithmetic::div_mod::lemma_fundamental_div_mod(p as int, n as int);
    assert(q == t) by (nonlinear_arith)
        requires
            x == n * q + r,
            0 <= r < n,
            p == n * t + 0,
            p <= x < p + n,
            n > 0,
    ;
}

/// For a multiple `x` of `s`, the aligned block of size `2s` holding `x`
/// starts at `x - x % 2s`, and `[x, x + s)` lies within it.
proof fn lemma_aligned_parent(x: nat, s: nat)
    requires
        s > 0,
        x % s == 0,
    ensures
        x % (2 * s) <= x,
        x % (2 * s) <= s,
        ((x - x % (2 * s)) as nat) % (2 * s) == 0,
{
    let n = 2 * s;
    let q = x as int / n as int;
    let r = x as int % n as int;
    vstd::arithmetic::div_mod::lemma_fundamental_div_mod(x as int, n as int);
    vstd::arithmetic::div_mod::lemma_mod_mod(x as int, s as int, 2);
    assert(r % (s as int) == 0);
    let k = r / (s as int);
    vstd::arithmetic::div_mod::lemma_fundamental_div_mod(r, s as int);
    assert(r <= s) by (nonlinear_arith)
        requires
            r == s * k + 0,
            0 <= r < 2 * s,
            s > 0,
    ;
    assert(x - r == n * q) by (nonlinear_arith)
        requires
            x == n * q + r,
    ;
    vstd::arithmetic::div_mod::lemma_mod_multiples_vanish(q, 0, n as int);
    vstd::arithmetic::div_mod::lemma_mod_decreases(x, n);
}

/// The number of one bits of `n`.
pub open spec fn popcount(n: nat) -> nat
    decreases n,
{
    if n == 0 {
        0
    } else {
        n % 2 + popcount(n / 2)
    }
}

proof fn lemma_popcount_top(n: nat, b: nat)
    requires
        is_pow2(b),
        b <= n < 2 * b,
    ensures
        popcount(n) == 1 + popcount((n - b) as nat),
    decreases b,
{
    if b >= 2 {
        lemma_popcount_top(n / 2, b / 2);
        assert(((n - b) as nat) / 2 == (n / 2 - b / 2) as nat);
        assert(((n - b) as nat) % 2 == n % 2);
    } else {
        assert(n == 1);
    }
}

// ---------------------------------------------------------------------------
// Ranges
// ---------------------------------------------------------------------------

/// An aligned binary range `[lo, hi)` of raw memory sequences: its size is a
/// power of two of at least 2, `lo` is a multiple of the size, and `hi` fits
/// an SQLite integer.
pub open spec fn valid_range(lo: nat, hi: nat) -> bool {
    &&& lo < hi
    &&& hi - lo >= 2
    &&& is_pow2((hi - lo) as nat)
    &&& lo % ((hi - lo) as nat) == 0
    &&& hi <= I64_MAX
}

#[derive(Clone, Copy, Debug, PartialEq, Eq, Hash, PartialOrd, Ord)]
pub struct MemoryRange {
    lo: u64,
    hi: u64,
}

impl MemoryRange {
    pub closed spec fn spec_lo(self) -> nat {
        self.lo as nat
    }

    pub closed spec fn spec_hi(self) -> nat {
        self.hi as nat
    }

    pub open spec fn valid(self) -> bool {
        valid_range(self.spec_lo(), self.spec_hi())
    }

    pub open spec fn spec_size(self) -> nat {
        (self.spec_hi() - self.spec_lo()) as nat
    }

    /// The range `[lo, hi)`, or an error when it is not an aligned binary range.
    pub fn new(lo: u64, hi: u64) -> (r: Result<Self>)
        ensures
            match r {
                Ok(range) => valid_range(lo as nat, hi as nat) && range.spec_lo() == lo
                    && range.spec_hi() == hi,
                Err(e) => !valid_range(lo as nat, hi as nat) && e is InvalidValue && e->field
                    == "memory range" && e->value@ == (if hi < lo {
                    decimal(lo as nat) + seq!['-'] + decimal(hi as nat)
                } else {
                    decimal(lo as nat) + seq!['-'] + decimal(
                        (if hi == 0 {
                            0
                        } else {
                            hi - 1
                        }) as nat,
                    )
                }),
            },
    {
        let size = match hi.checked_sub(lo) {
            Some(size) => size,
            None => {
                return Err(invalid_range_text(lo, hi));
            },
        };
        if size < 2 || !is_power_of_two(size) || lo % size != 0 || hi > I64_MAX {
            let last = hi.saturating_sub(1);
            return Err(invalid_range_text(lo, last));
        }
        Ok(MemoryRange { lo, hi })
    }

    /// Builds a range already known to be valid.
    pub fn from_parts(lo: u64, hi: u64) -> (r: Self)
        requires
            valid_range(lo as nat, hi as nat),
        ensures
            r.spec_lo() == lo,
            r.spec_hi() == hi,
            r.valid(),
    {
        MemoryRange { lo, hi }
    }

    pub fn lo(self) -> (r: u64)
        ensures
            r == self.spec_lo(),
    {
        self.lo
    }

    pub fn hi(self) -> (r: u64)
        ensures
            r == self.spec_hi(),
    {
        self.hi
    }

    pub fn size(self) -> (r: u64)
        requires
            self.valid(),
        ensures
            r == self.spec_size(),
    {
        self.hi - self.lo
    }

    /// The two halves of a range: raw memories for a range of two, else summaries.
    pub fn children(self) -> (r: (WakeNode, WakeNode))
        requires
            self.valid(),
        ensures
            split_of(self, r.0, r.1),
    {
        let size = self.hi - self.lo;
        let mid = self.lo + size / 2;
        proof {
            lemma_pow2_half(size as nat);
            lemma_mod_halving(self.lo as nat, (size / 2) as nat);
        }
        if size == 2 {
            (WakeNode::Raw(self.lo), WakeNode::Raw(mid))
        } else {
            proof {
                assert(is_pow2((size / 2) as nat));
                assert((size / 2) as nat >= 2) by {
                    assert(size >= 4) by {
                        assert(size != 3);
                    }
                }
            }
            (
                WakeNode::Summary(Self::from_parts(self.lo, mid)),
                WakeNode::Summary(Self::from_parts(mid, self.hi)),
            )
        }
    }

    /// The aligned range of twice the size that holds this one, if it is valid.
    pub fn parent(self) -> (r: Option<Self>)
        requires
            self.valid(),
        ensures
            match r {
                Some(p) => p.valid() && p.spec_size() == 2 * self.spec_size() && p.spec_lo()
                    <= self.spec_lo() && self.spec_hi() <= p.spec_hi(),
                None => forall|p: MemoryRange|
                    p.valid() && #[trigger] p.spec_size() == 2 * self.spec_size() ==> !(
                    p.spec_lo() <= self.spec_lo() && self.spec_hi() <= p.spec_hi()),
            },
    {
        let size = match (self.hi - self.lo).checked_mul(2) {
            Some(size) => size,
            None => {
                proof {
                    assert forall|p: MemoryRange|
                        p.valid() && #[trigger] p.spec_size() == 2 * self.spec_size() implies !(
                        p.spec_lo() <= self.spec_lo() && self.spec_hi() <= p.spec_hi()) by {}
                }
                return None;
            },
        };
        proof {
            lemma_aligned_parent(self.lo as nat, self.spec_size());
        }
        let lo = self.lo - self.lo % size;
        let hi = match lo.checked_add(size) {
            Some(hi) => hi,
            None => {
                return None;
            },
        };
        proof {
            lemma_pow2_double(self.spec_size());
        }
        match Self::new(lo, hi) {
            Ok(p) => Some(p),
            Err(_) => {
                proof {
                    assert(hi > I64_MAX);
                    assert forall|p: MemoryRange|
                        p.valid() && #[trigger] p.spec_size() == 2 * self.spec_size() implies !(
                        p.spec_lo() <= self.spec_lo() && self.spec_hi() <= p.spec_hi()) by {
                        if p.spec_lo() <= self.spec_lo() && self.spec_hi() <= p.spec_hi() {
                            lemma_aligned_floor(self.lo as nat, size as nat, p.spec_lo());
                        }
                    }
                }
                None
            },
        }
    }

    /// Whether `other` lies within this range.
    pub fn contains(self, other: Self) -> (r: bool)
        ensures
            r == (self.spec_lo() <= other.spec_lo() && other.spec_hi() <= self.spec_hi()),
    {
        self.lo <= other.lo && self.hi >= other.hi
    }

    /// The inclusive text form `lo-(hi-1)`.
    pub fn to_string(self) -> (out: String)
        requires
            self.valid(),
        ensures
            out@ == range_text(self),
    {
        let mut out = u64_to_string(self.lo);
        push_char(&mut out, '-');
        let last = u64_to_string(self.hi - 1);
        append_str(&mut out, last.as_str());
        out
    }

    /// Parses the inclusive text form `lo-last` in canonical decimal.
    pub fn parse(value: &str) -> (r: Result<Self>)
        ensures
            r is Ok <==> parses_as_range(value@),
            r matches Ok(range) ==> range.valid() && range_text(range) == value@,
            r matches Err(e) ==> e is InvalidValue && e->field == "memory range" && e->value@
                == value@,
    {
        let chars = chars_of(value);
        let dash = match find_char(chars.as_slice(), '-') {
            Some(dash) => dash,
            None => {
                proof {
                    lemma_first_index_from(value@, '-', 0);
                }
                return Err(invalid_range_value(value));
            },
        };
        proof {
            lemma_first_index_from(value@, '-', 0);
        }
        assert(dash < chars.len());
        let lo_text = slice_chars(chars.as_slice(), 0, dash);
        let hi_text = slice_chars(chars.as_slice(), dash + 1, chars.len());
        if !canonical_integer(lo_text.as_slice()) || !canonical_integer(hi_text.as_slice()) {
            return Err(invalid_range_value(value));
        }
        let lo = match parse_digits(lo_text.as_slice(), u64::MAX) {
            Some(lo) => lo,
            None => {
                return Err(invalid_range_value(value));
            },
        };
        let last = match parse_digits(hi_text.as_slice(), u64::MAX) {
            Some(last) => last,
            None => {
                return Err(invalid_range_value(value));
            },
        };
        let hi = match last.checked_add(1) {
            Some(hi) => hi,
            None => {
                return Err(invalid_range_value(value));
            },
        };
        match Self::new(lo, hi) {
            Ok(range) => {
                proof {
                    lemma_canonical_decimal(lo_text@);
                    lemma_canonical_decimal(hi_text@);
                    assert(value@ == lo_text@ + seq!['-'] + hi_text@);
                }
                Ok(range)
            },
            Err(_) => Err(invalid_range_value(value)),
        }
    }
}

/// The text form of a range: `lo-(hi-1)`.
pub open spec fn range_text(r: MemoryRange) -> Seq<char> {
    decimal(r.spec_lo()) + seq!['-'] + decimal((r.spec_hi() - 1) as nat)
}

/// Decimal digits without a superfluous leading zero.
pub open spec fn is_canonical_integer(s: Seq<char>) -> bool {
    s.len() > 0 && all_digits(s) && (s == seq!['0'] || s[0] != '0')
}

/// Whether a text parses as a range: `lo-last` with canonical numerals whose
/// values make `[lo, last + 1)` an aligned binary range.
pub open spec fn parses_as_range(s: Seq<char>) -> bool {
    match first_index_from(s, '-', 0) {
        None => false,
        Some(dash) => {
            let lo = s.subrange(0, dash);
            let last = s.subrange(dash + 1, s.len() as int);
            is_canonical_integer(lo) && is_canonical_integer(last) && valid_range(
                digits_value(lo),
                digits_value(last) + 1,
            )
        },
    }
}

proof fn lemma_canonical_decimal(s: Seq<char>)
    requires
        is_canonical_integer(s),
    ensures
        decimal(digits_value(s)) == s,
    decreases s.len(),
{
    crate::text::lemma_decimal_of_digits(s);
}

fn canonical_integer(value: &[char]) -> (r: bool)
    ensures
        r == is_canonical_integer(value@),
{
    if value.len() == 0 || !chars_all_digits(value) {
        return false;
    }
    if value.len() == 1 {
        if value[0] == '0' {
            assert(value@ =~= seq!['0']);
        }
        return true;
    }
    value[0] != '0'
}

fn invalid_range_value(value: &str) -> (e: NtError)
    ensures
        e is InvalidValue && e->field == "memory range" && e->value@ == value@,
{
    NtError::InvalidValue { field: "memory range", value: owned(value) }
}

fn invalid_range_text(lo: u64, last: u64) -> (e: NtError)
    ensures
        e is InvalidValue && e->field == "memory range" && e->value@ == decimal(lo as nat)
            + seq!['-'] + decimal(last as nat),
{
    let mut value = u64_to_string(lo);
    push_char(&mut value, '-');
    let tail = u64_to_string(last);
    append_str(&mut value, tail.as_str());
    NtError::InvalidValue { field: "memory range", value }
}

// ---------------------------------------------------------------------------
// Wake nodes and covers
// ---------------------------------------------------------------------------

#[derive(Clone, Copy, Debug, PartialEq, Eq)]
pub enum WakeNode {
    Raw(u64),
    Summary(MemoryRange),
}

pub open spec fn node_lo(n: WakeNode) -> nat {
    match n {
        WakeNode::Raw(seq) => seq as nat,
        WakeNode::Summary(range) => range.spec_lo(),
    }
}

pub open spec fn node_hi(n: WakeNode) -> nat {
    match n {
        WakeNode::Raw(seq) => (seq + 1) as nat,
        WakeNode::Summary(range) => range.spec_hi(),
    }
}

pub open spec fn node_size(n: WakeNode) -> nat {
    (node_hi(n) - node_lo(n)) as nat
}

pub open spec fn node_valid(n: WakeNode) -> bool {
    match n {
        WakeNode::Raw(seq) => seq < I64_MAX,
        WakeNode::Summary(range) => range.valid(),
    }
}

/// `left` and `right` are the two halves of `range`.
pub open spec fn split_of(range: MemoryRange, left: WakeNode, right: WakeNode) -> bool {
    &&& node_valid(left) && node_valid(right)
    &&& node_lo(left) == range.spec_lo()
    &&& node_hi(left) == node_lo(right)
    &&& node_hi(right) == range.spec_hi()
    &&& node_size(left) == node_size(right)
    &&& node_size(left) * 2 == range.spec_size()
    &&& (range.spec_size() == 2 <==> left is Raw)
    &&& (range.spec_size() == 2 <==> right is Raw)
}

impl WakeNode {
    pub fn lo(self) -> (r: u64)
        ensures
            r == node_lo(self),
    {
        match self {
            WakeNode::Raw(seq) => seq,
            WakeNode::Summary(range) => range.lo(),
        }
    }

    pub fn hi(self) -> (r: u64)
        requires
            node_valid(self),
        ensures
            r == node_hi(self),
    {
        match self {
            WakeNode::Raw(seq) => seq + 1,
            WakeNode::Summary(range) => range.hi(),
        }
    }

    pub fn size(self) -> (r: u64)
        requires
            node_valid(self),
        ensures
            r == node_size(self),
    {
        match self {
            WakeNode::Raw(_) => 1,
            WakeNode::Summary(range) => range.size(),
        }
    }
}

/// `c` partitions `[0, count)` into consecutive valid nodes, each a power of
/// two in size, with sizes that never grow from older to newer nodes.
pub open spec fn is_cover(c: Seq<WakeNode>, count: nat) -> bool {
    &&& (c.len() == 0 <==> count == 0)
    &&& c.len() > 0 ==> node_lo(c[0]) == 0 && node_hi(c.last()) == count
    &&& forall|i: int, j: int|
        #![trigger c[i], c[j]]
        0 <= i && j == i + 1 && j < c.len() ==> node_hi(c[i]) == node_lo(c[j])
    &&& forall|i: int| 0 <= i < c.len() ==> node_valid(#[trigger] c[i])
    &&& forall|i: int, j: int|
        #![trigger c[i], c[j]]
        0 <= i < j < c.len() ==> node_size(c[j]) <= node_size(c[i])
}

pub proof fn lemma_node_size(n: WakeNode)
    requires
        node_valid(n),
    ensures
        is_pow2(node_size(n)),
        node_size(n) >= 1,
        n is Raw <==> node_size(n) == 1,
{
}

/// In a cover, every node ends at least one past its index, and at least two
/// past it once some earlier node is a summary.
proof fn lemma_cover_hi(c: Seq<WakeNode>, count: nat, k: int)
    requires
        is_cover(c, count),
        0 <= k < c.len(),
    ensures
        node_hi(c[k]) >= k + 1,
        (exists|m: int| 0 <= m <= k && #[trigger] c[m] is Summary) ==> node_hi(c[k]) >= k + 2,
    decreases k,
{
    lemma_node_size(c[k]);
    if k > 0 {
        lemma_cover_hi(c, count, k - 1);
        assert(node_hi(c[k - 1]) == node_lo(c[k]));
        if exists|m: int| 0 <= m <= k && #[trigger] c[m] is Summary {
            let m = choose|m: int| 0 <= m <= k && #[trigger] c[m] is Summary;
            if m < k {
                assert(exists|m: int| 0 <= m <= k - 1 && #[trigger] c[m] is Summary);
            }
        }
    } else {
        if exists|m: int| 0 <= m <= k && #[trigger] c[m] is Summary {
            assert(c[0] is Summary);
        }
    }
}

/// A cover of `count` has at most `count` nodes, and exactly `count` only if
/// all of them are raw memories.
pub proof fn lemma_cover_len(c: Seq<WakeNode>, count: nat)
    requires
        is_cover(c, count),
    ensures
        c.len() <= count,
        c.len() >= count ==> forall|i: int| 0 <= i < c.len() ==> #[trigger] c[i] is Raw,
{
    if c.len() > 0 {
        lemma_cover_hi(c, count, c.len() - 1);
        if c.len() >= count {
            assert forall|i: int| 0 <= i < c.len() implies #[trigger] c[i] is Raw by {
                if c[i] is Summary {
                    assert(exists|m: int| 0 <= m <= c.len() - 1 && #[trigger] c[m] is Summary);
                }
            }
        }
    }
}

/// In a cover made of raw memories only, node `k` ends at `k + 1`.
proof fn lemma_raw_cover_hi(c: Seq<WakeNode>, count: nat, k: int)
    requires
        is_cover(c, count),
        0 <= k < c.len(),
        forall|i: int| 0 <= i < c.len() ==> #[trigger] c[i] is Raw,
    ensures
        node_hi(c[k]) == k + 1,
    decreases k,
{
    assert(c[k] is Raw);
    if k > 0 {
        lemma_raw_cover_hi(c, count, k - 1);
        assert(node_hi(c[k - 1]) == node_lo(c[k]));
    }
}

/// A cover made of raw memories only has one node per memory.
proof fn lemma_raw_cover_len(c: Seq<WakeNode>, count: nat)
    requires
        is_cover(c, count),
        forall|i: int| 0 <= i < c.len() ==> #[trigger] c[i] is Raw,
    ensures
        c.len() == count,
{
    if c.len() > 0 {
        lemma_raw_cover_hi(c, count, c.len() - 1);
    }
}

/// The order by which the wake cover picks the next node to split: a node
/// is coarser when its size is larger relative to its age (distance from the
/// newest memory); the newest node is coarsest; ties go to the later node.
pub open spec fn coarser(left: WakeNode, right: WakeNode, count: nat) -> bool {
    let left_age = count - node_hi(left);
    let right_age = count - node_hi(right);
    if left_age == 0 && right_age == 0 {
        node_lo(left) > node_lo(right)
    } else if left_age == 0 {
        true
    } else if right_age == 0 {
        false
    } else {
        node_size(left) * right_age > node_size(right) * left_age || (node_size(left)
            * right_age == node_size(right) * left_age && node_lo(left) > node_lo(right))
    }
}

/// The outcome of comparing two nodes by coarseness.
#[derive(Clone, Copy, Debug, PartialEq, Eq)]
pub enum Comparison {
    Less,
    Equal,
    Greater,
}

fn widened_product(a: u64, b: u64) -> (r: u128)
    ensures
        r == a * b,
{
    proof {
        assert(a * b <= u64::MAX * u64::MAX) by (nonlinear_arith);
    }
    (a as u128) * (b as u128)
}

/// Compares two nodes of a cover of `raw_count` memories by coarseness.
pub fn relative_coarseness(left: WakeNode, right: WakeNode, raw_count: u64) -> (r:
    Comparison)
    requires
        node_valid(left),
        node_valid(right),
        node_hi(left) <= raw_count,
        node_hi(right) <= raw_count,
    ensures
        (r == Comparison::Greater) == coarser(left, right, raw_count as nat),
        (r == Comparison::Less) == coarser(right, left, raw_count as nat),
        (r == Comparison::Equal) == (!coarser(left, right, raw_count as nat)
            && !coarser(right, left, raw_count as nat)),
{
    let left_age = raw_count - left.hi();
    let right_age = raw_count - right.hi();
    let left_lo = left.lo();
    let right_lo = right.lo();
    if left_age == 0 && right_age == 0 {
        if left_lo > right_lo {
            Comparison::Greater
        } else if left_lo < right_lo {
            Comparison::Less
        } else {
            Comparison::Equal
        }
    } else if left_age == 0 {
        Comparison::Greater
    } else if right_age == 0 {
        Comparison::Less
    } else {
        let a = widened_product(left.size(), right_age);
        let b = widened_product(right.size(), left_age);
        if a > b {
            Comparison::Greater
        } else if a < b {
            Comparison::Less
        } else if left_lo > right_lo {
            Comparison::Greater
        } else if left_lo < right_lo {
            Comparison::Less
        } else {
            Comparison::Equal
        }
    }
}

/// The largest power of two at most `n`.
fn top_bit(n: u64) -> (b: u64)
    requires
        n >= 1,
    ensures
        is_pow2(b as nat),
        b <= n < 2 * b,
{
    let mut b: u64 = 1;
    while b <= n / 2
        invariant
            is_pow2(b as nat),
            1 <= b <= n,
        decreases n - b,
    {
        proof {
            lemma_pow2_double(b as nat);
        }
        b = b * 2;
    }
    b
}

/// The binary decomposition of `raw_count`: one aligned block per one bit,
/// oldest and largest first.
fn canonical_cover(raw_count: u64) -> (cover: Vec<WakeNode>)
    requires
        raw_count <= I64_MAX,
    ensures
        is_cover(cover@, raw_count as nat),
        cover@.len() == popcount(raw_count as nat),
        cover@ == canonical(raw_count as nat),
{
    let mut cover: Vec<WakeNode> = Vec::new();
    if raw_count == 0 {
        return cover;
    }
    let mut lo: u64 = 0;
    let mut bit: u64 = top_bit(raw_count);
    proof {
        lemma_top_bit(raw_count as nat, bit as nat);
        assert(cover@ + canonical_from(0, raw_count as nat, bit as nat) =~= canonical(raw_count as nat));
    }
    while bit != 0
        invariant
            cover@ + canonical_from(lo as nat, raw_count as nat, bit as nat) == canonical(raw_count as nat),
            raw_count <= I64_MAX,
            raw_count >= 1,
            lo <= raw_count,
            bit == 0 || is_pow2(bit as nat),
            bit == 0 ==> lo == raw_count,
            bit > 0 ==> raw_count - lo < 2 * bit,
            bit > 0 ==> (lo as nat) % (2 * bit as nat) == 0,
            cover@.len() == 0 <==> lo == 0,
            cover@.len() > 0 ==> node_lo(cover@[0]) == 0 && node_hi(cover@.last()) == lo,
            forall|i: int, j: int|
                #![trigger cover@[i], cover@[j]]
                0 <= i && j == i + 1 && j < cover@.len() ==> node_hi(cover@[i]) == node_lo(
                    cover@[j],
                ),
            forall|i: int| 0 <= i < cover@.len() ==> node_valid(#[trigger] cover@[i]),
            forall|i: int|
                0 <= i < cover@.len() ==> node_size(#[trigger] cover@[i]) >= 2 * bit,
            forall|i: int, j: int|
                #![trigger cover@[i], cover@[j]]
                0 <= i < j < cover@.len() ==> node_size(cover@[j]) < node_size(cover@[i]),
            cover@.len() + popcount((raw_count - lo) as nat) == popcount(raw_count as nat),
        decreases bit,
    {
        let ghost old_cover = cover@;
        proof {
            lemma_mod_halving(lo as nat, bit as nat);
        }
        if raw_count - lo >= bit {
            proof {
                lemma_popcount_top((raw_count - lo) as nat, bit as nat);
            }
            let ghost rest = canonical_from((lo + bit) as nat, raw_count as nat, (bit / 2) as nat);
            if bit == 1 {
                cover.push(WakeNode::Raw(lo));
            } else {
                let range = MemoryRange::from_parts(lo, lo + bit);
                assert(range == MemoryRange { lo: lo, hi: (lo + bit) as u64 });
                cover.push(WakeNode::Summary(range));
            }
            proof {
                assert(cover@.last() == block(lo as nat, bit as nat));
                assert(cover@ + rest =~= old_cover + canonical_from(lo as nat, raw_count as nat, bit as nat));
            }
            lo = lo + bit;
            proof {
                let n = cover@.len() - 1;
                assert(cover@[n as int] == cover@.last());
                assert forall|i: int, j: int|
                    #![trigger cover@[i], cover@[j]]
                    0 <= i && j == i + 1 && j < cover@.len() implies node_hi(cover@[i])
                    == node_lo(cover@[j]) by {
                    if j == n {
                        assert(cover@[i] == old_cover.last());
                    } else {
                        assert(cover@[i] == old_cover[i] && cover@[j] == old_cover[j]);
                    }
                }
                assert forall|i: int, j: int|
                    #![trigger cover@[i], cover@[j]]
                    0 <= i < j < cover@.len() implies node_size(cover@[j]) < node_size(
                        cover@[i],
                    ) by {
                    if j == n {
                        assert(cover@[i] == old_cover[i]);
                    } else {
                        assert(cover@[i] == old_cover[i] && cover@[j] == old_cover[j]);
                    }
                }
                assert forall|i: int| 0 <= i < cover@.len() implies node_valid(
                    #[trigger] cover@[i],
                ) by {
                    if i < n {
                        assert(cover@[i] == old_cover[i]);
                    }
                }
                if n > 0 {
                    assert(cover@[0] == old_cover[0]);
                }
            }
        }
        let ghost pre_half = cover@;
        bit = bit / 2;
        proof {
            if bit > 0 {
                lemma_pow2_half((2 * bit) as nat);
                assert forall|i: int| 0 <= i < cover@.len() implies node_size(
                    #[trigger] cover@[i],
                ) >= 2 * bit by {}
            }
        }
    }
    cover
}

/// Covers `[0, raw_count)` with at most `budget` nodes: starting from the
/// binary decomposition, it keeps splitting the coarsest summary until the
/// budget is used or only raw memories remain.
pub fn wake_cover(raw_count: u64, budget: usize) -> (r: Result<Vec<WakeNode>>)
    ensures
        r is Err <==> raw_count > I64_MAX || (raw_count > 0 && popcount(raw_count as nat)
            > budget),
        r matches Err(e) ==> e is InvalidValue,
        r matches Err(e) ==> raw_count > I64_MAX ==> e->field@ == "memory range"@
            && e->value@ == "history exceeds SQLite identity"@,
        r matches Err(e) ==> raw_count <= I64_MAX ==> e->field@ == "wake budget"@
            && e->value@ == decimal(budget as nat) + " entries cannot cover this history"@,
        r matches Ok(cover) ==> {
            &&& cover@ == wake_spec(raw_count as nat, budget as nat)
            &&& cover@.len() == if (budget as nat) < raw_count {
                budget as nat
            } else {
                raw_count as nat
            }
            &&& is_cover(cover@, raw_count as nat)
            &&& cover@.len() <= budget
            &&& raw_count <= budget ==> forall|i: int|
                0 <= i < cover@.len() ==> #[trigger] cover@[i] is Raw
        },
{
    if raw_count == 0 {
        proof {
            lemma_wake_steps_stable(canonical(0), 0, 0, budget as nat);
        }
        return Ok(Vec::new());
    }
    if raw_count > I64_MAX {
        return Err(
            NtError::InvalidValue {
                field: "memory range",
                value: owned("history exceeds SQLite identity"),
            },
        );
    }
    let mut cover = canonical_cover(raw_count);
    if cover.len() > budget {
        let mut value = u64_to_string(budget as u64);
        append_str(&mut value, " entries cannot cover this history");
        return Err(NtError::InvalidValue { field: "wake budget", value });
    }
    let ghost canon = canonical(raw_count as nat);
    let ghost mut steps: nat = 0;
    while cover.len() < budget
        invariant
            raw_count <= I64_MAX,
            is_cover(cover@, raw_count as nat),
            cover@.len() <= budget,
            canon == canonical(raw_count as nat),
            cover@ == wake_steps(canon, raw_count as nat, steps),
            cover@.len() == popcount(raw_count as nat) + steps,
        ensures
            is_cover(cover@, raw_count as nat),
            cover@.len() <= budget,
            cover@ == wake_steps(canon, raw_count as nat, steps),
            cover@.len() == popcount(raw_count as nat) + steps,
            cover@.len() == budget || forall|i: int|
                0 <= i < cover@.len() ==> #[trigger] cover@[i] is Raw,
        decreases budget - cover@.len(),
    {
        let chosen = coarsest_summary(&cover, raw_count);
        let index = match chosen {
            Some(index) => index,
            None => {
                break;
            },
        };
        let range = match cover[index] {
            WakeNode::Summary(range) => range,
            WakeNode::Raw(_) => {
                proof {
                    assert(false);
                }
                break;
            },
        };
        let (left, right) = range.children();
        let ghost before = cover@;
        proof {
            lemma_split_keeps_cover(before, raw_count as nat, index as int, left, right);
        }
        cover.set(index, left);
        cover.insert(index + 1, right);
        proof {
            assert(cover@ =~= before.subrange(0, index as int).push(left).push(right)
                + before.subrange(index + 1, before.len() as int));
            assert(coarsest_at(before, raw_count as nat, index as int));
            lemma_halves(range, left, right);
            lemma_split_coarsest(before, raw_count as nat, index as int);
            steps = steps + 1;
            assert(cover@ == wake_steps(canon, raw_count as nat, steps));
        }
    }
    proof {
        lemma_cover_len(cover@, raw_count as nat);
        if cover@.len() < budget {
            lemma_raw_cover_len(cover@, raw_count as nat);
            lemma_wake_steps_stable(canon, raw_count as nat, steps, (budget - popcount(raw_count as nat)) as nat);
        }
    }
    Ok(cover)
}

/// The index of the coarsest summary node of a cover, if any: the node
/// `Iterator::max_by` would pick among the nodes larger than one memory.
fn coarsest_summary(cover: &Vec<WakeNode>, raw_count: u64) -> (r: Option<usize>)
    requires
        is_cover(cover@, raw_count as nat),
        raw_count <= I64_MAX,
    ensures
        match r {
            None => forall|i: int| 0 <= i < cover@.len() ==> #[trigger] cover@[i] is Raw,
            Some(k) => {
                &&& k < cover@.len()
                &&& cover@[k as int] is Summary
                &&& forall|j: int|
                    0 <= j < cover@.len() && j != k && #[trigger] cover@[j] is Summary ==> coarser(
                        cover@[k as int],
                        cover@[j],
                        raw_count as nat,
                    )
            },
        },
{
    let mut best: Option<usize> = None;
    let mut i: usize = 0;
    while i < cover.len()
        invariant
            is_cover(cover@, raw_count as nat),
            raw_count <= I64_MAX,
            i <= cover@.len(),
            match best {
                None => forall|j: int| 0 <= j < i ==> #[trigger] cover@[j] is Raw,
                Some(k) => {
                    &&& k < i
                    &&& cover@[k as int] is Summary
                    &&& forall|j: int|
                        0 <= j < i && j != k && #[trigger] cover@[j] is Summary ==> coarser(
                            cover@[k as int],
                            cover@[j],
                            raw_count as nat,
                        )
                },
            },
        decreases cover@.len() - i,
    {
        let node = cover[i];
        proof {
            lemma_cover_node_within(cover@, raw_count as nat, i as int);
        }
        if node.size() > 1 {
            match best {
                None => {
                    best = Some(i);
                },
                Some(k) => {
                    proof {
                        lemma_cover_node_within(cover@, raw_count as nat, k as int);
                        lemma_cover_lo_distinct(cover@, raw_count as nat, k as int, i as int);
                    }
                    let ordering = relative_coarseness(node, cover[k], raw_count);
                    match ordering {
                        Comparison::Less => {},
                        _ => {
                            proof {
                                assert forall|j: int|
                                    0 <= j < i + 1 && j != i && #[trigger] cover@[j] is Summary
                                    implies coarser(cover@[i as int], cover@[j], raw_count as nat) by {
                                    if j != k {
                                        lemma_cover_node_within(cover@, raw_count as nat, j);
                                        lemma_coarser_transitive(
                                            cover@[i as int],
                                            cover@[k as int],
                                            cover@[j],
                                            raw_count as nat,
                                        );
                                    }
                                }
                            }
                            best = Some(i);
                        },
                    }
                },
            }
        } else {
            proof {
                lemma_node_size(node);
            }
        }
        i += 1;
    }
    best
}

proof fn lemma_cover_node_within(c: Seq<WakeNode>, count: nat, k: int)
    requires
        is_cover(c, count),
        0 <= k < c.len(),
    ensures
        node_hi(c[k]) <= count,
        node_lo(c[k]) < node_hi(c[k]),
    decreases c.len() - k,
{
    lemma_node_size(c[k]);
    if k + 1 < c.len() {
        lemma_cover_node_within(c, count, k + 1);
        assert(node_hi(c[k]) == node_lo(c[k + 1]));
    } else {
        assert(c[k] == c.last());
    }
}

/// Nodes of a cover begin at increasing positions.
proof fn lemma_cover_lo_increasing(c: Seq<WakeNode>, count: nat, a: int, b: int)
    requires
        is_cover(c, count),
        0 <= a < b < c.len(),
    ensures
        node_hi(c[a]) <= node_lo(c[b]),
    decreases b - a,
{
    lemma_node_size(c[b - 1]);
    assert(node_hi(c[b - 1]) == node_lo(c[b]));
    if a < b - 1 {
        lemma_cover_lo_increasing(c, count, a, b - 1);
    }
}

proof fn lemma_cover_lo_distinct(c: Seq<WakeNode>, count: nat, a: int, b: int)
    requires
        is_cover(c, count),
        0 <= a < c.len(),
        0 <= b < c.len(),
        a != b,
    ensures
        node_lo(c[a]) != node_lo(c[b]),
{
    lemma_node_size(c[a]);
    lemma_node_size(c[b]);
    if a < b {
        lemma_cover_lo_increasing(c, count, a, b);
    } else {
        lemma_cover_lo_increasing(c, count, b, a);
    }
}

proof fn lemma_coarser_transitive(a: WakeNode, b: WakeNode, c: WakeNode, count: nat)
    requires
        !coarser(b, a, count),
        node_lo(a) != node_lo(b),
        coarser(b, c, count),
        node_hi(a) <= count,
        node_hi(b) <= count,
        node_hi(c) <= count,
        node_size(a) >= 1,
        node_size(b) >= 1,
        node_size(c) >= 1,
    ensures
        coarser(a, c, count),
{
    let aa = count - node_hi(a);
    let ba = count - node_hi(b);
    let ca = count - node_hi(c);
    let sa = node_size(a);
    let sb = node_size(b);
    let sc = node_size(c);
    if aa > 0 && ba > 0 && ca > 0 {
        // a >= b (as ratios sa/aa >= sb/ba) and b > c
        assert(sa * ba >= sb * aa);
        assert(sb * ca > sc * ba || (sb * ca == sc * ba && node_lo(b) > node_lo(c)));
        assert(sa * ca * ba >= sc * aa * ba) by (nonlinear_arith)
            requires
                sa * ba >= sb * aa,
                sb * ca >= sc * ba,
                aa > 0,
                ba > 0,
                ca > 0,
        ;
        assert(sa * ca >= sc * aa) by (nonlinear_arith)
            requires
                sa * ca * ba >= sc * aa * ba,
                ba > 0,
        ;
        if sa * ca == sc * aa {
            assert(sa * ba == sb * aa && sb * ca == sc * ba) by (nonlinear_arith)
                requires
                    sa * ca == sc * aa,
                    sa * ba >= sb * aa,
                    sb * ca >= sc * ba,
                    aa > 0,
                    ba > 0,
                    ca > 0,
            ;
        }
    }
}

/// Splitting the coarsest summary of a cover into its halves keeps it a cover.
proof fn lemma_split_keeps_cover(
    c: Seq<WakeNode>,
    count: nat,
    k: int,
    left: WakeNode,
    right: WakeNode,
)
    requires
        is_cover(c, count),
        0 <= k < c.len(),
        c[k] is Summary,
        split_of(c[k]->Summary_0, left, right),
        forall|j: int|
            0 <= j < c.len() && j != k && #[trigger] c[j] is Summary ==> coarser(
                c[k],
                c[j],
                count,
            ),
    ensures
        is_cover(
            c.subrange(0, k).push(left).push(right) + c.subrange(k + 1, c.len() as int),
            count,
        ),
{
    let n = c.subrange(0, k).push(left).push(right) + c.subrange(k + 1, c.len() as int);
    let s = node_size(c[k]);
    lemma_node_size(c[k]);
    lemma_node_size(left);
    assert(n.len() == c.len() + 1);
    assert forall|i: int| 0 <= i < n.len() implies #[trigger] n[i] == (if i < k {
        c[i]
    } else if i == k {
        left
    } else if i == k + 1 {
        right
    } else {
        c[i - 1]
    }) by {}
    // The node after the split one is at most half its size.
    if k + 1 < c.len() {
        let next = c[k + 1];
        lemma_node_size(next);
        assert(node_size(next) <= s);
        assert(node_hi(c[k]) == node_lo(next));
        lemma_cover_node_within(c, count, k + 1);
        if node_size(next) == s {
            assert(next is Summary);
            assert(coarser(c[k], next, count));
            let ak = count - node_hi(c[k]);
            let an = count - node_hi(next);
            assert(ak > an);
            assert(s * ak > s * an) by (nonlinear_arith)
                requires
                    s >= 1,
                    ak > an,
            ;
        }
        lemma_pow2_smaller_is_at_most_half(s, node_size(next));
    }
    assert forall|i: int| 0 <= i < n.len() implies node_valid(#[trigger] n[i]) by {}
    assert forall|i: int, j: int|
        #![trigger n[i], n[j]]
        0 <= i && j == i + 1 && j < n.len() implies node_hi(n[i]) == node_lo(n[j]) by {
        if i < k - 1 {
            assert(node_hi(c[i]) == node_lo(c[i + 1]));
        } else if i == k - 1 {
            assert(node_hi(c[i]) == node_lo(c[k]));
        } else if i > k + 1 {
            assert(node_hi(c[i - 1]) == node_lo(c[i]));
        } else if i == k + 1 {
            assert(node_hi(c[k]) == node_lo(c[k + 1]));
        }
    }
    assert forall|i: int, j: int|
        #![trigger n[i], n[j]]
        0 <= i < j < n.len() implies node_size(n[j]) <= node_size(n[i]) by {
        if i < k {
            if j <= k + 1 {
                assert(node_size(c[k]) <= node_size(c[i]));
            } else {
                assert(node_size(c[j - 1]) <= node_size(c[i]));
            }
        } else if i == k || i == k + 1 {
            if j > k + 1 {
                if j - 1 > k + 1 {
                    assert(node_size(c[j - 1]) <= node_size(c[k + 1]));
                }
            }
        } else {
            assert(node_size(c[j - 1]) <= node_size(c[i - 1]));
        }
    }
    if k > 0 {
        assert(n[0] == c[0]);
    }
    if k + 1 < c.len() {
        assert(n.last() == c.last());
    } else {
        assert(n.last() == right);
        assert(c.last() == c[k]);
    }
}


// ---------------------------------------------------------------------------
// The wake cover as a function of the history and the budget
// ---------------------------------------------------------------------------
/// The node of `size` memories starting at `lo`.
pub closed spec fn block(lo: nat, size: nat) -> WakeNode {
    if size == 1 {
        WakeNode::Raw(lo as u64)
    } else {
        WakeNode::Summary(MemoryRange { lo: lo as u64, hi: (lo + size) as u64 })
    }
}

/// The binary decomposition of `[lo, count)` into blocks of at most `bit`
/// memories, largest first.
pub closed spec fn canonical_from(lo: nat, count: nat, bit: nat) -> Seq<WakeNode>
    decreases bit,
{
    if bit == 0 {
        Seq::empty()
    } else if count >= lo + bit {
        seq![block(lo, bit)] + canonical_from(lo + bit, count, bit / 2)
    } else {
        canonical_from(lo, count, bit / 2)
    }
}

/// The largest power of two at most `n`.
pub closed spec fn top_bit_of(n: nat) -> nat {
    choose|b: nat| is_pow2(b) && b <= n < 2 * b
}

/// The binary decomposition of `[0, count)`: one aligned block per one bit,
/// oldest and largest first.
pub closed spec fn canonical(count: nat) -> Seq<WakeNode> {
    if count == 0 {
        Seq::empty()
    } else {
        canonical_from(0, count, top_bit_of(count))
    }
}

/// The two halves of a range.
pub closed spec fn halves(r: MemoryRange) -> (WakeNode, WakeNode) {
    let half = r.spec_size() / 2;
    (block(r.spec_lo(), half), block(r.spec_lo() + half, half))
}

/// Node `k` is the coarsest summary of `c`.
pub open spec fn coarsest_at(c: Seq<WakeNode>, count: nat, k: int) -> bool {
    &&& 0 <= k < c.len()
    &&& c[k] is Summary
    &&& forall|j: int|
        0 <= j < c.len() && j != k && #[trigger] c[j] is Summary ==> coarser(c[k], c[j], count)
}

/// `c` with its coarsest summary split into its halves; `c` itself when it
/// holds raw memories only.
pub closed spec fn split_coarsest(c: Seq<WakeNode>, count: nat) -> Seq<WakeNode> {
    if exists|k: int| coarsest_at(c, count, k) {
        let k = choose|k: int| coarsest_at(c, count, k);
        let h = halves(c[k]->Summary_0);
        c.subrange(0, k).push(h.0).push(h.1) + c.subrange(k + 1, c.len() as int)
    } else {
        c
    }
}

/// `c` after `n` splits of its coarsest summary.
pub closed spec fn wake_steps(c: Seq<WakeNode>, count: nat, n: nat) -> Seq<WakeNode>
    decreases n,
{
    if n == 0 {
        c
    } else {
        split_coarsest(wake_steps(c, count, (n - 1) as nat), count)
    }
}

/// The wake cover of `count` memories in `budget` nodes: the binary
/// decomposition, then one split of the coarsest summary per node the budget
/// allows beyond it, while a summary is left.
pub closed spec fn wake_spec(count: nat, budget: nat) -> Seq<WakeNode> {
    wake_steps(canonical(count), count, (budget - popcount(count)) as nat)
}

proof fn lemma_top_bit(n: nat, b: nat)
    requires
        is_pow2(b),
        b <= n < 2 * b,
    ensures
        top_bit_of(n) == b,
{
    let t = top_bit_of(n);
    assert(is_pow2(t) && t <= n < 2 * t);
    if t < b {
        lemma_pow2_smaller_is_at_most_half(b, t);
    } else if b < t {
        lemma_pow2_smaller_is_at_most_half(t, b);
    }
}

proof fn lemma_top_bit_exists(n: nat)
    requires
        n >= 1,
    ensures
        exists|b: nat| is_pow2(b) && b <= n < 2 * b,
    decreases n,
{
    if n == 1 {
        assert(is_pow2(1) && 1 <= n < 2 * 1);
    } else {
        lemma_top_bit_exists(n / 2);
        let b = choose|b: nat| is_pow2(b) && b <= n / 2 < 2 * b;
        lemma_pow2_double(b);
        assert(is_pow2(2 * b) && 2 * b <= n < 2 * (2 * b));
    }
}

proof fn lemma_block(lo: nat, size: nat)
    requires
        is_pow2(size),
        lo % size == 0,
        lo + size <= I64_MAX,
    ensures
        node_valid(block(lo, size)),
        node_lo(block(lo, size)) == lo,
        node_hi(block(lo, size)) == lo + size,
        node_size(block(lo, size)) == size,
{
}

/// The decomposition of `[lo, count)` is a run of consecutive valid nodes
/// from `lo` to `count`, of sizes at most `bit` that never grow, one per one
/// bit of `count - lo`.
proof fn lemma_canonical_from(lo: nat, count: nat, bit: nat)
    requires
        count <= I64_MAX,
        lo <= count,
        bit == 0 ==> lo == count,
        bit > 0 ==> is_pow2(bit) && count - lo < 2 * bit && lo % (2 * bit) == 0,
    ensures
        ({
            let c = canonical_from(lo, count, bit);
            &&& c.len() == popcount((count - lo) as nat)
            &&& (c.len() == 0 <==> lo == count)
            &&& c.len() > 0 ==> node_lo(c[0]) == lo && node_hi(c.last()) == count
            &&& forall|i: int, j: int|
                #![trigger c[i], c[j]]
                0 <= i && j == i + 1 && j < c.len() ==> node_hi(c[i]) == node_lo(c[j])
            &&& forall|i: int| 0 <= i < c.len() ==> node_valid(#[trigger] c[i])
            &&& forall|i: int| 0 <= i < c.len() ==> node_size(#[trigger] c[i]) <= bit
            &&& forall|i: int, j: int|
                #![trigger c[i], c[j]]
                0 <= i < j < c.len() ==> node_size(c[j]) <= node_size(c[i])
        }),
    decreases bit,
{
    let c = canonical_from(lo, count, bit);
    if bit == 0 {
        assert(c.len() == 0);
    } else {
        lemma_mod_halving(lo, bit);
        if bit >= 2 {
            lemma_pow2_half(bit);
        }
        if count >= lo + bit {
            let head = block(lo, bit);
            lemma_block(lo, bit);
            lemma_canonical_from(lo + bit, count, bit / 2);
            lemma_popcount_top((count - lo) as nat, bit);
            let t = canonical_from(lo + bit, count, bit / 2);
            assert(c == seq![head] + t);
            assert forall|i: int| 0 <= i < c.len() implies #[trigger] c[i] == (if i == 0 {
                head
            } else {
                t[i - 1]
            }) by {}
            assert forall|i: int, j: int|
                #![trigger c[i], c[j]]
                0 <= i && j == i + 1 && j < c.len() implies node_hi(c[i]) == node_lo(c[j]) by {
                if i > 0 {
                    assert(node_hi(t[i - 1]) == node_lo(t[j - 1]));
                }
            }
            assert forall|i: int| 0 <= i < c.len() implies node_size(#[trigger] c[i]) <= bit by {
                if i > 0 {
                    assert(node_size(t[i - 1]) <= bit / 2);
                }
            }
            assert forall|i: int, j: int|
                #![trigger c[i], c[j]]
                0 <= i < j < c.len() implies node_size(c[j]) <= node_size(c[i]) by {
                if i > 0 {
                    assert(node_size(t[j - 1]) <= node_size(t[i - 1]));
                } else {
                    assert(node_size(t[j - 1]) <= bit / 2);
                }
            }
            if t.len() > 0 {
                assert(c.last() == t.last());
            }
        } else {
            lemma_canonical_from(lo, count, bit / 2);
            assert forall|i: int| 0 <= i < c.len() implies node_size(#[trigger] c[i]) <= bit by {
                assert(node_size(c[i]) <= bit / 2);
            }
        }
    }
}

/// The binary decomposition of `count` memories is a cover of them with one
/// node per one bit.
proof fn lemma_canonical(count: nat)
    requires
        count <= I64_MAX,
    ensures
        is_cover(canonical(count), count),
        canonical(count).len() == popcount(count),
{
    if count > 0 {
        lemma_top_bit_exists(count);
        let b = choose|b: nat| is_pow2(b) && b <= count < 2 * b;
        lemma_top_bit(count, b);
        lemma_canonical_from(0, count, b);
    }
}

proof fn lemma_coarser_asymmetric(a: WakeNode, b: WakeNode, count: nat)
    ensures
        !(coarser(a, b, count) && coarser(b, a, count)),
{
}

proof fn lemma_coarsest_unique(c: Seq<WakeNode>, count: nat, k1: int, k2: int)
    requires
        coarsest_at(c, count, k1),
        coarsest_at(c, count, k2),
    ensures
        k1 == k2,
{
    if k1 != k2 {
        assert(c[k2] is Summary);
        assert(coarser(c[k1], c[k2], count));
        assert(coarser(c[k2], c[k1], count));
        lemma_coarser_asymmetric(c[k1], c[k2], count);
    }
}

/// The halves of a valid range are the nodes that split it, and the only ones.
proof fn lemma_halves(r: MemoryRange, left: WakeNode, right: WakeNode)
    requires
        r.valid(),
    ensures
        split_of(r, halves(r).0, halves(r).1),
        split_of(r, left, right) ==> (left, right) == halves(r),
{
    let half = r.spec_size() / 2;
    lemma_pow2_half(r.spec_size());
    lemma_mod_halving(r.spec_lo(), half);
    lemma_block(r.spec_lo(), half);
    lemma_block(r.spec_lo() + half, half);
    if split_of(r, left, right) {
        match left {
            WakeNode::Raw(s) => {},
            WakeNode::Summary(x) => {
                assert(x == MemoryRange { lo: r.spec_lo() as u64, hi: (r.spec_lo() + half) as u64 });
            },
        }
        match right {
            WakeNode::Raw(s) => {},
            WakeNode::Summary(x) => {
                assert(x == MemoryRange { lo: (r.spec_lo() + half) as u64, hi: r.spec_hi() as u64 });
            },
        }
    }
}

proof fn lemma_split_coarsest(c: Seq<WakeNode>, count: nat, k: int)
    requires
        coarsest_at(c, count, k),
    ensures
        split_coarsest(c, count) == c.subrange(0, k).push(halves(c[k]->Summary_0).0).push(
            halves(c[k]->Summary_0).1,
        ) + c.subrange(k + 1, c.len() as int),
{
    let k2 = choose|k: int| coarsest_at(c, count, k);
    lemma_coarsest_unique(c, count, k, k2);
}

proof fn lemma_split_coarsest_raw(c: Seq<WakeNode>, count: nat)
    requires
        forall|i: int| 0 <= i < c.len() ==> #[trigger] c[i] is Raw,
    ensures
        split_coarsest(c, count) == c,
{
    if exists|k: int| coarsest_at(c, count, k) {
        let k = choose|k: int| coarsest_at(c, count, k);
        assert(c[k] is Raw);
    }
}

proof fn lemma_wake_steps_stable(c: Seq<WakeNode>, count: nat, n: nat, m: nat)
    requires
        n <= m,
        forall|i: int|
            0 <= i < wake_steps(c, count, n).len() ==> #[trigger] wake_steps(c, count, n)[i] is Raw,
    ensures
        wake_steps(c, count, m) == wake_steps(c, count, n),
    decreases m - n,
{
    if m > n {
        lemma_wake_steps_stable(c, count, n, (m - 1) as nat);
        lemma_split_coarsest_raw(wake_steps(c, count, n), count);
    }
}

/// A split of the coarsest summary keeps a cover a cover.
proof fn lemma_split_coarsest_cover(c: Seq<WakeNode>, count: nat)
    requires
        is_cover(c, count),
    ensures
        is_cover(split_coarsest(c, count), count),
{
    if exists|k: int| coarsest_at(c, count, k) {
        let k = choose|k: int| coarsest_at(c, count, k);
        let r = c[k]->Summary_0;
        assert(node_valid(c[k]));
        lemma_halves(r, halves(r).0, halves(r).1);
        lemma_split_keeps_cover(c, count, k, halves(r).0, halves(r).1);
    }
}

proof fn lemma_wake_steps_cover(count: nat, n: nat)
    requires
        count <= I64_MAX,
    ensures
        is_cover(wake_steps(canonical(count), count, n), count),
    decreases n,
{
    if n == 0 {
        lemma_canonical(count);
    } else {
        lemma_wake_steps_cover(count, (n - 1) as nat);
        lemma_split_coarsest_cover(wake_steps(canonical(count), count, (n - 1) as nat), count);
    }
}

/// A wake cover refines the cover of a budget one smaller: every node of the
/// smaller cover holds some node of the larger one.
pub proof fn law_wake_refines(count: nat, budget: nat)
    requires
        count <= I64_MAX,
        popcount(count) <= budget,
    ensures
        forall|i: int|
            0 <= i < wake_spec(count, budget).len() ==> exists|j: int|
                0 <= j < wake_spec(count, budget + 1).len() && node_lo(#[trigger] wake_spec(count, budget)[i])
                    <= node_lo(#[trigger] wake_spec(count, budget + 1)[j]) && node_hi(wake_spec(count, budget + 1)[j])
                    <= node_hi(wake_spec(count, budget)[i]),
{
    let c = wake_spec(count, budget);
    let n = (budget - popcount(count)) as nat;
    assert(((budget + 1) - popcount(count)) as nat == n + 1);
    assert(wake_spec(count, budget + 1) == split_coarsest(c, count));
    lemma_wake_steps_cover(count, n);
    let d = split_coarsest(c, count);
    if exists|k: int| coarsest_at(c, count, k) {
        let k = choose|k: int| coarsest_at(c, count, k);
        lemma_split_coarsest(c, count, k);
        let r = c[k]->Summary_0;
        assert(node_valid(c[k]));
        lemma_halves(r, halves(r).0, halves(r).1);
        lemma_node_size(halves(r).1);
        assert forall|i: int| 0 <= i < c.len() implies exists|j: int|
            0 <= j < d.len() && node_lo(#[trigger] c[i]) <= node_lo(#[trigger] d[j]) && node_hi(d[j]) <= node_hi(c[i]) by {
            if i < k {
                assert(d[i] == c[i]);
            } else if i == k {
                assert(d[k] == halves(r).0);
            } else {
                assert(d[i + 1] == c[i]);
            }
        }
    } else {
        assert forall|i: int| 0 <= i < c.len() implies exists|j: int|
            0 <= j < d.len() && node_lo(#[trigger] c[i]) <= node_lo(#[trigger] d[j]) && node_hi(d[j]) <= node_hi(c[i]) by {
            assert(d[i] == c[i]);
        }
    }
}

/// The text form of a valid range reads back as a range.
pub proof fn law_range_text_parses(r: MemoryRange)
    requires
        r.valid(),
    ensures
        parses_as_range(range_text(r)),
{
    let a = decimal(r.spec_lo());
    let b = decimal((r.spec_hi() - 1) as nat);
    crate::text::lemma_decimal_digits(r.spec_lo());
    crate::text::lemma_decimal_digits((r.spec_hi() - 1) as nat);
    let t = range_text(r);
    assert(t == a + seq!['-'] + b);
    crate::text::lemma_first_index_from(t, '-', 0);
    assert forall|k: int| 0 <= k < a.len() implies t[k] != '-' by {
        assert(t[k] == a[k]);
        assert(crate::text::is_ascii_digit_char(a[k]));
    }
    assert(t[a.len() as int] == '-');
    assert(first_index_from(t, '-', 0) == Some(a.len() as int));
    assert(t.subrange(0, a.len() as int) =~= a);
    assert(t.subrange(a.len() as int + 1, t.len() as int) =~= b);
}

/// The only valid range of a range's size that holds one of its halves is
/// the range itself: a half's parent is the range it was split from.
pub proof fn law_half_parent(r: MemoryRange, left: WakeNode, right: WakeNode, half: WakeNode, p: MemoryRange)
    requires
        r.valid(),
        split_of(r, left, right),
        half == left || half == right,
        p.valid(),
        p.spec_size() == r.spec_size(),
        p.spec_lo() <= node_lo(half),
        node_hi(half) <= p.spec_hi(),
    ensures
        p == r,
{
    let s = r.spec_size();
    lemma_node_size(half);
    let x = node_lo(half);
    assert(r.spec_lo() <= x < r.spec_lo() + s);
    assert(p.spec_lo() <= x < p.spec_lo() + s);
    lemma_aligned_floor(x, s, r.spec_lo());
    lemma_aligned_floor(x, s, p.spec_lo());
    assert(p.lo == r.lo && p.hi == r.hi);
}

} // verus!
