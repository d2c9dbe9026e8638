//! Facts about single bits of 64-bit words, used to read a word as a set of squares.
use vstd::prelude::*;
use vstd::std_specs::bits::*;

verus! {

/// The word whose only set bit is bit `i`.
pub open spec fn bit(i: int) -> u64 {
    1u64 << (i as u64)
}

/// Whether bit `i` of `x` is set; false outside `0..64`.
pub open spec fn holds(x: u64, i: int) -> bool {
    0 <= i < 64 && (x >> (i as u64)) & 1u64 == 1u64
}

/// Membership distributes over the bitwise connectives.
pub proof fn lemma_holds_connectives(a: u64, b: u64, i: int)
    requires
        0 <= i < 64,
    ensures
        holds(a | b, i) == (holds(a, i) || holds(b, i)),
        holds(a & b, i) == (holds(a, i) && holds(b, i)),
        holds(a ^ b, i) == (holds(a, i) != holds(b, i)),
        holds(!a, i) == !holds(a, i),
        !holds(0, i),
        holds(u64::MAX, i),
{
    let k = i as u64;
    assert(k < 64 ==> ((((a | b) >> k) & 1 == 1) == (((a >> k) & 1 == 1) || ((b >> k) & 1 == 1))
        && (((a & b) >> k) & 1 == 1) == (((a >> k) & 1 == 1) && ((b >> k) & 1 == 1))
        && (((a ^ b) >> k) & 1 == 1) == (((a >> k) & 1 == 1) != ((b >> k) & 1 == 1))
        && (((!a) >> k) & 1 == 1) == !((a >> k) & 1 == 1)
        && !((0u64 >> k) & 1 == 1)
        && ((0xffff_ffff_ffff_ffffu64 >> k) & 1 == 1))) by (bit_vector);
}

/// A single-bit word holds exactly its own bit.
pub proof fn lemma_holds_bit(j: int, i: int)
    requires
        0 <= j < 64,
        0 <= i < 64,
    ensures
        holds(bit(j), i) == (i == j),
        bit(j) != 0,
{
    let k = i as u64;
    let l = j as u64;
    assert(k < 64 && l < 64 ==> ((((1u64 << l) >> k) & 1 == 1) == (k == l)) && (1u64 << l) != 0)
        by (bit_vector);
}

/// Shifting moves every bit by the shift distance; bits pushed past either end are lost.
pub proof fn lemma_holds_shift(x: u64, n: int, i: int)
    requires
        0 <= n < 64,
        0 <= i < 64,
    ensures
        holds(x << (n as u64), i) == (i >= n && holds(x, i - n)),
        holds(x >> (n as u64), i) == (i + n < 64 && holds(x, i + n)),
{
    let k = i as u64;
    let s = n as u64;
    assert(k < 64 && s < 64 ==> ((((x << s) >> k) & 1 == 1) == (k >= s && ((x >> ((k - s) as u64))
        & 1 == 1)) && (((x >> s) >> k) & 1 == 1) == (k + s < 64 && ((x >> ((k + s) as u64)) & 1
        == 1)))) by (bit_vector);
}

/// Two words with the same bits are equal.
pub proof fn lemma_same_bits(a: u64, b: u64)
    requires
        forall|i: int| 0 <= i < 64 ==> holds(a, i) == holds(b, i),
    ensures
        a == b,
{
    lemma_same_bits_from(a, b, 0);
    assert(a >> 0u64 == a && b >> 0u64 == b) by (bit_vector);
}

proof fn lemma_same_bits_from(a: u64, b: u64, n: int)
    requires
        0 <= n < 64,
        forall|i: int| 0 <= i < 64 ==> holds(a, i) == holds(b, i),
    ensures
        a >> (n as u64) == b >> (n as u64),
    decreases 64 - n,
{
    let k = n as u64;
    assert(holds(a, n) == holds(b, n));
    if n < 63 {
        lemma_same_bits_from(a, b, n + 1);
        let k1 = (n + 1) as u64;
        assert(k < 63 && k1 == k + 1 && a >> k1 == b >> k1 && (((a >> k) & 1 == 1) == ((b >> k) & 1
            == 1)) ==> a >> k == b >> k) by (bit_vector);
    } else {
        assert(k == 63 && (((a >> k) & 1 == 1) == ((b >> k) & 1 == 1)) ==> a >> k == b >> k)
            by (bit_vector);
    }
}

/// Index of the lowest set bit of `x`; 64 when `x` is zero.
pub open spec fn lowest(x: u64) -> int {
    u64_trailing_zeros(x) as int
}

/// `x` with its lowest set bit cleared; zero stays zero.
pub open spec fn drop_lowest(x: u64) -> u64 {
    x & x.wrapping_sub(1)
}

/// The lowest set bit of `x` alone; zero for zero.
pub open spec fn only_lowest(x: u64) -> u64 {
    x & (!x).wrapping_add(1)
}

/// How many of the bits below `n` are set in `x`.
pub open spec fn count_below(x: u64, n: int) -> nat
    decreases n,
{
    if n <= 0 {
        0
    } else {
        count_below(x, n - 1) + if holds(x, n - 1) {
            1nat
        } else {
            0nat
        }
    }
}

/// The number of set bits of `x`.
pub open spec fn count_bits(x: u64) -> nat {
    count_below(x, 64)
}

/// A word is zero exactly when it holds no bit.
pub proof fn lemma_zero_holds_nothing(x: u64)
    ensures
        x == 0 <==> forall|i: int| 0 <= i < 64 ==> !holds(x, i),
{
    if x == 0 {
        assert forall|i: int| 0 <= i < 64 implies !holds(x, i) by {
            lemma_holds_connectives(0, 0, i);
        }
    } else {
        lemma_lowest(x);
    }
}

/// The lowest set bit of a nonzero word: where it is, and what isolating or clearing it leaves.
pub proof fn lemma_lowest(x: u64)
    requires
        x != 0,
    ensures
        0 <= lowest(x) < 64,
        holds(x, lowest(x)),
        forall|j: int| 0 <= j < lowest(x) ==> !holds(x, j),
        only_lowest(x) == bit(lowest(x)),
        drop_lowest(x) == x & !bit(lowest(x)),
        drop_lowest(x) < x,
        forall|i: int| 0 <= i < 64 ==> holds(drop_lowest(x), i) == (holds(x, i) && i != lowest(x)),
{
    axiom_u64_trailing_zeros(x);
    let t = u64_trailing_zeros(x) as u64;
    assert forall|j: int| 0 <= j < lowest(x) implies !holds(x, j) by {
        let k = j as u64;
        assert((x >> k) & 1u64 == 0u64);
    }
    let up = (64 - t) as u64;
    assert(x << up == 0);
    let m = (x - 1) as u64;
    assert(m == x.wrapping_sub(1));
    assert(x != 0 && t < 64 && (x >> t) & 1 == 1 && up == 64 - t && x << up == 0 && m == x - 1
        ==> !x < 0xffff_ffff_ffff_ffffu64 && (x & ((!x + 1) as u64)) == 1u64 << t && (x & m) == x
        & !(1u64 << t) && (x & m) < x) by (bit_vector);
    assert((!x).wrapping_add(1) == (!x + 1) as u64);
    assert forall|i: int| 0 <= i < 64 implies holds(drop_lowest(x), i) == (holds(x, i) && i
        != lowest(x)) by {
        lemma_holds_connectives(x, !bit(lowest(x)), i);
        lemma_holds_connectives(bit(lowest(x)), 0, i);
        lemma_holds_bit(lowest(x), i);
    }
}

/// Clearing one set bit lowers the count of the bits below any bound past it by one.
pub proof fn lemma_count_without(x: u64, y: u64, t: int, n: int)
    requires
        0 <= t < 64,
        0 <= n <= 64,
        holds(x, t),
        forall|i: int| 0 <= i < 64 ==> holds(y, i) == (holds(x, i) && i != t),
    ensures
        count_below(x, n) == count_below(y, n) + if t < n {
            1nat
        } else {
            0nat
        },
    decreases n,
{
    if n > 0 {
        lemma_count_without(x, y, t, n - 1);
    }
}

/// Counting bits one at a time from the lowest.
pub proof fn lemma_count_drop_lowest(x: u64)
    requires
        x != 0,
    ensures
        count_bits(x) == 1 + count_bits(drop_lowest(x)),
{
    lemma_lowest(x);
    lemma_count_without(x, drop_lowest(x), lowest(x), 64);
}

/// No more than `n` bits lie below `n`.
pub proof fn lemma_count_bound(x: u64, n: int)
    requires
        0 <= n <= 64,
    ensures
        count_below(x, n) <= n,
    decreases n,
{
    if n > 0 {
        lemma_count_bound(x, n - 1);
    }
}

/// The lowest bit of a single-bit word is its bit.
pub proof fn lemma_bit_lowest(k: int)
    requires
        0 <= k < 64,
    ensures
        lowest(bit(k)) == k,
{
    lemma_holds_bit(k, k);
    lemma_lowest(bit(k));
    lemma_holds_bit(k, lowest(bit(k)));
}

/// A single-bit word has one bit.
pub proof fn lemma_count_bit(k: int, n: int)
    requires
        0 <= k < 64,
        0 <= n <= 64,
    ensures
        count_below(bit(k), n) == if k < n {
            1nat
        } else {
            0nat
        },
    decreases n,
{
    if n > 0 {
        lemma_count_bit(k, n - 1);
        lemma_holds_bit(k, n - 1);
    }
}

/// A word without bits counts zero, and only such a word does.
pub proof fn lemma_count_zero(x: u64)
    ensures
        count_bits(x) == 0 <==> x == 0,
{
    if x == 0 {
        lemma_count_none(x, 64);
    } else {
        lemma_count_drop_lowest(x);
    }
}

proof fn lemma_count_none(x: u64, n: int)
    requires
        x == 0,
        0 <= n <= 64,
    ensures
        count_below(x, n) == 0,
    decreases n,
{
    if n > 0 {
        lemma_count_none(x, n - 1);
        lemma_holds_connectives(0, 0, n - 1);
    }
}

/// A word with at most one bit is zero or the bit at its lowest index.
pub proof fn lemma_at_most_one(x: u64)
    requires
        count_bits(x) <= 1,
        x != 0,
    ensures
        x == bit(lowest(x)),
        0 <= lowest(x) < 64,
{
    lemma_lowest(x);
    lemma_count_drop_lowest(x);
    lemma_count_zero(drop_lowest(x));
    assert forall|i: int| 0 <= i < 64 implies holds(x, i) == holds(bit(lowest(x)), i) by {
        lemma_holds_bit(lowest(x), i);
        lemma_holds_connectives(0, 0, i);
    }
    lemma_same_bits(x, bit(lowest(x)));
}

/// Setting bit `sq` adds square `sq` and nothing else.
pub proof fn lemma_set_bit(x: u64, sq: int)
    requires
        0 <= sq < 64,
    ensures
        forall|i: int| 0 <= i < 64 ==> #[trigger] holds(x | bit(sq), i) == (holds(x, i) || i == sq),
{
    assert forall|i: int| 0 <= i < 64 implies #[trigger] holds(x | bit(sq), i) == (holds(x, i) || i
        == sq) by {
        lemma_holds_connectives(x, bit(sq), i);
        lemma_holds_bit(sq, i);
    }
}

/// Clearing bit `sq` removes square `sq` and nothing else.
pub proof fn lemma_clear_bit(x: u64, sq: int)
    requires
        0 <= sq < 64,
    ensures
        forall|i: int|
            0 <= i < 64 ==> #[trigger] holds(x & !bit(sq), i) == (holds(x, i) && i != sq),
{
    assert forall|i: int| 0 <= i < 64 implies #[trigger] holds(x & !bit(sq), i) == (holds(x, i)
        && i != sq) by {
        lemma_holds_connectives(x, !bit(sq), i);
        lemma_holds_connectives(bit(sq), 0, i);
        lemma_holds_bit(sq, i);
    }
}

/// Toggling the bits of two squares flips membership of those two and of no other.
pub proof fn lemma_toggle_pair(x: u64, a: int, b: int)
    requires
        0 <= a < 64,
        0 <= b < 64,
    ensures
        forall|i: int|
            0 <= i < 64 ==> #[trigger] holds(x ^ (bit(a) | bit(b)), i) == (holds(x, i) != (i == a
                || i == b)),
{
    assert forall|i: int| 0 <= i < 64 implies #[trigger] holds(x ^ (bit(a) | bit(b)), i) == (holds(
        x,
        i,
    ) != (i == a || i == b)) by {
        lemma_holds_connectives(x, bit(a) | bit(b), i);
        lemma_holds_connectives(bit(a), bit(b), i);
        lemma_holds_bit(a, i);
        lemma_holds_bit(b, i);
    }
}

/// Facts about unions that walks over squares lean on.
pub proof fn lemma_union(a: u64, b: u64, c: u64, mask: u64)
    ensures
        (a | b) | c == a | (b | c),
        a | 0 == a,
        0 | a == a,
        0 & mask == 0,
        a & mask == 0 ==> ((a | b) & mask != 0) == (b & mask != 0),
{
    assert((a | b) | c == a | (b | c) && a | 0 == a && 0 | a == a && 0 & mask == 0 && (a & mask
        == 0 ==> ((a | b) & mask != 0) == (b & mask != 0))) by (bit_vector);
}

/// A single square meets a set exactly when the set holds it.
pub proof fn lemma_bit_meets(k: int, x: u64)
    requires
        0 <= k < 64,
    ensures
        (bit(k) & x != 0) == holds(x, k),
        (x & bit(k) != 0) == holds(x, k),
{
    let n = k as u64;
    assert(n < 64 ==> (((1u64 << n) & x != 0) == ((x >> n) & 1 == 1)) && ((x & (1u64 << n) != 0)
        == ((x >> n) & 1 == 1))) by (bit_vector);
}

/// A union has no more bits than its two parts together.
pub proof fn lemma_count_union(a: u64, b: u64, n: int)
    requires
        0 <= n <= 64,
    ensures
        count_below(a | b, n) <= count_below(a, n) + count_below(b, n),
    decreases n,
{
    if n > 0 {
        lemma_count_union(a, b, n - 1);
        lemma_holds_connectives(a, b, n - 1);
    }
}

/// An intersection has no more bits than its first part.
pub proof fn lemma_count_meet(a: u64, b: u64, n: int)
    requires
        0 <= n <= 64,
    ensures
        count_below(a & b, n) <= count_below(a, n),
    decreases n,
{
    if n > 0 {
        lemma_count_meet(a, b, n - 1);
        lemma_holds_connectives(a, b, n - 1);
    }
}

/// Two to the power `n`.
pub open spec fn two_to(n: nat) -> nat
    decreases n,
{
    if n == 0 {
        1
    } else {
        2 * two_to((n - 1) as nat)
    }
}

/// Shifting one up by `n` gives two to the power `n`.
pub proof fn lemma_shift_is_power(n: nat)
    requires
        n < 64,
    ensures
        (1u64 << (n as u64)) == two_to(n),
    decreases n,
{
    let k = n as u64;
    if n == 0 {
        assert(1u64 << 0u64 == 1) by (bit_vector);
    } else {
        lemma_shift_is_power((n - 1) as nat);
        let j = (n - 1) as u64;
        assert(0 < k < 64 && j == k - 1 ==> (1u64 << k) == 2 * (1u64 << j)) by (bit_vector);
    }
}

/// The word that holds, of the squares below `n`, those that satisfy `pred`.
pub open spec fn set_below(pred: spec_fn(int) -> bool, n: int) -> u64
    decreases n,
{
    if n <= 0 {
        0
    } else {
        set_below(pred, n - 1) | if pred(n - 1) {
            bit(n - 1)
        } else {
            0
        }
    }
}

/// The word that holds exactly the squares that satisfy `pred`.
pub open spec fn set_where(pred: spec_fn(int) -> bool) -> u64 {
    set_below(pred, 64)
}

/// Which squares `set_below` holds.
pub proof fn lemma_set_below(pred: spec_fn(int) -> bool, n: int, i: int)
    requires
        0 <= n <= 64,
        0 <= i < 64,
    ensures
        holds(set_below(pred, n), i) == (i < n && pred(i)),
    decreases n,
{
    lemma_holds_connectives(0, 0, i);
    if n > 0 {
        lemma_set_below(pred, n - 1, i);
        lemma_holds_connectives(set_below(pred, n - 1), bit(n - 1), i);
        lemma_holds_connectives(set_below(pred, n - 1), 0, i);
        lemma_holds_bit(n - 1, i);
    }
}

/// A word is the set of the squares that satisfy `pred` once it holds exactly those.
pub proof fn lemma_is_set_where(x: u64, pred: spec_fn(int) -> bool)
    requires
        forall|i: int| 0 <= i < 64 ==> holds(x, i) == pred(i),
    ensures
        x == set_where(pred),
{
    assert forall|i: int| 0 <= i < 64 implies holds(x, i) == holds(set_where(pred), i) by {
        lemma_set_below(pred, 64, i);
    }
    lemma_same_bits(x, set_where(pred));
}

/// Two sets meet exactly when some square is in both.
pub proof fn lemma_meet(a: u64, b: u64)
    ensures
        (a & b != 0) == exists|t: int| 0 <= t < 64 && holds(a, t) && holds(b, t),
{
    lemma_zero_holds_nothing(a & b);
    if a & b != 0 {
        let t = choose|t: int| 0 <= t < 64 && holds(a & b, t);
        lemma_holds_connectives(a, b, t);
    } else {
        assert forall|t: int| 0 <= t < 64 implies !(holds(a, t) && holds(b, t)) by {
            lemma_holds_connectives(a, b, t);
        }
    }
}

/// `u64::count_ones` returns the number of ones in the binary representation of its argument.
pub assume_specification[ u64::count_ones ](x: u64) -> (r: u32)
    ensures
        r == count_bits(x),
;

} // verus!
