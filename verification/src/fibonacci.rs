//! The Fibonacci code: the Zeckendorf digits of a number, the lowest place
//! first, closed by a one bit.
use crate::binary::zeros;
use crate::bits::{unpack, Bits};
use crate::universal_coding::{
    lemma_stands_at_index, lemma_stands_at_prefix, stands_at, Creatable, UniversalCode,
};
use vstd::arithmetic::power2::{lemma2_to64, lemma_pow2_unfold, pow2};
use vstd::prelude::*;

verus! {

/// The Fibonacci numbers 1, 1, 2, 3, 5, ...; place `k >= 1` of a Zeckendorf
/// numeral has the weight `fib(k)`.
pub open spec fn fib(k: nat) -> nat
    decreases k,
{
    if k < 2 {
        1
    } else {
        fib((k - 1) as nat) + fib((k - 2) as nat)
    }
}

/// `k` is the highest place of the Zeckendorf numeral of `n`: its weight is
/// the largest that is not above `n`.
pub open spec fn is_top_place(n: nat, k: nat) -> bool {
    k >= 1 && fib(k) <= n < fib(k + 1)
}

/// The highest place of the Zeckendorf numeral of `n >= 1`: the `k >= 1`
/// with `fib(k) <= n < fib(k + 1)`.
pub open spec fn top_place(n: nat) -> nat {
    choose|k: nat| is_top_place(n, k)
}

/// The digits of `n` at the places 1 to `k`, the lowest place first, chosen
/// greedily from the highest place down.
pub open spec fn zeckendorf(n: nat, k: nat) -> Seq<bool>
    decreases k,
{
    if k == 0 {
        Seq::empty()
    } else if fib(k) <= n {
        zeckendorf((n - fib(k)) as nat, (k - 1) as nat).push(true)
    } else {
        zeckendorf(n, (k - 1) as nat).push(false)
    }
}

/// The Fibonacci codeword of the number `n >= 1`.
pub open spec fn fib_code(n: nat) -> Seq<bool> {
    zeckendorf(n, top_place(n)).push(true)
}

/// The number that digits denote, the lowest place first: the sum of the
/// weights of the places that hold a one.
pub open spec fn weight(digits: Seq<bool>) -> nat
    decreases digits.len(),
{
    if digits.len() == 0 {
        0
    } else {
        weight(digits.drop_last()) + if digits.last() {
            fib(digits.len())
        } else {
            0
        }
    }
}

/// The digits at the indices `i` and `i + 1` are both one.
pub open spec fn twin_ones(digits: Seq<bool>, i: int) -> bool {
    digits[i] && digits[i + 1]
}

/// No two neighbouring digits are both one.
pub open spec fn sparse(digits: Seq<bool>) -> bool {
    forall|i: int| 0 <= i < digits.len() - 1 ==> !#[trigger] twin_ones(digits, i)
}

/// The Fibonacci numbers do not decrease, and grow from place 1 on.
pub proof fn lemma_fib_monotonic(i: nat, j: nat)
    requires
        i <= j,
    ensures
        1 <= fib(i) <= fib(j),
        1 <= i < j ==> fib(i) < fib(j),
    decreases j,
{
    if i < j {
        lemma_fib_monotonic(i, (j - 1) as nat);
        if j >= 2 {
            lemma_fib_monotonic(0, (j - 2) as nat);
        }
    } else if i >= 2 {
        lemma_fib_monotonic((i - 1) as nat, (i - 1) as nat);
        lemma_fib_monotonic((i - 2) as nat, (i - 2) as nat);
    }
}

/// The Fibonacci numbers double at least every two places.
pub proof fn lemma_fib_growth(j: nat)
    ensures
        fib(2 * j) >= pow2(j),
    decreases j,
{
    lemma2_to64();
    if j > 0 {
        lemma_fib_growth((j - 1) as nat);
        lemma_pow2_unfold(j);
        lemma_fib_monotonic((2 * j - 2) as nat, (2 * j - 1) as nat);
    }
}

proof fn lemma_top_place_exists(n: nat, k: nat)
    requires
        k >= 1,
        fib(k) <= n,
    ensures
        exists|j: nat| is_top_place(n, j),
    decreases n - fib(k),
{
    lemma_fib_monotonic(k, k + 1);
    if fib(k + 1) <= n {
        lemma_top_place_exists(n, k + 1);
    } else {
        assert(is_top_place(n, k));
    }
}

/// Every number from 1 on has a highest place.
pub proof fn lemma_top_place(n: nat)
    requires
        n >= 1,
    ensures
        top_place(n) >= 1,
        fib(top_place(n)) <= n < fib(top_place(n) + 1),
{
    lemma_top_place_exists(n, 1);
}

/// The highest place of a number is the only place `k >= 1` with
/// `fib(k) <= n < fib(k + 1)`.
pub proof fn lemma_top_place_unique(n: nat, k: nat)
    requires
        k >= 1,
        fib(k) <= n < fib(k + 1),
    ensures
        top_place(n) == k,
{
    lemma_top_place(n);
    let t = top_place(n);
    if t < k {
        lemma_fib_monotonic(t + 1, k);
    } else if k < t {
        lemma_fib_monotonic(k + 1, t);
    }
}

/// The greedy digits of a number below `fib(k + 1)` at the places up to `k`
/// are sparse and denote the number.
pub proof fn lemma_zeckendorf(n: nat, k: nat)
    requires
        n < fib(k + 1),
    ensures
        zeckendorf(n, k).len() == k,
        sparse(zeckendorf(n, k)),
        weight(zeckendorf(n, k)) == n,
        k >= 1 ==> zeckendorf(n, k).last() == (fib(k) <= n),
    decreases k,
{
    if k > 0 {
        lemma_fib_monotonic((k - 1) as nat, k);
        let digits = zeckendorf(n, k);
        if fib(k) <= n {
            let rest = (n - fib(k)) as nat;
            let lower = zeckendorf(rest, (k - 1) as nat);
            lemma_zeckendorf(rest, (k - 1) as nat);
            assert(digits.drop_last() =~= lower);
            assert forall|i: int| 0 <= i < digits.len() - 1 implies !#[trigger] twin_ones(
                digits,
                i,
            ) by {
                if i < k - 2 {
                    assert(!twin_ones(lower, i));
                }
            }
        } else {
            let lower = zeckendorf(n, (k - 1) as nat);
            lemma_zeckendorf(n, (k - 1) as nat);
            assert(digits.drop_last() =~= lower);
            assert forall|i: int| 0 <= i < digits.len() - 1 implies !#[trigger] twin_ones(
                digits,
                i,
            ) by {
                if i < k - 2 {
                    assert(!twin_ones(lower, i));
                }
            }
        }
    }
}

/// Sparse digits are the greedy digits of the number they denote, which lies
/// below the weight of the next place.
pub proof fn lemma_sparse_is_zeckendorf(digits: Seq<bool>)
    requires
        sparse(digits),
    ensures
        weight(digits) < fib(digits.len() + 1),
        zeckendorf(weight(digits), digits.len()) == digits,
    decreases digits.len(),
{
    let len = digits.len();
    if len > 0 {
        let lower = digits.drop_last();
        lemma_sparse_prefix(digits, len - 1);
        assert(digits.take(len - 1) =~= lower);
        lemma_sparse_is_zeckendorf(lower);
        lemma_fib_monotonic(len, len + 1);
        if digits.last() {
            if len >= 2 {
                let lowest = lower.drop_last();
                assert(!twin_ones(digits, len - 2));
                assert(!lower.last());
                lemma_sparse_prefix(digits, len - 2);
                assert(digits.take(len - 2) =~= lowest);
                lemma_sparse_is_zeckendorf(lowest);
            } else {
                assert(weight(lower) == 0);
            }
        }
        assert(zeckendorf(weight(digits), len) =~= digits);
    }
}

/// The first digits of sparse digits are sparse.
pub proof fn lemma_sparse_prefix(digits: Seq<bool>, k: int)
    requires
        sparse(digits),
        0 <= k <= digits.len(),
    ensures
        sparse(digits.take(k)),
{
    let first = digits.take(k);
    assert forall|i: int| 0 <= i < first.len() - 1 implies !#[trigger] twin_ones(first, i) by {
        assert(!twin_ones(digits, i));
    }
}

/// Sparse digits stay sparse with a zero behind them, and with a one if
/// they do not end in a one.
pub proof fn lemma_sparse_push(digits: Seq<bool>, digit: bool)
    requires
        sparse(digits),
        digit ==> digits.len() == 0 || !digits.last(),
    ensures
        sparse(digits.push(digit)),
{
    let longer = digits.push(digit);
    assert forall|i: int| 0 <= i < longer.len() - 1 implies !#[trigger] twin_ones(longer, i) by {
        if i + 1 < digits.len() {
            assert(!twin_ones(digits, i));
        }
    }
}

/// Above the highest place of a number all greedy digits are zero.
pub proof fn lemma_zeckendorf_zeros(n: nat, m: nat, j: nat)
    requires
        n < fib(m + 1),
        m <= j,
    ensures
        zeckendorf(n, j) == zeckendorf(n, m) + zeros((j - m) as nat),
    decreases j,
{
    if m < j {
        lemma_fib_monotonic(m + 1, j);
        lemma_zeckendorf_zeros(n, m, (j - 1) as nat);
        assert(zeckendorf(n, j) =~= zeckendorf(n, m) + zeros((j - m) as nat));
    } else {
        assert(zeckendorf(n, j) =~= zeckendorf(n, m) + zeros(0));
    }
}

/// The first digits of a numeral denote no more than the whole numeral.
pub proof fn lemma_weight_prefix(digits: Seq<bool>, k: int)
    requires
        0 <= k <= digits.len(),
    ensures
        weight(digits.take(k)) <= weight(digits),
    decreases digits.len(),
{
    if k < digits.len() {
        lemma_weight_prefix(digits.drop_last(), k);
        assert(digits.drop_last().take(k) =~= digits.take(k));
    } else {
        assert(digits.take(k) =~= digits);
    }
}

/// The shape of a Fibonacci codeword: the sparse digits of the number up to
/// its highest place, which holds a one, and a closing one.
pub proof fn lemma_fib_shape(n: nat)
    requires
        n >= 1,
    ensures
        top_place(n) >= 1,
        fib(top_place(n)) <= n < fib(top_place(n) + 1),
        fib_code(n).len() == top_place(n) + 1,
        fib_code(n)[top_place(n) - 1],
        fib_code(n)[top_place(n) as int],
        sparse(zeckendorf(n, top_place(n))),
        weight(zeckendorf(n, top_place(n))) == n,
{
    lemma_top_place(n);
    lemma_zeckendorf(n, top_place(n));
}

/// Where the codeword of `m` and some sparse digits stand at the same place,
/// the digits are not longer than the numeral of `m` and denote no more
/// than `m`.
pub proof fn lemma_fib_digits(m: nat, digits: Seq<bool>, bits: Seq<bool>, pos: int)
    requires
        m >= 1,
        sparse(digits),
        stands_at(fib_code(m), bits, pos),
        stands_at(digits, bits, pos),
    ensures
        digits.len() <= top_place(m),
        weight(digits) <= m,
{
    lemma_fib_shape(m);
    let top = top_place(m);
    let code = fib_code(m);
    let numeral = zeckendorf(m, top);
    let len = digits.len() as int;
    if top < len {
        lemma_stands_at_index(digits, bits, pos, top - 1);
        lemma_stands_at_index(digits, bits, pos, top as int);
        lemma_stands_at_index(code, bits, pos, top - 1);
        lemma_stands_at_index(code, bits, pos, top as int);
        assert(twin_ones(digits, top - 1));
    }
    lemma_stands_at_prefix(code, bits, pos, len);
    assert(code.take(len) =~= numeral.take(len));
    assert(numeral.take(len) == digits);
    lemma_weight_prefix(numeral, len);
}

/// Two numbers whose Fibonacci codewords stand at the same place are equal.
pub proof fn lemma_fib_unique(a: nat, b: nat, bits: Seq<bool>, pos: int)
    requires
        a >= 1,
        b >= 1,
        stands_at(fib_code(a), bits, pos),
        stands_at(fib_code(b), bits, pos),
    ensures
        a == b,
{
    lemma_fib_numeral_stands(a, bits, pos);
    lemma_fib_numeral_stands(b, bits, pos);
    lemma_fib_shape(a);
    lemma_fib_shape(b);
    lemma_zeckendorf(a, top_place(a));
    lemma_zeckendorf(b, top_place(b));
    lemma_fib_digits(a, zeckendorf(b, top_place(b)), bits, pos);
    lemma_fib_digits(b, zeckendorf(a, top_place(a)), bits, pos);
}

/// Where the codeword of `n` stands, its numeral stands.
proof fn lemma_fib_numeral_stands(n: nat, bits: Seq<bool>, pos: int)
    requires
        n >= 1,
        stands_at(fib_code(n), bits, pos),
    ensures
        stands_at(zeckendorf(n, top_place(n)), bits, pos),
{
    lemma_fib_shape(n);
    let numeral = zeckendorf(n, top_place(n));
    lemma_stands_at_prefix(fib_code(n), bits, pos, numeral.len() as int);
    assert(fib_code(n).take(numeral.len() as int) =~= numeral);
}

/// The Fibonacci codeword of a number up to `u64::MAX` has at most 128 bits.
pub proof fn lemma_fib_len(n: nat)
    requires
        1 <= n <= u64::MAX,
    ensures
        0 < fib_code(n).len() <= 128,
{
    lemma_fib_shape(n);
    lemma_fib_growth(64);
    lemma2_to64();
    if top_place(n) >= 128 {
        lemma_fib_monotonic(128, top_place(n));
    }
}

/// Appends `count` zero bits to a buffer of bits.
fn push_falses(buffer: &mut Vec<bool>, count: usize)
    ensures
        final(buffer)@ == old(buffer)@ + zeros(count as nat),
{
    let mut i: usize = 0;
    assert(buffer@ =~= old(buffer)@ + zeros(0));
    while i < count
        invariant
            i <= count,
            buffer@ == old(buffer)@ + zeros(i as nat),
        decreases count - i,
    {
        buffer.push(false);
        i += 1;
        assert(buffer@ =~= old(buffer)@ + zeros(i as nat));
    }
}

/// A stream of Fibonacci codewords with a read cursor, and the table of the
/// Fibonacci numbers computed so far.
#[derive(Debug)]
pub struct Fibonacci {
    data: Bits,
    index: usize,
    fib: Vec<u64>,
}

impl Fibonacci {
    /// The table holds the first Fibonacci numbers, at least two of them.
    spec fn table_wf(&self) -> bool {
        &&& self.fib@.len() >= 2
        &&& forall|i: int| 0 <= i < self.fib@.len() ==> self.fib@[i] == fib(i as nat)
    }

    /// The codec that reads the codewords stored in `data`, from the first
    /// bit on.
    pub fn from_bytes(data: Vec<u8>) -> (res: Self)
        requires
            data@.len() * 8 <= usize::MAX,
        ensures
            res.wf(),
            res.stream() == unpack(data@),
            res.cursor() == 0,
    {
        let mut fib: Vec<u64> = Vec::new();
        fib.push(1);
        fib.push(1);
        Self { data: Bits::from_bytes(data), index: 0, fib }
    }

    /// Adds the next Fibonacci number to the table, unless it is beyond
    /// `u64::MAX`; says whether it was added.
    fn grow(&mut self) -> (grown: bool)
        requires
            old(self).wf(),
        ensures
            final(self).wf(),
            final(self).data == old(self).data,
            final(self).index == old(self).index,
            grown == (fib(old(self).fib@.len()) <= u64::MAX),
            final(self).fib@.len() == old(self).fib@.len() + if grown {
                1int
            } else {
                0int
            },
    {
        let len = self.fib.len();
        match self.fib[len - 1].checked_add(self.fib[len - 2]) {
            Some(next) => {
                self.fib.push(next);
                true
            },
            None => false,
        }
    }

    /// Extends the table until its last number is `code` or more, or until
    /// the next Fibonacci number is beyond `u64::MAX`.
    fn generate_fib_till(&mut self, code: u64)
        requires
            old(self).wf(),
        ensures
            final(self).wf(),
            final(self).data == old(self).data,
            final(self).index == old(self).index,
            final(self).fib@.last() >= code || fib(final(self).fib@.len()) > u64::MAX,
    {
        loop
            invariant_except_break
                self.wf(),
                self.data == old(self).data,
                self.index == old(self).index,
            ensures
                self.wf(),
                self.data == old(self).data,
                self.index == old(self).index,
                self.fib@.last() >= code || fib(self.fib@.len()) > u64::MAX,
            decreases u64::MAX - self.fib@.last(),
        {
            let len = self.fib.len();
            if self.fib[len - 1] >= code {
                break ;
            }
            proof {
                lemma_fib_monotonic((len - 1) as nat, len as nat);
                assert(self.fib@[len - 1] == fib((len - 1) as nat));
            }
            if !self.grow() {
                break ;
            }
            assert(self.fib@[len as int] == fib(len as nat));
        }
    }

    /// Extends the table up to the index `n`, unless the Fibonacci number
    /// there is beyond `u64::MAX`; says whether the table holds it.
    fn generate_fib(&mut self, n: usize) -> (held: bool)
        requires
            old(self).wf(),
        ensures
            final(self).wf(),
            final(self).data == old(self).data,
            final(self).index == old(self).index,
            held == (fib(n as nat) <= u64::MAX),
            held ==> n < final(self).fib@.len(),
    {
        while self.fib.len() <= n
            invariant
                self.wf(),
                self.data == old(self).data,
                self.index == old(self).index,
            decreases n + 1 - self.fib@.len(),
        {
            if !self.grow() {
                proof {
                    lemma_fib_monotonic(self.fib@.len(), n as nat);
                }
                return false;
            }
        }
        assert(self.fib@[n as int] == fib(n as nat));
        true
    }

    /// The highest place of `code`: the index of the largest Fibonacci
    /// number that is not above it; the table holds that number.
    fn get_largest_smaller_fib(&mut self, code: u64) -> (place: usize)
        requires
            old(self).wf(),
            code >= 1,
        ensures
            final(self).wf(),
            final(self).data == old(self).data,
            final(self).index == old(self).index,
            place == top_place(code as nat),
            place < final(self).fib@.len(),
    {
        self.generate_fib_till(code);
        let len = self.fib.len();
        let mut i: usize = 1;
        assert(self.fib@[1] == fib(1));
        loop
            invariant
                self.wf(),
                self.data == old(self).data,
                self.index == old(self).index,
                len == self.fib@.len(),
                1 <= i < len,
                fib(i as nat) <= code,
                self.fib@.last() >= code || fib(self.fib@.len()) > u64::MAX,
            decreases len - i,
        {
            if i + 1 == len {
                proof {
                    lemma_fib_monotonic(i as nat, (i + 1) as nat);
                    assert(self.fib@[i as int] == fib(i as nat));
                    lemma_top_place_unique(code as nat, i as nat);
                }
                return i;
            }
            assert(self.fib@[i + 1] == fib((i + 1) as nat));
            if code < self.fib[i + 1] {
                proof {
                    lemma_top_place_unique(code as nat, i as nat);
                }
                return i;
            }
            i += 1;
        }
    }
}

impl Creatable for Fibonacci {
    fn new() -> (res: Self) {
        let mut fib: Vec<u64> = Vec::new();
        fib.push(1);
        fib.push(1);
        Self { data: Bits::new(), index: 0, fib }
    }
}

impl UniversalCode for Fibonacci {
    closed spec fn wf(&self) -> bool {
        self.data.wf() && self.index <= self.data@.len() && self.table_wf()
    }

    closed spec fn stream(&self) -> Seq<bool> {
        self.data@
    }

    closed spec fn cursor(&self) -> nat {
        self.index as nat
    }

    open spec fn codeword(value: u64) -> Seq<bool> {
        fib_code((value + 1) as nat)
    }

    proof fn lemma_codeword_len(value: u64) {
        lemma_fib_len((value + 1) as nat);
    }

    proof fn lemma_cursor(&self) {
    }

    proof fn lemma_prefix_free(a: u64, b: u64) {
        let ca = Self::codeword(a);
        let cb = Self::codeword(b);
        assert(cb.subrange(0, ca.len() as int) =~= ca);
        assert(cb.subrange(0, cb.len() as int) =~= cb);
        lemma_fib_unique((a + 1) as nat, (b + 1) as nat, cb, 0);
    }

    fn get(&mut self) -> (res: Option<u64>) {
        let ghost bits = self.data@;
        let ghost start = self.index;
        let len = self.data.len();
        let mut n: usize = 0;
        let mut number: u64 = 0;
        let mut prev = false;
        assert(bits.subrange(start as int, start as int) =~= Seq::<bool>::empty());
        loop
            invariant
                self.wf(),
                bits == old(self).stream(),
                start == old(self).cursor(),
                self.data@ == bits,
                len == bits.len(),
                start <= self.index <= len,
                n == self.index - start,
                sparse(bits.subrange(start as int, self.index as int)),
                number == weight(bits.subrange(start as int, self.index as int)),
                prev == (n > 0 && bits[self.index - 1]),
            decreases len - self.index,
        {
            let ghost digits = bits.subrange(start as int, self.index as int);
            let ghost longer = bits.subrange(start as int, self.index + 1);
            match self.data.get(self.index) {
                None => {
                    proof {
                        assert forall|value: u64| value < u64::MAX implies !stands_at(
                            #[trigger] Self::codeword(value),
                            bits,
                            start as int,
                        ) by {
                            let m = (value + 1) as nat;
                            if stands_at(fib_code(m), bits, start as int) {
                                lemma_fib_shape(m);
                                lemma_fib_digits(m, digits, bits, start as int);
                            }
                        }
                    }
                    return None;
                },
                Some(x) => {
                    proof {
                        assert(longer.drop_last() =~= digits);
                        assert(longer.last() == x);
                    }
                    if x && prev {
                        proof {
                            lemma_sparse_is_zeckendorf(digits);
                            assert(digits.last());
                            lemma_top_place_unique(number as nat, n as nat);
                            assert(bits.subrange(start as int, self.index + 1) =~= fib_code(
                                number as nat,
                            ));
                        }
                        self.index += 1;
                        return Some(number - 1);
                    }
                    proof {
                        lemma_sparse_push(digits, x);
                        assert(longer =~= digits.push(x));
                    }
                    self.index += 1;
                    n += 1;
                    if x {
                        let sum = if self.generate_fib(n) {
                            number.checked_add(self.fib[n])
                        } else {
                            None
                        };
                        match sum {
                            Some(total) => {
                                number = total;
                            },
                            None => {
                                proof {
                                    assert forall|value: u64| value < u64::MAX implies !stands_at(
                                        #[trigger] Self::codeword(value),
                                        bits,
                                        start as int,
                                    ) by {
                                        let m = (value + 1) as nat;
                                        if stands_at(fib_code(m), bits, start as int) {
                                            lemma_fib_digits(m, longer, bits, start as int);
                                            lemma_fib_monotonic(0, (n - 1) as nat);
                                        }
                                    }
                                }
                                self.index = len;
                                return None;
                            },
                        }
                    }
                    prev = x;
                },
            }
        }
    }

    fn add(&mut self, code: u64) {
        let ghost whole = (code + 1) as nat;
        let mut rest = code + 1;
        let mut buffer: Vec<bool> = Vec::new();
        buffer.push(true);
        buffer.push(true);
        let mut n = self.get_largest_smaller_fib(rest);
        proof {
            lemma_top_place(whole);
            assert(self.fib@[n as int] == fib(n as nat));
        }
        rest -= self.fib[n];
        proof {
            lemma_fib_monotonic((n - 1) as nat, n as nat);
            assert(buffer@.reverse() =~= seq![true, true]);
            assert(zeckendorf(rest as nat, (n - 1) as nat) + buffer@.reverse() =~= fib_code(whole));
        }
        while rest > 0
            invariant
                self.wf(),
                self.data == old(self).data,
                self.index == old(self).index,
                n >= 1,
                rest < fib(n as nat),
                zeckendorf(rest as nat, (n - 1) as nat) + buffer@.reverse() == fib_code(whole),
            decreases rest,
        {
            let m = self.get_largest_smaller_fib(rest);
            let ghost before = buffer@;
            proof {
                lemma_top_place(rest as nat);
                if m >= n {
                    lemma_fib_monotonic(n as nat, m as nat);
                }
                assert(self.fib@[m as int] == fib(m as nat));
            }
            push_falses(&mut buffer, n - 1 - m);
            buffer.push(true);
            proof {
                let gap = zeros((n - 1 - m) as nat);
                let lower = zeckendorf((rest - fib(m as nat)) as nat, (m - 1) as nat);
                lemma_zeckendorf_zeros(rest as nat, m as nat, (n - 1) as nat);
                lemma_fib_monotonic((m - 1) as nat, m as nat);
                assert(buffer@.reverse() =~= seq![true] + gap + before.reverse());
                assert(zeckendorf(rest as nat, (n - 1) as nat) + before.reverse() =~= lower
                    + buffer@.reverse());
            }
            n = m;
            rest -= self.fib[n];
        }
        let ghost before = buffer@;
        push_falses(&mut buffer, n - 1);
        proof {
            let gap = zeros((n - 1) as nat);
            lemma_zeckendorf_zeros(0, 0, (n - 1) as nat);
            assert(zeckendorf(0, 0) + gap =~= gap);
            assert(buffer@.reverse() =~= gap + before.reverse());
        }
        self.data.push_reversed(&buffer);
    }

    fn len(&self) -> (res: usize) {
        self.data.len()
    }

    fn index(&self) -> (res: usize) {
        self.index
    }

    fn as_bytes(&self) -> (res: &Vec<u8>) {
        self.data.as_bytes()
    }
}

} // verus!
