//! Least-significant-digit radix sort of unsigned numbers.
use vstd::arithmetic::div_mod::{lemma_mod_breakdown, lemma_small_mod};
use vstd::prelude::*;

verus! {

broadcast use {vstd::seq_lib::group_to_multiset_ensures, vstd::multiset::group_multiset_axioms};

/// `10` to the power `k`.
pub open spec fn pow10(k: nat) -> nat
    decreases k,
{
    if k == 0 {
        1
    } else {
        10 * pow10((k - 1) as nat)
    }
}

/// The number of decimal digits of `n`; `0` has one digit.
pub open spec fn digits_of(n: nat) -> nat
    decreases n,
{
    if n < 10 {
        1
    } else {
        1 + digits_of(n / 10)
    }
}

/// The values of `s` never decrease.
pub open spec fn ascending(s: Seq<usize>) -> bool {
    forall|i: int, j: int| 0 <= i < j < s.len() ==> s[i] <= s[j]
}

/// The values of `s` never decrease in their remainders modulo `m`, that is
/// in the number that their lowest digits form.
pub open spec fn ascending_below(s: Seq<usize>, m: nat) -> bool {
    forall|i: int, j: int| 0 <= i < j < s.len() ==> (#[trigger] s[i] as nat) % m <= (#[trigger] s[j] as nat) % m
}

/// The digit of `n` worth `position`.
pub open spec fn digit_at(n: nat, position: nat) -> nat {
    (n / position) % 10
}

/// Powers of ten are positive.
proof fn lemma_pow10_positive(k: nat)
    ensures
        pow10(k) >= 1,
    decreases k,
{
    if k > 0 {
        lemma_pow10_positive((k - 1) as nat);
    }
}

/// Powers of ten grow with the exponent.
proof fn lemma_pow10_monotone(a: nat, b: nat)
    requires
        a <= b,
    ensures
        pow10(a) <= pow10(b),
    decreases b,
{
    if a < b {
        lemma_pow10_monotone(a, (b - 1) as nat);
        lemma_pow10_positive((b - 1) as nat);
    }
}

/// A number of `d` digits is below `10^d`, and at least `10^(d-1)` when it
/// has more than one digit; it has no more digits than its value.
proof fn lemma_digits_bounds(n: nat)
    ensures
        digits_of(n) >= 1,
        n < pow10(digits_of(n)),
        digits_of(n) > 1 ==> pow10((digits_of(n) - 1) as nat) <= n,
        n >= 1 ==> digits_of(n) <= n,
    decreases n,
{
    reveal_with_fuel(pow10, 2);
    if n >= 10 {
        let m = n / 10;
        lemma_digits_bounds(m);
        let d = digits_of(m);
        assert(pow10(d + 1) == 10 * pow10(d));
        assert(n < 10 * pow10(d)) by (nonlinear_arith)
            requires
                m == n / 10,
                m < pow10(d),
        ;
        if d > 1 {
            assert(pow10(d) == 10 * pow10((d - 1) as nat));
            assert(10 * pow10((d - 1) as nat) <= n) by (nonlinear_arith)
                requires
                    m == n / 10,
                    pow10((d - 1) as nat) <= m,
            ;
        } else {
            assert(pow10(d) == 10);
        }
    }
}

/// Ordering by the next digit up, then by the lower digits, orders by the
/// remainder modulo ten times `position`.
proof fn lemma_next_digit_order(a: nat, b: nat, position: nat)
    requires
        position > 0,
        digit_at(a, position) < digit_at(b, position) || (digit_at(a, position) == digit_at(
            b,
            position,
        ) && a % position <= b % position),
    ensures
        a % (position * 10) <= b % (position * 10),
{
    lemma_mod_breakdown(a as int, position as int, 10);
    lemma_mod_breakdown(b as int, position as int, 10);
    let da = digit_at(a, position);
    let db = digit_at(b, position);
    let ra = a % position;
    let rb = b % position;
    assert(ra < position);
    if da < db {
        assert(position * da + ra < position * db + rb) by (nonlinear_arith)
            requires
                da < db,
                ra < position,
                rb >= 0,
        ;
    }
}

/// The digit of `number` worth `position`.
pub fn nth_digit(number: usize, position: usize) -> (digit: u8)
    requires
        position > 0,
    ensures
        digit == digit_at(number as nat, position as nat),
{
    ((number / position) % 10) as u8
}

/// The number of decimal digits of `number`.
fn decimal_digits(number: usize) -> (count: usize)
    ensures
        count == digits_of(number as nat),
{
    let mut count: usize = 1;
    let mut rest: usize = number;
    while rest >= 10
        invariant
            count + digits_of(rest as nat) == 1 + digits_of(number as nat),
            rest <= number,
        decreases rest,
    {
        proof {
            lemma_digits_bounds(number as nat);
            lemma_digits_bounds((rest / 10) as nat);
            assert(digits_of(rest as nat) == 1 + digits_of((rest / 10) as nat));
        }
        rest = rest / 10;
        count += 1;
    }
    count
}

/// The most decimal digits that any value of `arr` has; `0` for an empty
/// slice.
pub fn get_longest_number_digits(arr: &[usize]) -> (longest: usize)
    ensures
        forall|i: int| 0 <= i < arr@.len() ==> digits_of(#[trigger] arr@[i] as nat) <= longest,
        arr@.len() == 0 ==> longest == 0,
        arr@.len() > 0 ==> exists|i: int|
            0 <= i < arr@.len() && digits_of(#[trigger] arr@[i] as nat) == longest,
{
    let mut longest: usize = 0;
    let mut i: usize = 0;
    while i < arr.len()
        invariant
            i <= arr@.len(),
            forall|k: int| 0 <= k < i ==> digits_of(#[trigger] arr@[k] as nat) <= longest,
            i == 0 ==> longest == 0,
            i > 0 ==> exists|k: int| 0 <= k < i && digits_of(#[trigger] arr@[k] as nat) == longest,
        decreases arr@.len() - i,
    {
        let digits = decimal_digits(arr[i]);
        if digits > longest {
            longest = digits;
        }
        i += 1;
    }
    longest
}

/// Sorts by the lowest decimal digit, then by each next digit up, for as many
/// rounds as the longest number has digits. Each round deals the values, from
/// the front, into ten buckets by their digit of that round, then gathers the
/// buckets `0` to `9` back in order, each from its front.
pub fn radix_sort(arr: &[usize]) -> (result: Vec<usize>)
    ensures
        result@.to_multiset() == arr@.to_multiset(),
        ascending(result@),
{
    let mut position: usize = 1;
    let mut result = vstd::slice::slice_to_vec(arr);
    let mut longest_number_digits = get_longest_number_digits(arr);
    let mut buckets: Vec<Vec<usize>> = Vec::new();
    while buckets.len() < 10
        invariant
            buckets@.len() <= 10,
            forall|b: int| 0 <= b < buckets@.len() ==> (#[trigger] buckets@[b])@.len() == 0,
        decreases 10 - buckets@.len(),
    {
        buckets.push(Vec::with_capacity(arr.len()));
    }
    let ghost longest = longest_number_digits as nat;
    let ghost mut round: nat = 0;
    proof {
        if longest > 1 {
            let i = choose|i: int| 0 <= i < arr@.len() && digits_of(#[trigger] arr@[i] as nat) == longest;
            lemma_digits_bounds(arr@[i] as nat);
        }
        assert forall|k: int| 0 <= k < result@.len() implies (#[trigger] result@[k] as nat) % 1 == 0 by {}
    }
    while longest_number_digits > 0
        invariant
            result@.to_multiset() == arr@.to_multiset(),
            round + longest_number_digits == longest,
            longest_number_digits > 0 ==> position as nat == pow10(round),
            longest > 1 ==> pow10((longest - 1) as nat) <= usize::MAX,
            forall|i: int| 0 <= i < arr@.len() ==> digits_of(#[trigger] arr@[i] as nat) <= longest,
            ascending_below(result@, pow10(round)),
            buckets@.len() == 10,
            forall|b: int| 0 <= b < 10 ==> (#[trigger] buckets@[b])@.len() == 0,
        decreases longest_number_digits,
    {
        proof {
            lemma_pow10_positive(round);
        }
        let ghost input = result@;
        let ghost p = position as nat;
        proof {
            assert forall|b: int, v: usize| 0 <= b < 10 implies #[trigger] buckets@[b]@.to_multiset().count(v)
                == (if digit_at(v as nat, p) == b {
                input.subrange(0, 0).to_multiset().count(v)
            } else {
                0
            }) by {
                assert(buckets@[b]@ =~= Seq::<usize>::empty());
                assert(input.subrange(0, 0) =~= Seq::<usize>::empty());
            }
        }
        // Deal each value, from the front, into the bucket of its digit.
        while !result.is_empty()
            invariant
                position > 0,
                p == position as nat,
                buckets@.len() == 10,
                result@.len() <= input.len(),
                result@ == input.subrange(input.len() - result@.len(), input.len() as int),
                ascending_below(input, p),
                forall|b: int, k: int|
                    0 <= b < 10 && 0 <= k < buckets@[b]@.len() ==> digit_at(
                        #[trigger] buckets@[b]@[k] as nat,
                        p,
                    ) == b,
                forall|b: int| 0 <= b < 10 ==> ascending_below(#[trigger] buckets@[b]@, p),
                forall|b: int, k: int, j: int|
                    0 <= b < 10 && 0 <= k < buckets@[b]@.len() && 0 <= j < result@.len() ==> (
                    #[trigger] buckets@[b]@[k] as nat) % p <= (#[trigger] result@[j] as nat) % p,
                forall|b: int, v: usize|
                    0 <= b < 10 ==> #[trigger] buckets@[b]@.to_multiset().count(v) == (if digit_at(
                        v as nat,
                        p,
                    ) == b {
                        input.subrange(0, input.len() - result@.len()).to_multiset().count(v)
                    } else {
                        0
                    }),
            decreases result@.len(),
        {
            let ghost taken = input.len() - result@.len();
            let ghost before = buckets@;
            let ghost rest = result@;
            let number = result.remove(0);
            let digit = nth_digit(number, position);
            buckets[digit as usize].push(number);
            proof {
                assert(input.subrange(0, taken + 1) =~= input.subrange(0, taken).push(number));
                assert(result@ =~= input.subrange(input.len() - result@.len(), input.len() as int));
                assert forall|b: int| 0 <= b < 10 implies ascending_below(#[trigger] buckets@[b]@, p) by {
                    if b == digit {
                        assert(buckets@[b]@ == before[b]@.push(number));
                    } else {
                        assert(buckets@[b] == before[b]);
                    }
                }
                assert forall|b: int, v: usize| 0 <= b < 10 implies #[trigger] buckets@[b]@.to_multiset().count(v) == (if digit_at(v as nat, p) == b {
                    input.subrange(0, taken + 1).to_multiset().count(v)
                } else {
                    0
                }) by {
                    if b == digit {
                        assert(buckets@[b]@ == before[b]@.push(number));
                    } else {
                        assert(buckets@[b] == before[b]);
                    }
                }
                assert forall|b: int, k: int, j: int|
                    0 <= b < 10 && 0 <= k < buckets@[b]@.len() && 0 <= j < result@.len() implies (
                    #[trigger] buckets@[b]@[k] as nat) % p <= (#[trigger] result@[j] as nat) % p by {
                    assert(result@[j] == input[taken + 1 + j]);
                    if b == digit && k == buckets@[b]@.len() - 1 {
                        assert(number == input[taken]);
                    } else {
                        if b == digit {
                            assert(buckets@[b]@[k] == before[b]@[k]);
                        } else {
                            assert(buckets@[b] == before[b]);
                        }
                        assert(rest[j + 1] == result@[j]);
                        assert((before[b]@[k] as nat) % p <= (rest[j + 1] as nat) % p);
                    }
                }
            }
        }
        proof {
            assert(input.subrange(0, input.len() as int) =~= input);
        }
        // Gather the buckets back in order, each from its front.
        let ghost dealt = buckets@;
        let mut b: usize = 0;
        while b < 10
            invariant
                position > 0,
                p == position as nat,
                b <= 10,
                buckets@.len() == 10,
                forall|c: int| 0 <= c < b ==> (#[trigger] buckets@[c])@.len() == 0,
                forall|c: int| b <= c < 10 ==> #[trigger] buckets@[c] == dealt[c],
                forall|c: int, k: int|
                    0 <= c < 10 && 0 <= k < dealt[c]@.len() ==> digit_at(
                        #[trigger] dealt[c]@[k] as nat,
                        p,
                    ) == c,
                forall|c: int| 0 <= c < 10 ==> ascending_below(#[trigger] dealt[c]@, p),
                forall|c: int, v: usize|
                    0 <= c < 10 ==> #[trigger] dealt[c]@.to_multiset().count(v) == (if digit_at(
                        v as nat,
                        p,
                    ) == c {
                        input.to_multiset().count(v)
                    } else {
                        0
                    }),
                ascending_below(result@, p * 10),
                forall|k: int|
                    0 <= k < result@.len() ==> digit_at(#[trigger] result@[k] as nat, p) < b,
                forall|v: usize| #[trigger]
                    result@.to_multiset().count(v) == if digit_at(v as nat, p) < b {
                        input.to_multiset().count(v)
                    } else {
                        0
                    },
            decreases 10 - b,
        {
            let ghost full = dealt[b as int]@;
            while !buckets[b].is_empty()
                invariant
                    position > 0,
                    p == position as nat,
                    b < 10,
                    buckets@.len() == 10,
                    forall|c: int| 0 <= c < b ==> (#[trigger] buckets@[c])@.len() == 0,
                    forall|c: int| b < c < 10 ==> #[trigger] buckets@[c] == dealt[c],
                    buckets@[b as int]@.len() <= full.len(),
                    buckets@[b as int]@ == full.subrange(
                        full.len() - buckets@[b as int]@.len(),
                        full.len() as int,
                    ),
                    forall|k: int| 0 <= k < full.len() ==> digit_at(#[trigger] full[k] as nat, p) == b,
                    ascending_below(full, p),
                    forall|v: usize| #[trigger] full.to_multiset().count(v) == (if digit_at(v as nat, p) == b {
                        input.to_multiset().count(v)
                    } else {
                        0
                    }),
                    ascending_below(result@, p * 10),
                    forall|k: int|
                        0 <= k < result@.len() ==> digit_at(#[trigger] result@[k] as nat, p) <= b,
                    forall|k: int, j: int|
                        0 <= k < result@.len() && 0 <= j < buckets@[b as int]@.len() && digit_at(
                            result@[k] as nat,
                            p,
                        ) == b ==> (#[trigger] result@[k] as nat) % p <= (
                        #[trigger] buckets@[b as int]@[j] as nat) % p,
                    forall|v: usize| #[trigger]
                        result@.to_multiset().count(v) == (if digit_at(v as nat, p) < b {
                            input.to_multiset().count(v)
                        } else {
                            0
                        }) + (if digit_at(v as nat, p) == b {
                            full.subrange(0, full.len() - buckets@[b as int]@.len()).to_multiset().count(v)
                        } else {
                            0
                        }),
                decreases buckets@[b as int]@.len(),
            {
                let ghost drawn = full.len() - buckets@[b as int]@.len();
                let ghost rest_before = buckets@[b as int]@;
                let number = buckets[b].remove(0);
                let ghost prior = result@;
                result.push(number);
                proof {
                    assert(number == full[drawn]);
                    assert(full.subrange(0, drawn + 1) =~= full.subrange(0, drawn).push(number));
                    assert(buckets@[b as int]@ =~= full.subrange(drawn + 1, full.len() as int));
                    assert forall|k: int, j: int| 0 <= k < j < result@.len() implies (
                    #[trigger] result@[k] as nat) % (p * 10) <= (#[trigger] result@[j] as nat) % (p * 10) by {
                        if j == result@.len() - 1 {
                            lemma_next_digit_order(result@[k] as nat, number as nat, p);
                        }
                    }
                }
            }
            proof {
                assert(full.subrange(0, full.len() as int) =~= full);
            }
            b += 1;
        }
        proof {
            assert(result@.to_multiset() =~= input.to_multiset());
            assert(pow10(round + 1) == pow10(round) * 10);
        }
        longest_number_digits -= 1;
        if longest_number_digits > 0 {
            proof {
                lemma_pow10_monotone(round + 1, (longest - 1) as nat);
            }
            position = position * 10;
        }
        proof {
            round = round + 1;
        }
    }
    proof {
        assert forall|k: int| 0 <= k < result@.len() implies (#[trigger] result@[k] as nat) % pow10(
            round,
        ) == result@[k] by {
            let x = result@[k];
            assert(result@.to_multiset().count(x) > 0);
            assert(arr@.contains(x));
            let i = choose|i: int| 0 <= i < arr@.len() && arr@[i] == x;
            assert(digits_of(arr@[i] as nat) <= longest);
            lemma_digits_bounds(x as nat);
            lemma_pow10_monotone(digits_of(x as nat), round);
            lemma_small_mod(x as nat, pow10(round));
        }
    }
    result
}

} // verus!
