//! Segment files: the name `<gen>.log` of each generation, and which
//! generations a directory listing holds, replays first, or retires.
use vstd::prelude::*;
use itertools::Itertools;

verus! {

pub open spec fn is_digit(c: u8) -> bool {
    48u8 <= c <= 57u8
}

/// The value of a string of decimal digits, most significant first.
pub open spec fn digits_value(d: Seq<u8>) -> int
    decreases d.len(),
{
    if d.len() == 0 {
        0
    } else {
        digits_value(d.drop_last()) * 10 + (d.last() - 48)
    }
}

/// `n` in decimal, without leading zeros.
pub open spec fn decimal(n: nat) -> Seq<u8>
    decreases n,
{
    if n < 10 {
        seq![(48 + n) as u8]
    } else {
        decimal(n / 10).push((48 + n % 10) as u8)
    }
}

/// `.log`
pub open spec fn log_suffix() -> Seq<u8> {
    seq![46u8, 108u8, 111u8, 103u8]
}

/// The name of the segment file of generation `gen`.
pub open spec fn log_name(gen: u64) -> Seq<u8> {
    decimal(gen as nat) + log_suffix()
}

/// A name of the form `<digits>.log`.
pub open spec fn log_name_shape(b: Seq<u8>) -> bool {
    &&& b.len() > 4
    &&& b.subrange(b.len() - 4, b.len() as int) == log_suffix()
    &&& forall|i: int| 0 <= i < b.len() - 4 ==> is_digit(#[trigger] b[i])
}

pub open spec fn name_digits(b: Seq<u8>) -> Seq<u8> {
    b.subrange(0, b.len() - 4)
}

proof fn lemma_digits_value_prefix(d: Seq<u8>, i: int)
    requires
        0 <= i <= d.len(),
        forall|j: int| 0 <= j < d.len() ==> is_digit(#[trigger] d[j]),
    ensures
        0 <= digits_value(d.take(i)) <= digits_value(d),
    decreases d.len(),
{
    if d.len() > 0 {
        assert forall|j: int| 0 <= j < d.len() - 1 implies is_digit(#[trigger] d.drop_last()[j]) by {
            assert(d.drop_last()[j] == d[j]);
        }
        assert(is_digit(d[d.len() - 1]));
        if i == d.len() {
            assert(d.take(i) =~= d);
            lemma_digits_value_prefix(d.drop_last(), 0);
        } else {
            lemma_digits_value_prefix(d.drop_last(), i);
            assert(d.drop_last().take(i) =~= d.take(i));
        }
    }
}

proof fn lemma_decimal_digits(n: nat)
    ensures
        decimal(n).len() > 0,
        forall|j: int| 0 <= j < decimal(n).len() ==> is_digit(#[trigger] decimal(n)[j]),
        digits_value(decimal(n)) == n,
    decreases n,
{
    if n >= 10 {
        lemma_decimal_digits(n / 10);
        let d = decimal(n);
        assert(d.drop_last() =~= decimal(n / 10));
        assert(d.last() == (48 + n % 10) as u8);
        vstd::arithmetic::div_mod::lemma_fundamental_div_mod(n as int, 10);
        assert forall|j: int| 0 <= j < d.len() implies is_digit(#[trigger] d[j]) by {
            if j < d.len() - 1 {
                assert(d[j] == decimal(n / 10)[j]);
            }
        }
        assert(digits_value(d) == digits_value(d.drop_last()) * 10 + (d.last() - 48));
    } else {
        let d = decimal(n);
        assert(d.drop_last() =~= Seq::<u8>::empty());
        assert(d.last() == (48 + n) as u8);
        assert(digits_value(d) == digits_value(d.drop_last()) * 10 + (d.last() - 48));
    }
}

fn push_decimal(out: &mut Vec<u8>, n: u64)
    ensures
        final(out)@ == old(out)@ + decimal(n as nat),
    decreases n,
{
    if n >= 10 {
        push_decimal(out, n / 10);
    }
    out.push(48u8 + (n % 10) as u8);
    assert(final(out)@ =~= old(out)@ + decimal(n as nat));
}

/// The file name of the segment of generation `gen`, as UTF-8 bytes.
pub fn log_file_name(gen: u64) -> (r: Vec<u8>)
    ensures
        r@ == log_name(gen),
{
    let mut out: Vec<u8> = Vec::new();
    push_decimal(&mut out, gen);
    out.push(46u8);
    out.push(108u8);
    out.push(111u8);
    out.push(103u8);
    assert(out@ =~= log_name(gen));
    out
}

/// The generation that a file name stands for: `Some` exactly for a name of
/// the form `<digits>.log` whose number fits in a `u64`.
pub fn parse_log_file_name(b: &[u8]) -> (r: Option<u64>)
    ensures
        r == (if log_name_shape(b@) && digits_value(name_digits(b@)) <= u64::MAX {
            Some(digits_value(name_digits(b@)) as u64)
        } else {
            None::<u64>
        }),
{
    let n = b.len();
    if n <= 4 || b[n - 4] != 46u8 || b[n - 3] != 108u8 || b[n - 2] != 111u8 || b[n - 1] != 103u8 {
        proof {
            if n > 4 {
                let s = b@.subrange(n - 4, n as int);
                assert(s[0] == b@[n - 4] && s[1] == b@[n - 3] && s[2] == b@[n - 2] && s[3]
                    == b@[n - 1]);
            }
        }
        return None;
    }
    assert(b@.subrange(n - 4, n as int) =~= log_suffix());
    let ghost d = name_digits(b@);
    let mut v: u64 = 0;
    let mut i: usize = 0;
    while i < n - 4
        invariant
            n == b@.len(),
            n > 4,
            d == name_digits(b@),
            i <= n - 4,
            forall|j: int| 0 <= j < i ==> is_digit(#[trigger] b@[j]),
            v == digits_value(d.take(i as int)),
        decreases n - 4 - i,
    {
        let c = b[i];
        if c < 48u8 || c > 57u8 {
            assert(!is_digit(b@[i as int]));
            return None;
        }
        let dv = (c - 48u8) as u64;
        assert(d.take(i + 1).drop_last() =~= d.take(i as int));
        assert(d[i as int] == c);
        if v > (u64::MAX - dv) / 10 {
            proof {
                assert(v * 10 + dv > u64::MAX) by (nonlinear_arith)
                    requires
                        v > (u64::MAX - dv) / 10,
                        dv <= 9,
                ;
                assert(digits_value(d.take(i + 1)) == v * 10 + dv);
                if log_name_shape(b@) {
                    assert forall|j: int| 0 <= j < d.len() implies is_digit(#[trigger] d[j]) by {
                        assert(d[j] == b@[j]);
                    }
                    lemma_digits_value_prefix(d, i + 1);
                }
            }
            return None;
        }
        v = v * 10 + dv;
        i = i + 1;
    }
    assert(d.take(i as int) =~= d);
    Some(v)
}

/// The active generation of a directory: the largest listed, or 0 when none is.
pub fn latest_generation(gens: &[u64]) -> (r: u64)
    ensures
        gens@.len() == 0 ==> r == 0,
        gens@.len() > 0 ==> gens@.contains(r),
        forall|i: int| 0 <= i < gens@.len() ==> gens@[i] <= r,
{
    let mut best: u64 = 0;
    let mut i: usize = 0;
    while i < gens.len()
        invariant
            i <= gens@.len(),
            i == 0 ==> best == 0,
            i > 0 ==> gens@.subrange(0, i as int).contains(best),
            forall|j: int| 0 <= j < i ==> gens@[j] <= best,
        decreases gens@.len() - i,
    {
        if i == 0 || gens[i] > best {
            best = gens[i];
            assert(gens@.subrange(0, i + 1)[i as int] == best);
        } else {
            assert(gens@.subrange(0, i + 1)[i as int] == gens@[i as int]);
            let ghost k = choose|k: int| 0 <= k < i && gens@.subrange(0, i as int)[k] == best;
            assert(gens@.subrange(0, i + 1)[k] == best);
        }
        i = i + 1;
    }
    if gens.len() > 0 {
        assert(gens@.subrange(0, i as int) =~= gens@);
    }
    best
}

/// The generations that a compaction into `target` retires: those below it,
/// in listing order.
pub fn stale_generations(gens: &[u64], target: u64) -> (r: Vec<u64>)
    ensures
        r@ == gens@.filter(|g: u64| g < target),
{
    let mut out: Vec<u64> = Vec::new();
    let mut i: usize = 0;
    while i < gens.len()
        invariant
            i <= gens@.len(),
            out@ == gens@.subrange(0, i as int).filter(|g: u64| g < target),
        decreases gens@.len() - i,
    {
        proof {
            reveal(Seq::filter);
            assert(gens@.subrange(0, i + 1).drop_last() =~= gens@.subrange(0, i as int));
        }
        if gens[i] < target {
            out.push(gens[i]);
        }
        i = i + 1;
    }
    assert(gens@.subrange(0, i as int) =~= gens@);
    out
}

/// Relies on itertools::Itertools::sorted: the same items, in ascending order.
#[verifier::external_body]
fn sorted_u64(v: Vec<u64>) -> (r: Vec<u64>)
    ensures
        r@.to_multiset() == v@.to_multiset(),
        forall|i: int, j: int| 0 <= i <= j < r@.len() ==> r@[i] <= r@[j],
{
    v.into_iter().sorted().collect()
}

/// The order in which the listed generations replay: ascending.
pub fn replay_order(gens: Vec<u64>) -> (r: Vec<u64>)
    ensures
        r@.to_multiset() == gens@.to_multiset(),
        forall|i: int, j: int| 0 <= i <= j < r@.len() ==> r@[i] <= r@[j],
{
    sorted_u64(gens)
}

/// A segment's name reads back as its generation.
pub proof fn lemma_log_name_round_trip(gen: u64)
    ensures
        log_name_shape(log_name(gen)),
        digits_value(name_digits(log_name(gen))) == gen,
{
    lemma_decimal_digits(gen as nat);
    let b = log_name(gen);
    let d = decimal(gen as nat);
    assert(name_digits(b) =~= d);
    assert(b.subrange(b.len() - 4, b.len() as int) =~= log_suffix());
    assert forall|i: int| 0 <= i < b.len() - 4 implies is_digit(#[trigger] b[i]) by {
        assert(b[i] == d[i]);
    }
}

} // verus!
