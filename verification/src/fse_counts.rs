//! Symbol distributions: scaling a histogram onto a power-of-two table, and
//! the header bytes that describe a distribution.

use crate::bits_encode::{lemma_field_at, lemma_prefix_holds, stream_holds, BitCStream, Bits};
use crate::error::Error;
use crate::fse::{
    abs16, count_field, ncount_from, shrink_bits, spec_read_ncount, sum_abs, valid_counts, zero_run, zeros16,
    NCountView,
};
use crate::fse_counts_model::{
    count_bits, counts_described, line_settled, most_frequent, poor_settled, rest_settled, round_handed,
    rounds_handed, run_bits, slowly_scaled, small_settled, sole_symbol, spec_normalize, spec_write_ncount, zeros_from,
    NormView, Settling,
};
use crate::fse_encode::{
    lemma_start_monotone, lemma_start_step, min_table_log, spec_min_table_log, start_of, FSE_DEFAULT_TABLELOG,
    FSE_MAX_TABLELOG, FSE_MIN_TABLELOG,
};
use crate::histogram::{lemma_total_bounds, total_count};
use crate::math::{bits_at, lemma_bits_at_sub, pow2_u64};
use crate::normalize_laws::law_histograms_scale;
use vstd::arithmetic::div_mod::{
    lemma_fundamental_div_mod, lemma_fundamental_div_mod_converse, lemma_mod_bound, lemma_small_mod,
};
use vstd::arithmetic::power2::{
    lemma2_to64, lemma_pow2_adds, lemma_pow2_pos, lemma_pow2_strictly_increases, lemma_pow2_unfold, pow2,
};
use vstd::prelude::*;

verus! {

// ---------------------------------------------------------------------------
// Describing a distribution.

/// Any bytes that start with `h` describe `counts` with their first
/// `h.len()` bytes.
pub open spec fn describes(h: Seq<u8>, counts: Seq<i16>, log: nat) -> bool {
    forall|rest: Seq<u8>, max_symbol: nat, max_log: nat|
        max_symbol + 1 >= counts.len() && max_log >= log ==> #[trigger] spec_read_ncount(
            h + rest,
            max_symbol,
            max_log,
        ) == Ok::<NCountView, Error>(NCountView { counts, log, bytes: h.len() })
}

/// `b1` is `b0` with a run of `run` zero counts appended.
spec fn run_written(b0: Bits, b1: Bits, run: nat) -> bool {
    &&& b1.len >= b0.len
    &&& forall|data: Seq<u8>| #[trigger] stream_holds(data, b1) ==> stream_holds(data, b0)
    &&& forall|data: Seq<u8>, counts: Seq<i16>, max_symbol: nat|
        stream_holds(data, b1) && counts.len() + run <= max_symbol + 1 ==> #[trigger] zero_run(
            data,
            b0.len,
            counts,
            max_symbol,
        ) == Ok::<(Seq<i16>, nat), Error>((counts + zeros16(run), b1.len))
}

/// The run read so far leaves the same run to read.
spec fn run_partial(b0: Bits, b: Bits, done: nat) -> bool {
    &&& forall|data: Seq<u8>| #[trigger] stream_holds(data, b) ==> stream_holds(data, b0)
    &&& forall|data: Seq<u8>, counts: Seq<i16>, max_symbol: nat|
        stream_holds(data, b) && counts.len() + done <= max_symbol + 1 ==> #[trigger] zero_run(
            data,
            b0.len,
            counts,
            max_symbol,
        ) == zero_run(data, b.len, counts + zeros16(done), max_symbol)
}

/// Writes a run of `run` zero counts: two-bit flags, 3 for three zeros and
/// more to come.
#[verifier::rlimit(30)]
fn write_zero_run(w: &mut BitCStream, run: usize)
    requires
        old(w).wf(),
    ensures
        final(w).wf(),
        run_written(old(w).bits(), final(w).bits(), run as nat),
        final(w).bits() == run_bits(old(w).bits(), run as nat),
{
    let ghost b0 = w.bits();
    let mut done: usize = 0;
    proof {
        lemma2_to64();
        assert forall|data: Seq<u8>, counts: Seq<i16>, max_symbol: nat|
            stream_holds(data, b0) && counts.len() <= max_symbol + 1 implies #[trigger] zero_run(
            data,
            b0.len,
            counts,
            max_symbol,
        ) == zero_run(data, b0.len, counts + zeros16(0), max_symbol) by {
            assert(counts + zeros16(0) =~= counts);
        }
    }
    while run - done >= 3
        invariant
            done <= run,
            w.wf(),
            w.bits().len >= b0.len,
            run_partial(b0, w.bits(), done as nat),
            run_bits(b0, run as nat) == run_bits(w.bits(), (run - done) as nat),
        decreases run - done,
    {
        proof {
            reveal_with_fuel(run_bits, 1);
        }
        let ghost b = w.bits();
        proof {
            lemma2_to64();
            w.lemma_bits_bound();
        }
        w.add_bits(3, 2);
        proof {
            let b1 = w.bits();
            assert forall|data: Seq<u8>| #[trigger] stream_holds(data, b1) implies stream_holds(
                data,
                b0,
            ) by {
                lemma_field_at(data, b, 3, 2);
            }
            assert forall|data: Seq<u8>, counts: Seq<i16>, max_symbol: nat|
                stream_holds(data, b1) && counts.len() + (done + 3) <= max_symbol
                    + 1 implies #[trigger] zero_run(data, b0.len, counts, max_symbol) == zero_run(
                data,
                b1.len,
                counts + zeros16((done + 3) as nat),
                max_symbol,
            ) by {
                lemma_field_at(data, b, 3, 2);
                let c = counts + zeros16(done as nat);
                assert(c + zeros16(3) =~= counts + zeros16((done + 3) as nat));
                assert(zero_run(data, b0.len, counts, max_symbol) == zero_run(
                    data,
                    b.len,
                    c,
                    max_symbol,
                ));
            }
        }
        done = done + 3;
    }
    let ghost b = w.bits();
    let left: usize = run - done;
    proof {
        reveal_with_fuel(run_bits, 1);
        lemma2_to64();
        w.lemma_bits_bound();
        lemma_small_mod(left as nat, 4);
    }
    w.add_bits(left as u64, 2);
    proof {
        let b1 = w.bits();
        assert forall|data: Seq<u8>| #[trigger] stream_holds(data, b1) implies stream_holds(
            data,
            b0,
        ) by {
            lemma_field_at(data, b, left as nat, 2);
        }
        assert forall|data: Seq<u8>, counts: Seq<i16>, max_symbol: nat|
            stream_holds(data, b1) && counts.len() + run <= max_symbol
                + 1 implies #[trigger] zero_run(data, b0.len, counts, max_symbol) == Ok::<
            (Seq<i16>, nat),
            Error,
        >((counts + zeros16(run as nat), b1.len)) by {
            lemma_field_at(data, b, left as nat, 2);
            let c = counts + zeros16(done as nat);
            assert(c + zeros16(left as nat) =~= counts + zeros16(run as nat));
            assert(zero_run(data, b0.len, counts, max_symbol) == zero_run(
                data,
                b.len,
                c,
                max_symbol,
            ));
        }
    }
}

/// `b1` is `b0` with the count field `value` appended.
spec fn count_written(b0: Bits, b1: Bits, value: int, nb: nat, remaining: int) -> bool {
    forall|data: Seq<u8>| #[trigger]
        stream_holds(data, b1) ==> stream_holds(data, b0) && count_field(
            data,
            b0.len,
            nb,
            remaining,
        ) == (value, (b1.len - b0.len) as nat)
}

/// Writes one count field: values below `2^nb - 1 - remaining` take one bit
/// less.
#[verifier::rlimit(30)]
fn write_count(w: &mut BitCStream, value: u32, nb_bits: u32, remaining: u32)
    requires
        old(w).wf(),
        1 <= nb_bits <= 16,
        pow2((nb_bits - 1) as nat) <= remaining < 2 * pow2((nb_bits - 1) as nat),
        value <= remaining,
    ensures
        final(w).wf(),
        final(w).bits().len >= old(w).bits().len,
        count_written(
            old(w).bits(),
            final(w).bits(),
            value as int,
            nb_bits as nat,
            remaining as int,
        ),
        final(w).bits() == count_bits(
            old(w).bits(),
            value as int,
            nb_bits as nat,
            remaining as int,
        ),
{
    proof {
        reveal(count_bits);
    }
    let ghost b0 = w.bits();
    let ghost nb = nb_bits as nat;
    let ghost m = (nb - 1) as nat;
    proof {
        w.lemma_bits_bound();
        lemma2_to64();
        if m < 15 {
            lemma_pow2_strictly_increases(m, 15);
        }
        lemma_pow2_unfold(nb);
        lemma_pow2_pos(m);
    }
    let threshold: u32 = pow2_u64(nb_bits - 1) as u32;
    let max: u32 = 2 * threshold - 1 - remaining;
    let v: u32 = if value >= threshold {
        value + max
    } else {
        value
    };
    if v < max {
        w.add_bits(v as u64, nb_bits - 1);
        proof {
            assert forall|data: Seq<u8>| #[trigger] stream_holds(
                data,
                w.bits(),
            ) implies stream_holds(data, b0) && count_field(data, b0.len, nb, remaining as int) == (
                value as int,
                (w.bits().len - b0.len) as nat,
            ) by {
                lemma_field_at(data, b0, v as nat, m);
                lemma_small_mod(v as nat, pow2(m));
            }
        }
    } else {
        w.add_bits(v as u64, nb_bits);
        proof {
            assert forall|data: Seq<u8>| #[trigger] stream_holds(
                data,
                w.bits(),
            ) implies stream_holds(data, b0) && count_field(data, b0.len, nb, remaining as int) == (
                value as int,
                (w.bits().len - b0.len) as nat,
            ) by {
                lemma_field_at(data, b0, v as nat, nb);
                lemma_small_mod(v as nat, pow2(nb));
                lemma_bits_at_sub(data, b0.len, nb, 0, m);
                let low = bits_at(data, b0.len, m);
                assert(v as nat / pow2(0) == v) by {
                    assert(pow2(0) == 1);
                }
                assert(b0.len + 0 == b0.len);
                if v >= threshold {
                    lemma_fundamental_div_mod_converse(
                        v as int,
                        threshold as int,
                        1,
                        v - threshold,
                    );
                } else {
                    lemma_small_mod(v as nat, pow2(m));
                }
            }
        }
    }
}

/// What has been written of `norm` leaves the reader where the writer is.
spec fn counts_written(
    b: Bits,
    norm: Seq<i16>,
    log: nat,
    symbol: nat,
    remaining: int,
    nb: nat,
    previous0: bool,
) -> bool {
    &&& forall|data: Seq<u8>| #[trigger] stream_holds(data, b) ==> bits_at(data, 0, 4) == log - 5
    &&& forall|data: Seq<u8>, max_symbol: nat|
        stream_holds(data, b) && max_symbol + 1 >= symbol ==> #[trigger] ncount_from(
            data,
            4,
            pow2(log) as int + 1,
            log + 1,
            Seq::empty(),
            false,
            max_symbol,
        ) == ncount_from(data, b.len, remaining, nb, norm.take(symbol as int), previous0, max_symbol)
}

#[verifier::rlimit(30)]
proof fn lemma_counts_written_step(
    b: Bits,
    b1: Bits,
    b2: Bits,
    norm: Seq<i16>,
    log: nat,
    from: nat,
    symbol: nat,
    remaining: int,
    nb: nat,
    previous0: bool,
)
    requires
        counts_written(b, norm, log, from, remaining, nb, previous0),
        from <= symbol < norm.len(),
        forall|i: int| from <= i < symbol ==> norm[i] == 0,
        norm[symbol as int] >= -1,
        if previous0 {
            run_written(b, b1, (symbol - from) as nat)
        } else {
            b1 == b && symbol == from
        },
        count_written(b1, b2, norm[symbol as int] + 1, nb, remaining),
        b2.len >= b1.len,
        remaining > 1,
        remaining - abs16(norm[symbol as int]) >= 1,
    ensures
        counts_written(
            b2,
            norm,
            log,
            symbol + 1,
            remaining - abs16(norm[symbol as int]),
            shrink_bits(nb, remaining - abs16(norm[symbol as int])),
            norm[symbol as int] == 0,
        ),
{
    let c = norm[symbol as int];
    let left = remaining - abs16(c);
    assert(norm.take(from as int) + zeros16((symbol - from) as nat) =~= norm.take(symbol as int));
    assert(norm.take(symbol as int).push(c) =~= norm.take(symbol as int + 1));
    assert forall|data: Seq<u8>| #[trigger] stream_holds(data, b2) implies bits_at(data, 0, 4) == log
        - 5 by {
        assert(stream_holds(data, b1));
        assert(stream_holds(data, b));
    }
    assert forall|data: Seq<u8>, max_symbol: nat|
        stream_holds(data, b2) && max_symbol + 1 >= symbol + 1 implies #[trigger] ncount_from(
        data,
        4,
        pow2(log) as int + 1,
        log + 1,
        Seq::empty(),
        false,
        max_symbol,
    ) == ncount_from(
        data,
        b2.len,
        left,
        shrink_bits(nb, left),
        norm.take(symbol as int + 1),
        c == 0,
        max_symbol,
    ) by {
        assert(stream_holds(data, b1));
        assert(stream_holds(data, b));
        let counts = norm.take(from as int);
        if previous0 {
            assert(zero_run(data, b.len, counts, max_symbol) == Ok::<(Seq<i16>, nat), Error>(
                (norm.take(symbol as int), b1.len),
            ));
        }
        assert(count_field(data, b1.len, nb, remaining) == (c + 1, (b2.len - b1.len) as nat));
        assert(b1.len + (b2.len - b1.len) as nat == b2.len);
    }
}

/// A result by its bytes.
pub open spec fn bytes_or_error(r: Result<Vec<u8>, Error>) -> Result<Seq<u8>, Error> {
    match r {
        Ok(v) => Ok(v@),
        Err(e) => Err(e),
    }
}

/// Serializes a distribution. The symbols after the one that fills the table
/// are left out.
#[verifier::rlimit(60)]
pub fn write_ncount(norm: &[i16], max_symbol: u32, table_log: u32) -> (r: Result<Vec<u8>, Error>)
    requires
        norm@.len() == max_symbol + 1,
        5 <= table_log <= 15,
        forall|s: int| 0 <= s < norm@.len() ==> #[trigger] norm@[s] >= -1,
    ensures
        match r {
            Ok(h) => exists|k: int|
                0 < k <= norm@.len() && norm@[k - 1] != 0 && #[trigger] start_of(norm@, k) == pow2(
                    table_log as nat,
                ) && describes(h@, norm@.take(k), table_log as nat),
            Err(e) => {
                &&& forall|k: int|
                    0 <= k <= norm@.len() ==> #[trigger] start_of(norm@, k) != pow2(
                        table_log as nat,
                    )
                &&& e == if sum_abs(norm@) > pow2(table_log as nat) {
                    Error::Encode("FSE write: incorrect distribution")
                } else {
                    Error::Encode("FSE write: distribution not normalized")
                }
            },
        },
        bytes_or_error(r) == spec_write_ncount(norm@, table_log as nat),
{
    let ghost log = table_log as nat;
    let ghost size = pow2(log);
    proof {
        lemma2_to64();
        if log < 15 {
            lemma_pow2_strictly_increases(log, 15);
        }
        lemma_pow2_strictly_increases(1, log);
        assert(norm@.take(norm@.len() as int) =~= norm@);
        assert(norm@.take(0) =~= Seq::<i16>::empty());
    }
    let alphabet: usize = norm.len();
    let mut w = BitCStream::new();
    w.add_bits((table_log - 5) as u64, 4);
    let mut remaining: u32 = pow2_u64(table_log) as u32 + 1;
    let mut nb_bits: u32 = table_log + 1;
    let mut symbol: usize = 0;
    let mut previous0: bool = false;
    proof {
        let b0 = Bits { num: 0, len: 0 };
        lemma_small_mod((log - 5) as nat, 16);
        assert forall|data: Seq<u8>| #[trigger] stream_holds(data, w.bits()) implies bits_at(
            data,
            0,
            4,
        ) == log - 5 by {
            lemma_field_at(data, b0, (log - 5) as nat, 4);
        }
        lemma_pow2_unfold(log + 1);
    }
    let ghost whole = spec_write_ncount(norm@, log);
    while symbol < alphabet && remaining > 1
        invariant
            whole == spec_write_ncount(norm@, table_log as nat),
            whole == counts_described(
                norm@,
                symbol as nat,
                remaining as int,
                nb_bits as nat,
                previous0,
                w.bits(),
            ),
            alphabet == norm@.len(),
            symbol <= alphabet,
            log == table_log as nat,
            5 <= log <= 15,
            size == pow2(log),
            size <= 32768,
            forall|s: int| 0 <= s < norm@.len() ==> #[trigger] norm@[s] >= -1,
            w.wf(),
            1 <= nb_bits <= log + 1,
            pow2((nb_bits - 1) as nat) <= remaining < 2 * pow2((nb_bits - 1) as nat),
            remaining == size + 1 - start_of(norm@, symbol as int),
            1 <= remaining,
            previous0 ==> symbol > 0,
            remaining == 1 ==> symbol > 0 && norm@[symbol - 1] != 0,
            forall|k: int| 0 <= k < symbol ==> #[trigger] start_of(norm@, k) < size,
            counts_written(
                w.bits(),
                norm@,
                log,
                symbol as nat,
                remaining as int,
                nb_bits as nat,
                previous0,
            ),
        decreases alphabet - symbol,
    {
        let from: usize = symbol;
        let ghost b = w.bits();
        proof {
            reveal_with_fuel(counts_described, 1);
        }
        if previous0 {
            while symbol < alphabet && norm[symbol] == 0
                invariant
                    zeros_from(norm@, from as nat) == symbol - from + zeros_from(
                        norm@,
                        symbol as nat,
                    ),
                    from <= symbol <= alphabet,
                    alphabet == norm@.len(),
                    forall|i: int| from <= i < symbol ==> norm@[i] == 0,
                    start_of(norm@, symbol as int) == start_of(norm@, from as int),
                    start_of(norm@, from as int) < size,
                    forall|k: int| 0 <= k < symbol ==> #[trigger] start_of(norm@, k) < size,
                decreases alphabet - symbol,
            {
                proof {
                    reveal_with_fuel(zeros_from, 1);
                    lemma_start_step(norm@, symbol as int);
                }
                symbol = symbol + 1;
            }
            proof {
                reveal_with_fuel(zeros_from, 1);
            }
            if symbol == alphabet {
                proof {
                    assert(norm@.take(norm@.len() as int) =~= norm@);
                    assert forall|k: int| 0 <= k <= norm@.len() implies #[trigger] start_of(
                        norm@,
                        k,
                    ) != size by {
                        lemma_start_monotone(norm@, k, norm@.len() as int);
                    }
                }
                return Err(Error::Encode("FSE write: distribution not normalized"));
            }
            write_zero_run(&mut w, symbol - from);
        }
        let ghost b1 = w.bits();
        let raw: i16 = norm[symbol];
        let count: u32 = if raw < 0 {
            1
        } else {
            raw as u32
        };
        proof {
            lemma_start_step(norm@, symbol as int);
        }
        if count >= remaining {
            proof {
                assert(norm@.take(norm@.len() as int) =~= norm@);
                lemma_start_monotone(norm@, symbol + 1, norm@.len() as int);
                assert forall|k: int| 0 <= k <= norm@.len() implies #[trigger] start_of(norm@, k)
                    != size by {
                    if k > symbol {
                        lemma_start_monotone(norm@, symbol + 1, k);
                    }
                }
            }
            return Err(Error::Encode("FSE write: incorrect distribution"));
        }
        write_count(&mut w, (raw as i32 + 1) as u32, nb_bits, remaining);
        proof {
            lemma_counts_written_step(
                b,
                b1,
                w.bits(),
                norm@,
                log,
                from as nat,
                symbol as nat,
                remaining as int,
                nb_bits as nat,
                previous0,
            );
        }
        let ghost nb0 = nb_bits as nat;
        remaining = remaining - count;
        symbol = symbol + 1;
        previous0 = raw == 0;
        let mut threshold: u32 = pow2_u64(nb_bits - 1) as u32;
        proof {
            lemma2_to64();
            if nb_bits - 1 < 15 {
                lemma_pow2_strictly_increases((nb_bits - 1) as nat, 15);
            }
        }
        while remaining < threshold
            invariant
                1 <= nb_bits <= nb0,
                nb0 <= 16,
                threshold == pow2((nb_bits - 1) as nat),
                1 <= remaining < 2 * threshold,
                shrink_bits(nb0, remaining as int) == shrink_bits(nb_bits as nat, remaining as int),
            decreases nb_bits,
        {
            proof {
                lemma2_to64();
                lemma_pow2_unfold((nb_bits - 1) as nat);
            }
            nb_bits = nb_bits - 1;
            threshold = threshold / 2;
        }
    }
    proof {
        reveal_with_fuel(counts_described, 1);
    }
    if remaining != 1 {
        proof {
            assert(norm@.take(norm@.len() as int) =~= norm@);
        }
        return Err(Error::Encode("FSE write: distribution not normalized"));
    }
    let ghost b = w.bits();
    proof {
        w.lemma_bits_bound();
    }
    let out: Vec<u8> = w.finish();
    proof {
        let counts = norm@.take(symbol as int);
        assert forall|rest: Seq<u8>, max: nat, max_log: nat|
            max + 1 >= counts.len() && max_log >= log implies #[trigger] spec_read_ncount(
            out@ + rest,
            max,
            max_log,
        ) == Ok::<NCountView, Error>(NCountView { counts, log, bytes: out@.len() }) by {
            lemma_prefix_holds(b, out@, rest);
            assert(ncount_from(
                out@ + rest,
                4,
                pow2(log) as int + 1,
                log + 1,
                Seq::empty(),
                false,
                max,
            ) == Ok::<(Seq<i16>, nat), Error>((counts, b.len)));
        }
        assert(start_of(norm@, symbol as int) == size);
    }
    Ok(out)
}

/// The distribution a header describes is the whole of `norm` when `norm` is
/// valid and its last symbol is present.
pub proof fn lemma_whole_described(norm: Seq<i16>, log: nat, k: int)
    requires
        valid_counts(norm, log),
        norm.last() != 0,
        0 < k <= norm.len(),
        start_of(norm, k) == pow2(log),
    ensures
        norm.take(k) == norm,
{
    assert(norm.take(norm.len() as int) =~= norm);
    if k < norm.len() {
        lemma_start_monotone(norm, k, norm.len() - 1);
        lemma_start_step(norm, norm.len() - 1);
    }
}

// ---------------------------------------------------------------------------
// Scaling a histogram.

/// The result of scaling a histogram.
pub enum Normalized {
    /// A single symbol carries the entire count.
    Rle(u8),
    /// Scaled counts. A count of `-1` is a probability below one state that
    /// still occupies one.
    Table(Vec<i16>),
}

/// How much of a state a small share must exceed its whole states by, in
/// units of `2^-20`, to be rounded up.
pub const REST_TO_BEAT: [u64; 8] = [0, 473195, 504333, 520860, 550000, 700000, 750000, 830000];

/// The states that `c` out of `total` is worth in a table of `2^log` states:
/// rounded down, but for small shares rounded up past a threshold.
pub open spec fn share(c: nat, total: nat, log: nat) -> nat {
    let unit = pow2((62 - log) as nat);
    let x = c * (pow2(62) / total);
    let whole = x / unit;
    if whole < 8 && x % unit > pow2((42 - log) as nat) * REST_TO_BEAT[whole as int] as nat {
        whole + 1
    } else {
        whole
    }
}

/// The states that a symbol gets at first.
pub open spec fn first_count(c: nat, total: nat, log: nat, low: i16) -> i16 {
    if c == 0 {
        0
    } else if c <= total / pow2(log) {
        low
    } else {
        share(c, total, log) as i16
    }
}

pub open spec fn first_counts(count: Seq<u32>, total: nat, log: nat, low: i16) -> Seq<i16> {
    Seq::new(count.len(), |s: int| first_count(count[s] as nat, total, log, low))
}

/// The first of the symbols below `n` with the largest share of at least one
/// state (0 if there is none), and that share.
pub open spec fn largest_share(count: Seq<u32>, total: nat, log: nat, n: nat) -> (nat, nat)
    decreases n,
{
    if n == 0 {
        (0, 0)
    } else {
        let (at, best) = largest_share(count, total, log, (n - 1) as nat);
        let c = count[n - 1] as nat;
        if c > 0 && c > total / pow2(log) && share(c, total, log) > best {
            ((n - 1) as nat, share(c, total, log))
        } else {
            (at, best)
        }
    }
}

/// The states left over by the first counts.
pub open spec fn left_over(count: Seq<u32>, total: nat, log: nat, low: i16) -> int {
    pow2(log) - sum_abs(first_counts(count, total, log, low))
}

/// Whether the most frequent symbol can absorb what is left over (or missing)
/// without losing half of its states.
pub open spec fn absorbs(count: Seq<u32>, total: nat, log: nat, low: i16) -> bool {
    let first = first_counts(count, total, log, low);
    let at = largest_share(count, total, log, count.len()).0;
    -left_over(count, total, log, low) < first[at as int] as int / 2
}

/// The first counts, with what is left over given to the most frequent
/// symbol.
pub open spec fn absorbed(count: Seq<u32>, total: nat, log: nat, low: i16) -> Seq<i16> {
    let first = first_counts(count, total, log, low);
    let at = largest_share(count, total, log, count.len()).0;
    first.update(
        at as int,
        (first[at as int] + left_over(count, total, log, low)) as i16,
    )
}

/// A distribution of `2^log` states in which exactly the counted symbols
/// appear.
pub open spec fn represents(norm: Seq<i16>, count: Seq<u32>, log: nat) -> bool {
    &&& norm.len() == count.len()
    &&& valid_counts(norm, log)
    &&& forall|s: int| 0 <= s < norm.len() ==> (#[trigger] norm[s] != 0 <==> count[s] != 0)
}

pub proof fn lemma_share(c: nat, total: nat, log: nat)
    requires
        c <= total,
        1 <= total,
        5 <= log <= 12,
    ensures
        c * (pow2(62) / total) <= pow2(62),
        share(c, total, log) <= pow2(log) + 1,
        pow2(62) == pow2(log) * pow2((62 - log) as nat),
{
    let p = pow2(62) as int;
    let step = p / (total as int);
    lemma_fundamental_div_mod(p, total as int);
    lemma_mod_bound(p, total as int);
    lemma_pow2_pos(62);
    assert(step >= 0) by (nonlinear_arith)
        requires
            p == total * step + p % (total as int),
            p % (total as int) < total,
            p > 0,
            total >= 1,
    ;
    assert(c * step <= p) by (nonlinear_arith)
        requires
            p == total * step + p % (total as int),
            0 <= p % (total as int),
            c <= total,
            step >= 0,
    ;
    lemma_pow2_adds(log, (62 - log) as nat);
    let unit = pow2((62 - log) as nat) as int;
    lemma_pow2_pos((62 - log) as nat);
    let x = c * step;
    lemma_fundamental_div_mod(x, unit);
    lemma_mod_bound(x, unit);
    assert(x / unit <= pow2(log)) by (nonlinear_arith)
        requires
            x == unit * (x / unit) + x % unit,
            0 <= x % unit,
            x <= pow2(log) * unit,
            unit > 0,
    ;
}

/// Computes a symbol's share.
fn compute_share(c: u32, total: u64, step: u64, table_log: u32) -> (r: u32)
    requires
        c <= total,
        1 <= total,
        5 <= table_log <= 12,
        step == pow2(62) / total as nat,
    ensures
        r == share(c as nat, total as nat, table_log as nat),
        r <= pow2(table_log as nat) + 1,
{
    proof {
        lemma_share(c as nat, total as nat, table_log as nat);
        lemma2_to64();
        vstd::arithmetic::power2::lemma2_to64_rest();
        lemma_pow2_pos((62 - table_log) as nat);
        lemma_pow2_strictly_increases((42 - table_log) as nat, 38);
        if table_log < 12 {
            lemma_pow2_strictly_increases(table_log as nat, 12);
        }
    }
    let unit: u64 = pow2_u64(62 - table_log);
    let x: u64 = c as u64 * step;
    let whole: u64 = x / unit;
    if whole < 8 {
        let rest: u64 = x % unit;
        let small: u64 = pow2_u64(42 - table_log);
        let beat: u64 = REST_TO_BEAT[whole as usize];
        assert(beat <= 830000);
        assert(small * beat <= 274877906944 * 830000) by (nonlinear_arith)
            requires
                small <= 274877906944,
                beat <= 830000,
        ;
        if rest > small * beat {
            return whole as u32 + 1;
        }
    }
    whole as u32
}

/// The result of scaling by its counts.
pub open spec fn normalized_view(r: Result<Normalized, Error>) -> Result<NormView, Error> {
    match r {
        Ok(Normalized::Rle(s)) => Ok(NormView::Rle(s)),
        Ok(Normalized::Table(norm)) => Ok(NormView::Table(norm@)),
        Err(e) => Err(e),
    }
}

/// Scales `count` (summing to `total`) onto a table of `2^table_log` states;
/// 0 stands for the default log. `use_low_prob` selects the `-1` marker for
/// symbols that are worth less than one state.
#[verifier::rlimit(30)]
pub fn normalize_count(
    count: &[u32],
    total: usize,
    max_symbol: u32,
    table_log: u32,
    use_low_prob: bool,
) -> (r: Result<Normalized, Error>)
    requires
        1 <= max_symbol <= 255,
        count@.len() == max_symbol + 1,
        1 <= total <= u32::MAX,
        total == total_count(count@, count@.len()),
    ensures
        ({
            let log = if table_log == 0 {
                6nat
            } else {
                table_log as nat
            };
            let low = if use_low_prob {
                -1i16
            } else {
                1i16
            };
            if log < 5 {
                r == Err::<Normalized, Error>(Error::Encode("FSE table log too small"))
            } else if log > 12 {
                r == Err::<Normalized, Error>(Error::Encode("FSE table log too large"))
            } else if log < spec_min_table_log(total as nat, max_symbol as nat) {
                r == Err::<Normalized, Error>(
                    Error::Encode("FSE table log below the alphabet minimum"),
                )
            } else {
                match r {
                    Ok(Normalized::Rle(s)) => s < count@.len() && count@[s as int] == total
                        && forall|i: int| 0 <= i < s ==> #[trigger] count@[i] != total,
                    Ok(Normalized::Table(norm)) => {
                        &&& forall|i: int| 0 <= i < count@.len() ==> #[trigger] count@[i] != total
                        &&& represents(norm@, count@, log)
                        &&& forall|i: int| 0 <= i < norm@.len() ==> #[trigger] norm@[i] < pow2(log)
                        &&& absorbs(count@, total as nat, log, low) ==> norm@ == absorbed(
                            count@,
                            total as nat,
                            log,
                            low,
                        )
                    },
                    Err(_) => false,
                }
            }
        }),
        normalized_view(r) == spec_normalize(
            count@,
            total as nat,
            max_symbol as nat,
            table_log as nat,
            use_low_prob,
        ),
{
    proof {
        reveal(spec_normalize);
    }
    let tlog: u32 = if table_log == 0 {
        FSE_DEFAULT_TABLELOG
    } else {
        table_log
    };
    if tlog < FSE_MIN_TABLELOG {
        return Err(Error::Encode("FSE table log too small"));
    }
    if tlog > FSE_MAX_TABLELOG {
        return Err(Error::Encode("FSE table log too large"));
    }
    if tlog < min_table_log(total, max_symbol) {
        return Err(Error::Encode("FSE table log below the alphabet minimum"));
    }
    let ghost log = tlog as nat;
    let ghost tot = total as nat;
    proof {
        assert forall|i: int| 0 <= i < count@.len() implies #[trigger] count@[i] <= total by {
            lemma_total_bounds(count@, count@.len(), i);
        }
    }
    let low: i16 = if use_low_prob {
        -1
    } else {
        1
    };
    proof {
        lemma2_to64();
        vstd::arithmetic::power2::lemma2_to64_rest();
        if log < 12 {
            lemma_pow2_strictly_increases(log, 12);
        }
        lemma_pow2_pos(log);
    }
    let size: u64 = pow2_u64(tlog);
    let step: u64 = pow2_u64(62) / total as u64;
    let low_threshold: u64 = total as u64 / size;
    let ghost first = first_counts(count@, tot, log, low);
    let mut norm: Vec<i16> = Vec::new();
    let mut left: i64 = size as i64;
    let mut largest: usize = 0;
    let mut largest_p: u32 = 0;
    let mut s: usize = 0;
    proof {
        assert(first.take(0) =~= Seq::<i16>::empty());
    }
    while s < count.len()
        invariant
            s <= count@.len(),
            2 <= count@.len() <= 256,
            5 <= log <= 12,
            log == tlog as nat,
            log == (if table_log == 0 {
                6nat
            } else {
                table_log as nat
            }),
            log >= spec_min_table_log(total as nat, max_symbol as nat),
            count@.len() == max_symbol + 1,
            tot == total as nat,
            1 <= total <= u32::MAX,
            pow2(log) == size,
            32 <= size <= 4096,
            step == pow2(62) / total as nat,
            low_threshold == total as nat / pow2(log),
            low == 1 || low == -1,
            forall|i: int| 0 <= i < count@.len() ==> #[trigger] count@[i] <= total,
            forall|i: int| 0 <= i < s ==> #[trigger] count@[i] != total,
            first == first_counts(count@, tot, log, low),
            use_low_prob ==> low == -1,
            !use_low_prob ==> low == 1,
            norm@ == first.take(s as int),
            left == size - start_of(first, s as int),
            -5000 * s <= left <= size,
            forall|i: int| 0 <= i < s ==> -1 <= #[trigger] norm@[i] <= 4097,
            largest < count@.len(),
            (largest as nat, largest_p as nat) == largest_share(count@, tot, log, s as nat),
            sole_symbol(count@, tot, 0) == sole_symbol(count@, tot, s as nat),
        decreases count@.len() - s,
    {
        proof {
            reveal_with_fuel(sole_symbol, 1);
        }
        let c: u32 = count[s];
        if c as usize == total {
            proof {
                reveal(spec_normalize);
            }
            return Ok(Normalized::Rle(s as u8));
        }
        proof {
            lemma_start_step(first, s as int);
            assert(first.take(s + 1) =~= first.take(s as int).push(first[s as int]));
        }
        if c == 0 {
            norm.push(0);
        } else if c as u64 <= low_threshold {
            norm.push(low);
            left = left - 1;
        } else {
            let p: u32 = compute_share(c, total as u64, step, tlog);
            if p > largest_p {
                largest_p = p;
                largest = s;
            }
            norm.push(p as i16);
            left = left - p as i64;
        }
        s = s + 1;
    }
    proof {
        reveal_with_fuel(sole_symbol, 1);
        assert(first.take(first.len() as int) =~= first);
        assert(norm@ == first);
        assert(left == left_over(count@, tot, log, low));
    }
    proof {
        reveal(spec_normalize);
        law_histograms_scale(count@, tot, log, use_low_prob);
    }
    let top: i64 = norm[largest] as i64;
    let half: i64 = if top < 0 {
        -1
    } else {
        top / 2
    };
    proof {
        assert(norm@[largest as int] >= -1);
    }
    if -left >= half {
        return match normalize_m2(tlog, count, total, low) {
            Some(n) => Ok(Normalized::Table(n)),
            None => Err(Error::Encode("FSE normalize weight underflow")),
        };
    }
    proof {
        assert(left <= 4096 && left > -half);
    }
    norm.set(largest, (top + left) as i16);
    Ok(Normalized::Table(norm))
}

/// The slower scaling for histograms whose leftover the most frequent symbol
/// cannot absorb: poor symbols get one state each, the others a share of the
/// rest by their place on the line. Fails where a symbol would get none.
#[verifier::rlimit(30)]
fn normalize_m2(table_log: u32, count: &[u32], total0: usize, low: i16) -> (r: Option<Vec<i16>>)
    requires
        5 <= table_log <= 12,
        1 <= count@.len() <= 256,
        low == 1 || low == -1,
    ensures
        r matches Some(n) ==> n@.len() == count@.len(),
        counts_view(r) == slowly_scaled(count@, total0 as nat, table_log as nat, low),
{
    proof {
        reveal(slowly_scaled);
        lemma2_to64();
        if table_log < 12 {
            lemma_pow2_strictly_increases(table_log as nat, 12);
        }
        lemma_pow2_pos(table_log as nat);
    }
    let size: u64 = pow2_u64(table_log);
    assert(1 <= size <= 4096);
    let n: usize = count.len();
    let mut total: u64 = total0 as u64;
    let mut distributed: u64 = 0;
    let low_threshold: u64 = total / size;
    let low_one: u128 = (total as u128 * 3) / (size as u128 * 2);
    let mut norm: Vec<i16> = Vec::new();
    let mut s: usize = 0;
    let ghost settled = poor_settled(
        count@,
        low_threshold as nat,
        low_one as nat,
        low,
        Settling { norm: Seq::empty(), total: total as nat, given: 0 },
    );
    assert(norm@ =~= Seq::<i16>::empty());
    while s < n
        invariant
            s <= n,
            n == count@.len(),
            n <= 256,
            norm@.len() == s,
            distributed <= s,
            total <= total0,
            low == 1 || low == -1,
            forall|i: int| 0 <= i < s ==> -2 <= #[trigger] norm@[i] <= 1,
            settled == poor_settled(
                count@,
                low_threshold as nat,
                low_one as nat,
                low,
                Settling { norm: norm@, total: total as nat, given: distributed as nat },
            ),
        decreases n - s,
    {
        proof {
            reveal_with_fuel(poor_settled, 1);
        }
        let c: u32 = count[s];
        if c == 0 {
            norm.push(0);
        } else if c as u64 <= low_threshold {
            norm.push(low);
            distributed = distributed + 1;
            total = total.saturating_sub(c as u64);
        } else if c as u128 <= low_one {
            norm.push(1);
            distributed = distributed + 1;
            total = total.saturating_sub(c as u64);
        } else {
            norm.push(-2);
        }
        s = s + 1;
    }
    proof {
        reveal_with_fuel(poor_settled, 1);
    }
    if distributed > size {
        return None;
    }
    let to_distribute: u64 = size - distributed;
    if to_distribute == 0 {
        return Some(norm);
    }
    if (total / to_distribute) as u128 > low_one {
        // Some symbol may round to zero: promote the small ones.
        let one: u128 = (total as u128 * 3) / (to_distribute as u128 * 2);
        let ghost promoted = small_settled(
            count@,
            one as nat,
            Settling { norm: norm@, total: total as nat, given: distributed as nat },
            0,
        );
        s = 0;
        while s < n
            invariant
                s <= n,
                n == count@.len(),
                n <= 256,
                norm@.len() == n,
                distributed <= 256 + s,
                forall|i: int| 0 <= i < n ==> -2 <= #[trigger] norm@[i] <= 1,
                promoted == small_settled(
                    count@,
                    one as nat,
                    Settling { norm: norm@, total: total as nat, given: distributed as nat },
                    s as nat,
                ),
            decreases n - s,
        {
            proof {
                reveal_with_fuel(small_settled, 1);
            }
            if norm[s] == -2 && count[s] as u128 <= one {
                norm.set(s, 1);
                distributed = distributed + 1;
                total = total.saturating_sub(count[s] as u64);
            }
            s = s + 1;
        }
        proof {
            reveal_with_fuel(small_settled, 1);
        }
        if distributed > size {
            return None;
        }
        return settle_rest(table_log, count, norm, total, distributed, size - distributed);
    }
    settle_rest(table_log, count, norm, total, distributed, to_distribute)
}

pub open spec fn counts_view(r: Option<Vec<i16>>) -> Option<Seq<i16>> {
    match r {
        Some(v) => Some(v@),
        None => None,
    }
}

/// Gives what is left to the symbols that are not poor.
fn settle_rest(
    table_log: u32,
    count: &[u32],
    poor: Vec<i16>,
    total: u64,
    distributed: u64,
    to_distribute: u64,
) -> (r: Option<Vec<i16>>)
    requires
        5 <= table_log <= 12,
        1 <= count@.len() <= 256,
        poor@.len() == count@.len(),
        to_distribute <= 4096,
        forall|i: int| 0 <= i < poor@.len() ==> -2 <= #[trigger] poor@[i] <= 1,
    ensures
        r matches Some(n) ==> n@.len() == count@.len(),
        counts_view(r) == rest_settled(
            count@,
            table_log as nat,
            Settling { norm: poor@, total: total as nat, given: distributed as nat },
            to_distribute as nat,
        ),
{
    proof {
        reveal(rest_settled);
    }
    let n: usize = count.len();
    let mut norm = poor;
    if distributed == n as u64 {
        // Every symbol is poor: the most frequent one takes the rest.
        let mut max_v: usize = 0;
        let mut max_c: u32 = 0;
        let mut s: usize = 0;
        while s < n
            invariant
                s <= n,
                n == count@.len(),
                max_v < n,
                most_frequent(count@, 0, 0, 0) == most_frequent(
                    count@,
                    s as nat,
                    max_v as nat,
                    max_c,
                ),
            decreases n - s,
        {
            proof {
                reveal_with_fuel(most_frequent, 1);
            }
            if count[s] > max_c {
                max_v = s;
                max_c = count[s];
            }
            s = s + 1;
        }
        proof {
            reveal_with_fuel(most_frequent, 1);
        }
        let v: i16 = norm[max_v];
        norm.set(max_v, v + to_distribute as i16);
        return Some(norm);
    }
    if total == 0 {
        return round_robin(norm, to_distribute);
    }
    settle_on_line(table_log, count, norm, total, to_distribute)
}

/// Gives each symbol that is not settled the states between its ends on the
/// line.
#[verifier::rlimit(30)]
fn settle_on_line(table_log: u32, count: &[u32], poor: Vec<i16>, total: u64, to_distribute: u64) -> (r:
    Option<Vec<i16>>)
    requires
        5 <= table_log <= 12,
        1 <= count@.len() <= 256,
        poor@.len() == count@.len(),
        to_distribute <= 4096,
        1 <= total,
    ensures
        r matches Some(n) ==> n@.len() == count@.len(),
        ({
            let unit = pow2((62 - table_log) as nat);
            let mid = (unit / 2 - 1) as nat;
            counts_view(r) == line_settled(
                count@,
                poor@,
                0,
                (unit * to_distribute as nat + mid) / total as nat,
                unit,
                mid,
            )
        }),
{
    proof {
        lemma2_to64();
        vstd::arithmetic::power2::lemma2_to64_rest();
        lemma_pow2_strictly_increases((62 - table_log) as nat, 58);
        lemma_pow2_strictly_increases(1, (62 - table_log) as nat);
    }
    let n: usize = count.len();
    let mut norm = poor;
    let v_step: u64 = pow2_u64(62 - table_log);
    let mid: u64 = v_step / 2 - 1;
    proof {
        assert(v_step * to_distribute <= 288230376151711744 * 4096) by (nonlinear_arith)
            requires
                v_step <= 288230376151711744,
                to_distribute <= 4096,
        ;
        assert(v_step * to_distribute >= 0) by (nonlinear_arith);
    }
    let top: u128 = v_step as u128 * to_distribute as u128 + mid as u128;
    let r_step: u128 = top / total as u128;
    proof {
        assert(top as int / total as int <= top) by (nonlinear_arith)
            requires
                top >= 0,
                total >= 1,
        ;
    }
    let mut tmp_total: u128 = mid as u128;
    let ghost all = line_settled(
        count@,
        norm@,
        0,
        r_step as nat,
        v_step as nat,
        tmp_total as nat,
    );
    let mut s: usize = 0;
    while s < n
        invariant
            s <= n,
            n == count@.len(),
            n <= 256,
            norm@.len() == n,
            v_step > 0,
            r_step <= 9223372036854775808000,
            tmp_total <= 9223372036854775808 + s * 79228162514264337593543950336000,
            all == line_settled(
                count@,
                poor@,
                0,
                r_step as nat,
                v_step as nat,
                mid as nat,
            ),
            all == line_settled(
                count@,
                norm@,
                s as nat,
                r_step as nat,
                v_step as nat,
                tmp_total as nat,
            ),
            r_step as nat == (v_step as nat * to_distribute as nat + mid as nat) / total as nat,
            v_step == pow2((62 - table_log) as nat),
            mid as nat == (v_step as nat / 2 - 1) as nat,
        decreases n - s,
    {
        proof {
            reveal_with_fuel(line_settled, 1);
        }
        if norm[s] == -2 {
            proof {
                assert(count@[s as int] as u128 * r_step <= 4294967296 * 9223372036854775808000)
                    by (nonlinear_arith)
                    requires
                        count@[s as int] <= 4294967296,
                        r_step <= 9223372036854775808000,
                ;
                assert(count@[s as int] as u128 * r_step >= 0) by (nonlinear_arith);
            }
            let end: u128 = tmp_total + count[s] as u128 * r_step;
            let a: u128 = tmp_total / v_step as u128;
            let b: u128 = end / v_step as u128;
            if b <= a || b - a > 4096 {
                return None;
            }
            norm.set(s, (b - a) as i16);
            tmp_total = end;
        }
        s = s + 1;
    }
    proof {
        reveal_with_fuel(line_settled, 1);
    }
    Some(norm)
}

/// Hands out `to_distribute` states one by one to the symbols that have some.
fn round_robin(norm: Vec<i16>, to_distribute: u64) -> (r: Option<Vec<i16>>)
    requires
        to_distribute <= 4096,
        forall|i: int| 0 <= i < norm@.len() ==> -2 <= #[trigger] norm@[i] <= 1,
    ensures
        r matches Some(n) ==> n@.len() == norm@.len(),
        counts_view(r) == rounds_handed(norm@, to_distribute as nat),
{
    let ghost all = rounds_handed(norm@, to_distribute as nat);
    let mut now = norm;
    let mut left: u64 = to_distribute;
    let n: usize = now.len();
    while left > 0
        invariant
            left <= to_distribute,
            to_distribute <= 4096,
            n == now@.len(),
            n == norm@.len(),
            forall|i: int|
                0 <= i < now@.len() ==> -2 <= #[trigger] now@[i] <= 1 + to_distribute - left,
            all == rounds_handed(norm@, to_distribute as nat),
            all == rounds_handed(now@, left as nat),
        decreases left,
    {
        proof {
            reveal_with_fuel(rounds_handed, 1);
        }
        let before: u64 = left;
        let ghost round = round_handed(now@, 0, left as nat);
        let mut s: usize = 0;
        while s < n && left > 0
            invariant
                s <= n,
                left <= before <= to_distribute,
                to_distribute <= 4096,
                n == now@.len(),
                n == norm@.len(),
                forall|i: int|
                    0 <= i < now@.len() ==> -2 <= #[trigger] now@[i] <= 1 + to_distribute - left,
                round == round_handed(now@, s as nat, left as nat),
            decreases n - s,
        {
            proof {
                reveal_with_fuel(round_handed, 1);
            }
            let c: i16 = now[s];
            if c > 0 {
                now.set(s, c + 1);
                left = left - 1;
            }
            s = s + 1;
        }
        proof {
            reveal_with_fuel(round_handed, 1);
        }
        if left == before {
            return None;
        }
    }
    proof {
        reveal_with_fuel(rounds_handed, 1);
    }
    Some(now)
}

} // verus!
